use game_pieces::map::Connection;
use game_pieces::map::GameMap;
use game_pieces::player::Player;
use game_pieces::province::Province;
use game_pieces::province::ProvinceType;
use game_pieces::unit::Unit;
use game_pieces::unit::UnitType;

#[test]
fn unit_keeps_owner_and_kind() {
    let unit = Unit::new(3, UnitType::Fleet);
    assert_eq!(unit.owner(), 3);
    assert_eq!(unit.get_type(), UnitType::Fleet);
}

#[test]
fn only_fleets_convoy_and_only_armies_are_convoyed() {
    let fleet = Unit::new(1, UnitType::Fleet);
    let army = Unit::new(1, UnitType::Army);
    assert!(fleet.can_convoy());
    assert!(!fleet.can_be_convoyed());
    assert!(!army.can_convoy());
    assert!(army.can_be_convoyed());
}

#[test]
fn convoys_pass_through_water_only() {
    assert!(!ProvinceType::Land.can_convoy_through());
    assert!(!ProvinceType::Coast.can_convoy_through());
    assert!(ProvinceType::Water.can_convoy_through());
    assert!(ProvinceType::DeepSea.can_convoy_through());
}

#[test]
fn convoys_start_and_end_on_ground_only() {
    assert!(ProvinceType::Land.can_convoy_into());
    assert!(ProvinceType::Coast.can_convoy_into());
    assert!(!ProvinceType::Water.can_convoy_into());
    assert!(!ProvinceType::DeepSea.can_convoy_into());
    assert!(ProvinceType::Land.can_convoy_out_of());
    assert!(ProvinceType::Coast.can_convoy_out_of());
    assert!(!ProvinceType::Water.can_convoy_out_of());
    assert!(!ProvinceType::DeepSea.can_convoy_out_of());
}

#[test]
fn province_keeps_identifier_and_terrain() {
    let province = Province::new(12, String::from("Par"), ProvinceType::Land);
    assert_eq!(province.id(), 12);
    assert_eq!(province.get_type(), ProvinceType::Land);
}

#[test]
fn player_keeps_identifier_and_name() {
    let player = Player::new(2, String::from("France"));
    assert_eq!(player.id(), 2);
    assert_eq!(player.name(), "France");
}

#[test]
fn connection_admits_the_listed_kinds_only() {
    let inland = Connection::new(5, 3, vec![UnitType::Army]);
    assert!(inland.allowed(&UnitType::Army));
    assert!(!inland.allowed(&UnitType::Fleet));
    let closed = Connection::new(5, 3, vec![]);
    assert!(!closed.allowed(&UnitType::Army));
    let open = Connection::new(5, 3, vec![UnitType::Army, UnitType::Fleet]);
    assert!(open.allowed(&UnitType::Fleet));
}

#[test]
fn connection_joins_its_provinces_in_either_order() {
    let link = Connection::new(5, 3, vec![UnitType::Army]);
    assert!(link.joins(3, 5));
    assert!(link.joins(5, 3));
    assert!(!link.joins(3, 4));
    assert!(!link.joins(5, 5));
}

#[test]
fn board_finds_a_connection_for_the_unit_kind() {
    let provinces = vec![
        Province::new(1, String::from("Par"), ProvinceType::Land),
        Province::new(2, String::from("Bur"), ProvinceType::Land),
        Province::new(3, String::from("ENG"), ProvinceType::Water),
    ];
    let links = vec![Connection::new(1, 2, vec![UnitType::Army]), Connection::new(3, 1, vec![UnitType::Fleet])];
    let board = GameMap::new(provinces, links);
    assert!(board.can_traverse(1, 2, &UnitType::Army));
    assert!(board.can_traverse(2, 1, &UnitType::Army));
    assert!(!board.can_traverse(1, 2, &UnitType::Fleet));
    assert!(board.can_traverse(1, 3, &UnitType::Fleet));
    assert!(!board.can_traverse(2, 3, &UnitType::Fleet));
}

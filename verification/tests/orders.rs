use game_pieces::order::Order;
use game_pieces::order::OrderError;
use game_pieces::order::OrderType;

#[test]
fn new_move_starts_unresolved_with_strength_one() {
    let order = Order::new(OrderType::Move, 1, 1, 2).unwrap();
    assert_eq!(order.order_type(), OrderType::Move);
    assert_eq!(order.original_order_type(), OrderType::Move);
    assert_eq!(order.location(), 1);
    assert_eq!(order.source(), 1);
    assert_eq!(order.target(), 2);
    assert_eq!(order.strength(), 1);
    assert!(!order.is_resolved());
    assert!(!order.has_succeeded());
    assert!(!order.is_dislodged());
}

#[test]
fn move_into_own_province_is_refused() {
    assert_eq!(Order::new(OrderType::Move, 4, 4, 4).err(), Some(OrderError::MoveIntoOwnProvince));
    assert_eq!(Order::new(OrderType::Move, 4, 9, 4).err(), Some(OrderError::MoveIntoOwnProvince));
}

#[test]
fn move_from_another_province_is_refused() {
    assert_eq!(Order::new(OrderType::Move, 4, 5, 6).err(), Some(OrderError::InconsistentProvinces));
}

#[test]
fn hold_must_name_its_own_province() {
    assert!(Order::new(OrderType::Hold, 7, 7, 7).is_ok());
    assert_eq!(Order::new(OrderType::Hold, 7, 7, 8).err(), Some(OrderError::InconsistentProvinces));
    assert_eq!(Order::new(OrderType::Hold, 7, 8, 7).err(), Some(OrderError::InconsistentProvinces));
}

#[test]
fn support_must_name_another_unit() {
    assert!(Order::new(OrderType::Support, 3, 2, 1).is_ok());
    assert!(Order::new(OrderType::Support, 3, 2, 2).is_ok());
    assert_eq!(Order::new(OrderType::Support, 3, 3, 1).err(), Some(OrderError::InconsistentProvinces));
}

#[test]
fn convoy_needs_three_distinct_provinces() {
    assert!(Order::new(OrderType::Convoy, 3, 1, 2).is_ok());
    assert_eq!(Order::new(OrderType::Convoy, 3, 3, 2).err(), Some(OrderError::InconsistentProvinces));
    assert_eq!(Order::new(OrderType::Convoy, 3, 1, 3).err(), Some(OrderError::InconsistentProvinces));
    assert_eq!(Order::new(OrderType::Convoy, 3, 1, 1).err(), Some(OrderError::InconsistentProvinces));
}

#[test]
fn illegal_order_is_accepted_as_given() {
    let order = Order::new(OrderType::IllegalOrder, 3, 3, 9).unwrap();
    assert_eq!(order.order_type(), OrderType::IllegalOrder);
    assert_eq!(order.target(), 9);
}

#[test]
fn resolution_kinds_are_no_player_orders() {
    assert_eq!(Order::new(OrderType::SupportCut, 3, 2, 1).err(), Some(OrderError::NotAPlayerOrder));
    assert_eq!(
        Order::new(OrderType::RequiredOrderNotGiven, 3, 2, 1).err(),
        Some(OrderError::NotAPlayerOrder)
    );
}

#[test]
fn is_moving_into_needs_a_move_and_the_destination() {
    let mover = Order::new(OrderType::Move, 1, 1, 2).unwrap();
    assert!(mover.is_moving_into(2));
    assert!(!mover.is_moving_into(1));
    assert!(!mover.is_moving_into(3));
    let holder = Order::new(OrderType::Hold, 2, 2, 2).unwrap();
    assert!(!holder.is_moving_into(2));
}

#[test]
fn is_support_holding_needs_origin_and_destination_equal() {
    let keeps = Order::new(OrderType::Support, 3, 1, 1).unwrap();
    assert!(keeps.is_support_holding(1));
    assert!(!keeps.is_support_holding(3));
    let pushes = Order::new(OrderType::Support, 3, 1, 2).unwrap();
    assert!(!pushes.is_support_holding(1));
    assert!(!pushes.is_support_holding(2));
}

#[test]
fn is_support_moving_needs_both_provinces() {
    let pushes = Order::new(OrderType::Support, 3, 1, 2).unwrap();
    assert!(pushes.is_support_moving(1, 2));
    assert!(!pushes.is_support_moving(2, 1));
    assert!(!pushes.is_support_moving(1, 3));
    let carries = Order::new(OrderType::Convoy, 3, 1, 2).unwrap();
    assert!(!carries.is_support_moving(1, 2));
}

#[test]
fn is_convoying_needs_a_convoy_and_both_provinces() {
    let carries = Order::new(OrderType::Convoy, 3, 1, 2).unwrap();
    assert!(carries.is_convoying(1, 2));
    assert!(!carries.is_convoying(2, 1));
    let pushes = Order::new(OrderType::Support, 3, 1, 2).unwrap();
    assert!(!pushes.is_convoying(1, 2));
}

#[test]
fn increase_strength_adds_one() {
    let mut order = Order::new(OrderType::Move, 1, 1, 2).unwrap();
    order.increase_strength();
    assert_eq!(order.strength(), 2);
    order.increase_strength();
    assert_eq!(order.strength(), 3);
    assert!(!order.is_resolved());
    assert_eq!(order.target(), 2);
}

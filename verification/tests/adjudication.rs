use game_pieces::adjudication::adjudicate;
use game_pieces::adjudication::locations_are_distinct;
use game_pieces::adjudication::report;
use game_pieces::adjudication::OrderResult;
use game_pieces::adjudication::Outcome;
use game_pieces::order::Order;
use game_pieces::order::OrderType;
use game_pieces::rules::AdjudicationError;

fn hold(at: u8) -> Order {
    Order::new(OrderType::Hold, at, at, at).unwrap()
}

fn go(from: u8, to: u8) -> Order {
    Order::new(OrderType::Move, from, from, to).unwrap()
}

fn support(at: u8, from: u8, to: u8) -> Order {
    Order::new(OrderType::Support, at, from, to).unwrap()
}

fn convoy(at: u8, from: u8, to: u8) -> Order {
    Order::new(OrderType::Convoy, at, from, to).unwrap()
}

fn outcomes(orders: Vec<Order>) -> Vec<(Outcome, u8)> {
    let resolved = adjudicate(orders).unwrap();
    report(&resolved).unwrap().iter().map(|r| (r.outcome, r.strength)).collect()
}

const PAR: u8 = 1;
const BUR: u8 = 2;
const MAR: u8 = 3;
const GAS: u8 = 4;

#[test]
fn supported_move_dislodges_a_hold() {
    let got = outcomes(vec![hold(PAR), go(BUR, PAR), support(MAR, BUR, PAR)]);
    assert_eq!(got, vec![(Outcome::Dislodged, 1), (Outcome::Success, 2), (Outcome::Success, 1)]);
}

#[test]
fn supported_move_reports_locations_in_order() {
    let resolved = adjudicate(vec![hold(PAR), go(BUR, PAR), support(MAR, BUR, PAR)]).unwrap();
    let results = report(&resolved).unwrap();
    assert_eq!(
        results,
        vec![
            OrderResult { location: PAR, outcome: Outcome::Dislodged, strength: 1 },
            OrderResult { location: BUR, outcome: Outcome::Success, strength: 2 },
            OrderResult { location: MAR, outcome: Outcome::Success, strength: 1 },
        ]
    );
}

#[test]
fn head_to_head_moves_both_bounce() {
    let got = outcomes(vec![go(1, 2), go(2, 1)]);
    assert_eq!(got, vec![(Outcome::Bounced, 1), (Outcome::Bounced, 1)]);
}

#[test]
fn head_to_head_bounces_whatever_the_strength() {
    let got = outcomes(vec![go(1, 2), go(2, 1), support(3, 1, 2), support(4, 1, 2)]);
    assert_eq!(
        got,
        vec![(Outcome::Bounced, 3), (Outcome::Bounced, 1), (Outcome::Success, 1), (Outcome::Success, 1)]
    );
}

#[test]
fn circular_movement_succeeds() {
    let got = outcomes(vec![go(1, 2), go(2, 3), go(3, 1)]);
    assert_eq!(got, vec![(Outcome::Success, 1), (Outcome::Success, 1), (Outcome::Success, 1)]);
}

#[test]
fn circular_movement_of_four_succeeds() {
    let got = outcomes(vec![go(1, 2), go(2, 3), go(3, 4), go(4, 1)]);
    assert_eq!(got, vec![(Outcome::Success, 1); 4]);
}

#[test]
fn circular_movement_with_a_rival_is_not_recognized() {
    let done = adjudicate(vec![go(1, 2), go(2, 3), go(3, 1), go(4, 2)]);
    assert_eq!(done.err(), Some(AdjudicationError::UnrecognizedCycle));
}

#[test]
fn convoy_paradox_fails_move_and_convoy() {
    // The army at 1 is convoyed to 2 by the fleet at 3. The unit at 2
    // supports an attack from 4 on that fleet.
    let got = outcomes(vec![go(1, 2), convoy(3, 1, 2), go(4, 3), support(2, 4, 3)]);
    assert_eq!(
        got,
        vec![(Outcome::Bounced, 1), (Outcome::Dislodged, 1), (Outcome::Success, 2), (Outcome::Success, 1)]
    );
}

#[test]
fn convoyed_move_succeeds_where_the_convoy_holds() {
    let got = outcomes(vec![go(1, 2), convoy(3, 1, 2)]);
    assert_eq!(got, vec![(Outcome::Success, 1), (Outcome::Success, 1)]);
}

#[test]
fn convoyed_move_fails_where_the_convoy_is_dislodged() {
    let got = outcomes(vec![go(1, 2), convoy(3, 1, 2), go(4, 3), support(5, 4, 3)]);
    assert_eq!(
        got,
        vec![(Outcome::Bounced, 1), (Outcome::Dislodged, 1), (Outcome::Success, 2), (Outcome::Success, 1)]
    );
}

#[test]
fn attacked_support_is_cut() {
    let got = outcomes(vec![hold(PAR), go(BUR, PAR), support(MAR, BUR, PAR), go(GAS, MAR)]);
    assert_eq!(
        got,
        vec![(Outcome::Success, 1), (Outcome::Bounced, 1), (Outcome::SupportCut, 1), (Outcome::Bounced, 1)]
    );
}

#[test]
fn cut_support_changes_its_kind() {
    let resolved = adjudicate(vec![hold(PAR), go(BUR, PAR), support(MAR, BUR, PAR), go(GAS, MAR)]).unwrap();
    assert_eq!(resolved[2].order_type(), OrderType::SupportCut);
    assert_eq!(resolved[2].original_order_type(), OrderType::Support);
    assert!(resolved[2].is_resolved());
    assert!(!resolved[2].has_succeeded());
    assert!(!resolved[2].is_dislodged());
}

#[test]
fn support_that_nobody_takes_fails() {
    let resolved = adjudicate(vec![hold(PAR), support(MAR, BUR, PAR)]).unwrap();
    assert_eq!(resolved[1].order_type(), OrderType::RequiredOrderNotGiven);
    assert!(!resolved[1].has_succeeded());
    assert_eq!(resolved[0].strength(), 1);
    let got: Vec<Outcome> = report(&resolved).unwrap().iter().map(|r| r.outcome).collect();
    assert_eq!(got, vec![Outcome::Success, Outcome::Bounced]);
}

#[test]
fn supported_hold_withstands_a_supported_move() {
    let got = outcomes(vec![hold(1), support(5, 1, 1), go(2, 1), support(3, 2, 1)]);
    assert_eq!(
        got,
        vec![(Outcome::Success, 2), (Outcome::Success, 1), (Outcome::Bounced, 2), (Outcome::Success, 1)]
    );
}

#[test]
fn equal_moves_into_a_held_province_all_bounce() {
    let got = outcomes(vec![hold(1), go(2, 1), go(3, 1)]);
    assert_eq!(got, vec![(Outcome::Success, 1), (Outcome::Bounced, 1), (Outcome::Bounced, 1)]);
}

#[test]
fn stronger_of_two_moves_takes_an_empty_province() {
    let got = outcomes(vec![go(2, 1), go(3, 1), support(4, 3, 1)]);
    assert_eq!(got, vec![(Outcome::Bounced, 1), (Outcome::Success, 2), (Outcome::Success, 1)]);
}

#[test]
fn chain_of_moves_follows_the_first() {
    let got = outcomes(vec![go(1, 2), go(2, 3)]);
    assert_eq!(got, vec![(Outcome::Success, 1), (Outcome::Success, 1)]);
}

#[test]
fn move_behind_a_bounced_move_bounces_too() {
    let got = outcomes(vec![go(1, 2), go(2, 3), hold(3)]);
    assert_eq!(got, vec![(Outcome::Bounced, 1), (Outcome::Bounced, 1), (Outcome::Success, 1)]);
}

#[test]
fn bounced_move_is_dislodged_by_a_stronger_one() {
    let got = outcomes(vec![go(1, 2), go(2, 3), hold(3), support(4, 1, 2)]);
    assert_eq!(
        got,
        vec![(Outcome::Success, 2), (Outcome::Dislodged, 1), (Outcome::Success, 1), (Outcome::Success, 1)]
    );
}

#[test]
fn illegal_order_fails_and_can_be_dislodged() {
    let stays = Order::new(OrderType::IllegalOrder, 1, 1, 9).unwrap();
    let got = outcomes(vec![stays, go(2, 1), support(3, 2, 1)]);
    assert_eq!(got, vec![(Outcome::Dislodged, 1), (Outcome::Success, 2), (Outcome::Success, 1)]);
    let alone = outcomes(vec![stays]);
    assert_eq!(alone, vec![(Outcome::Bounced, 1)]);
}

#[test]
fn illegal_order_takes_no_support() {
    let stays = Order::new(OrderType::IllegalOrder, 1, 1, 9).unwrap();
    let resolved = adjudicate(vec![stays, support(3, 1, 1)]).unwrap();
    assert_eq!(resolved[0].strength(), 1);
    assert_eq!(resolved[1].order_type(), OrderType::RequiredOrderNotGiven);
}

#[test]
fn no_orders_resolve_to_no_outcomes() {
    let resolved = adjudicate(vec![]).unwrap();
    assert!(resolved.is_empty());
    assert_eq!(report(&resolved), Some(vec![]));
}

#[test]
fn support_for_two_orders_of_one_province_is_a_violation() {
    let done = adjudicate(vec![hold(1), hold(1), support(2, 1, 1)]);
    assert_eq!(done.err(), Some(AdjudicationError::InvariantViolation));
}

#[test]
fn more_supports_than_strength_counts_is_an_overflow() {
    let mut orders = vec![hold(0)];
    for at in 1..=255u8 {
        orders.push(support(at, 0, 0));
    }
    assert_eq!(adjudicate(orders).err(), Some(AdjudicationError::StrengthOverflow));
}

#[test]
fn strength_counts_up_to_its_limit() {
    let mut orders = vec![hold(0)];
    for at in 1..=254u8 {
        orders.push(support(at, 0, 0));
    }
    let resolved = adjudicate(orders).unwrap();
    assert_eq!(resolved[0].strength(), 255);
    assert!(resolved[0].has_succeeded());
}

#[test]
fn strength_is_one_plus_successful_supports() {
    // Of the three supports of the move, the one at 5 is cut.
    let resolved = adjudicate(vec![
        hold(1),
        go(2, 1),
        support(3, 2, 1),
        support(4, 2, 1),
        support(5, 2, 1),
        go(6, 5),
    ])
    .unwrap();
    assert_eq!(resolved[1].strength(), 3);
    let given = resolved.iter().filter(|o| o.original_order_type() == OrderType::Support && o.has_succeeded()).count();
    assert_eq!(given, 2);
}

#[test]
fn at_most_one_move_into_a_province_succeeds() {
    let resolved = adjudicate(vec![go(2, 1), go(3, 1), go(4, 1), support(5, 3, 1), support(6, 4, 1), support(7, 4, 1)])
        .unwrap();
    let winners: Vec<u8> =
        resolved.iter().filter(|o| o.is_moving_into(1) && o.has_succeeded()).map(|o| o.location()).collect();
    assert_eq!(winners, vec![4]);
}

#[test]
fn adjudication_is_repeatable() {
    let orders = vec![hold(PAR), go(BUR, PAR), support(MAR, BUR, PAR), go(GAS, MAR), go(5, 6), go(6, 5)];
    let first = outcomes(orders.clone());
    let second = outcomes(orders);
    assert_eq!(first, second);
}

#[test]
fn adjudication_does_not_depend_on_the_order_of_the_set() {
    let forward = outcomes(vec![hold(PAR), go(BUR, PAR), support(MAR, BUR, PAR)]);
    let backward = outcomes(vec![support(MAR, BUR, PAR), go(BUR, PAR), hold(PAR)]);
    assert_eq!(forward[0], backward[2]);
    assert_eq!(forward[1], backward[1]);
    assert_eq!(forward[2], backward[0]);
}

#[test]
fn report_twice_is_the_same() {
    let resolved = adjudicate(vec![hold(PAR), go(BUR, PAR), support(MAR, BUR, PAR)]).unwrap();
    let first = report(&resolved);
    let second = report(&resolved);
    assert!(first.is_some());
    assert_eq!(first, second);
}

#[test]
fn report_waits_for_resolution() {
    assert_eq!(report(&vec![hold(PAR)]), None);
    assert_eq!(report(&vec![go(1, 2), go(2, 1)]), None);
}

#[test]
fn bounced_head_to_head_move_is_dislodged_by_a_third_unit() {
    let got = outcomes(vec![go(1, 2), go(2, 1), go(3, 2), support(4, 3, 2)]);
    assert_eq!(
        got,
        vec![(Outcome::Bounced, 1), (Outcome::Dislodged, 1), (Outcome::Success, 2), (Outcome::Success, 1)]
    );
}

#[test]
fn bounced_head_to_head_move_withstands_an_equal_third_unit() {
    let got = outcomes(vec![go(1, 2), go(2, 1), go(3, 2)]);
    assert_eq!(got, vec![(Outcome::Bounced, 1), (Outcome::Bounced, 1), (Outcome::Bounced, 1)]);
}

#[test]
fn dislodged_exactly_where_a_move_took_the_province() {
    let resolved = adjudicate(vec![hold(1), go(2, 1), support(3, 2, 1), hold(4), go(5, 4), go(6, 7)]).unwrap();
    let dislodged: Vec<u8> = resolved.iter().filter(|o| o.is_dislodged()).map(|o| o.location()).collect();
    assert_eq!(dislodged, vec![1]);
}

#[test]
fn locations_are_distinct_finds_a_province_with_two_orders() {
    assert!(locations_are_distinct(&vec![]));
    assert!(locations_are_distinct(&vec![hold(1)]));
    assert!(locations_are_distinct(&vec![hold(1), go(2, 1), support(3, 2, 1)]));
    assert!(!locations_are_distinct(&vec![hold(1), go(2, 1), support(1, 2, 3)]));
    assert!(!locations_are_distinct(&vec![hold(1), hold(2), hold(3), hold(3)]));
}

#[test]
fn listing_the_orders_anew_lists_the_outcomes_anew() {
    let listed = vec![go(1, 2), convoy(3, 1, 2), go(4, 3), support(2, 4, 3), go(5, 6), go(6, 7), go(7, 5), hold(8)];
    let places: Vec<usize> = vec![3, 7, 0, 5, 1, 6, 2, 4];
    let anew: Vec<Order> = places.iter().map(|&at| listed[at]).collect();
    let first = outcomes(listed);
    let second = outcomes(anew);
    for (to, &from) in places.iter().enumerate() {
        assert_eq!(second[to], first[from]);
    }
}

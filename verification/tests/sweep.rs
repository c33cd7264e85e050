use game_pieces::adjudication::adjudicate;
use game_pieces::adjudication::locations_are_distinct;
use game_pieces::adjudication::report;
use game_pieces::order::Order;
use game_pieces::order::OrderType;
use game_pieces::rules::AdjudicationError;

/// A small generator of numbers that look random and are the same in every
/// run.
struct Dice {
    state: u64,
}

impl Dice {
    fn roll(&mut self, sides: u64) -> u64 {
        self.state = self.state.wrapping_mul(6364136223846793005).wrapping_add(1442695040888963407);
        (self.state >> 33) % sides
    }
}

fn other_than(dice: &mut Dice, provinces: u8, not: u8) -> u8 {
    let picked = dice.roll(provinces as u64 - 1) as u8;
    if picked >= not {
        picked + 1
    } else {
        picked
    }
}

/// One order for each of the first provinces that the dice pick.
fn some_orders(dice: &mut Dice, provinces: u8) -> Vec<Order> {
    let mut orders = Vec::new();
    for at in 0..provinces {
        if dice.roll(4) == 0 {
            continue;
        }
        let order = match dice.roll(8) {
            0 => Order::new(OrderType::Hold, at, at, at),
            1 | 2 | 3 => Order::new(OrderType::Move, at, at, other_than(dice, provinces, at)),
            4 | 5 => {
                let from = other_than(dice, provinces, at);
                Order::new(OrderType::Support, at, from, dice.roll(provinces as u64) as u8)
            }
            6 => {
                let from = other_than(dice, provinces, at);
                let to = dice.roll(provinces as u64) as u8;
                if to == at || to == from {
                    Order::new(OrderType::Hold, at, at, at)
                } else {
                    Order::new(OrderType::Convoy, at, from, to)
                }
            }
            _ => Order::new(OrderType::IllegalOrder, at, at, dice.roll(provinces as u64) as u8),
        };
        orders.push(order.unwrap());
    }
    orders
}

fn sweep(seed: u64, rounds: usize, provinces: u8, check: fn(&Vec<Order>, &Result<Vec<Order>, AdjudicationError>)) {
    let mut dice = Dice { state: seed };
    for _ in 0..rounds {
        let orders = some_orders(&mut dice, provinces);
        assert!(locations_are_distinct(&orders));
        let done = adjudicate(orders.clone());
        check(&orders, &done);
    }
}

fn backs(support: &Order, other: &Order) -> bool {
    support.original_order_type() == OrderType::Support
        && support.source() == other.location()
        && if other.order_type() == OrderType::Move {
            support.target() == other.target()
        } else {
            other.order_type() != OrderType::IllegalOrder && support.target() == other.location()
        }
}

#[test]
fn sweep_never_finds_a_torn_support() {
    sweep(1, 400, 7, |_, done| {
        assert_ne!(done.as_ref().err(), Some(&AdjudicationError::InvariantViolation));
        assert_ne!(done.as_ref().err(), Some(&AdjudicationError::StrengthOverflow));
    });
}

#[test]
fn sweep_resolves_every_order_or_fails() {
    sweep(2, 400, 7, |orders, done| {
        if let Ok(resolved) = done {
            assert_eq!(resolved.len(), orders.len());
            assert!(resolved.iter().all(|o| o.is_resolved()));
            assert!(report(resolved).is_some());
            for (before, after) in orders.iter().zip(resolved.iter()) {
                assert_eq!(before.location(), after.location());
                assert_eq!(before.source(), after.source());
                assert_eq!(before.target(), after.target());
                assert_eq!(before.order_type(), after.original_order_type());
            }
        }
    });
}

#[test]
fn sweep_counts_strength_by_successful_supports() {
    sweep(3, 400, 8, |_, done| {
        if let Ok(resolved) = done {
            for (i, order) in resolved.iter().enumerate() {
                let given = resolved
                    .iter()
                    .enumerate()
                    .filter(|(j, support)| *j != i && support.has_succeeded() && backs(support, order))
                    .count();
                assert_eq!(order.strength() as usize, 1 + given);
            }
        }
    });
}

#[test]
fn sweep_lets_one_move_at_most_take_a_province() {
    sweep(4, 400, 6, |_, done| {
        if let Ok(resolved) = done {
            for province in 0..6u8 {
                let winners: Vec<&Order> =
                    resolved.iter().filter(|o| o.is_moving_into(province) && o.has_succeeded()).collect();
                assert!(winners.len() <= 1);
                for stood in resolved.iter().filter(|o| o.location() == province) {
                    let left = stood.order_type() == OrderType::Move && stood.has_succeeded();
                    assert_eq!(stood.is_dislodged(), winners.len() == 1 && !left);
                }
            }
        }
    });
}

#[test]
fn sweep_bounces_moves_that_come_head_to_head() {
    sweep(5, 600, 5, |orders, done| {
        if let Ok(resolved) = done {
            let convoyed = |m: &Order| orders.iter().any(|c| c.is_convoying(m.source(), m.target()));
            for (i, a) in orders.iter().enumerate() {
                for (j, b) in orders.iter().enumerate() {
                    if a.is_moving_into(b.location()) && b.is_moving_into(a.location()) && !convoyed(a) && !convoyed(b) {
                        assert!(!resolved[i].has_succeeded());
                        assert!(!resolved[j].has_succeeded());
                    }
                }
            }
        }
    });
}

#[test]
fn sweep_does_not_depend_on_the_listing() {
    sweep(6, 400, 7, |orders, done| {
        let mut anew: Vec<Order> = orders.clone();
        anew.reverse();
        if anew.len() > 2 {
            anew.swap(0, 2);
        }
        let again = adjudicate(anew.clone());
        match (done, again) {
            (Err(a), Err(b)) => assert_eq!(*a, b),
            (Ok(a), Ok(b)) => {
                for one in a.iter() {
                    let other = b.iter().find(|o| o.location() == one.location()).unwrap();
                    assert_eq!(one.strength(), other.strength());
                    assert_eq!(one.has_succeeded(), other.has_succeeded());
                    assert_eq!(one.is_dislodged(), other.is_dislodged());
                    assert_eq!(one.order_type(), other.order_type());
                }
            }
            _ => panic!("one listing resolved and the other failed"),
        }
    });
}

#[test]
fn sweep_meets_every_kind_of_end() {
    let mut dice = Dice { state: 7 };
    let mut resolved = 0;
    let mut stalled = 0;
    for _ in 0..400 {
        match adjudicate(some_orders(&mut dice, 7)) {
            Ok(_) => resolved += 1,
            Err(AdjudicationError::UnrecognizedCycle) => stalled += 1,
            Err(other) => panic!("{:?}", other),
        }
    }
    assert!(resolved > 0);
    assert!(stalled > 0);
}

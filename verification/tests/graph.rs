use game_pieces::cycles::resolve_cycles;
use game_pieces::dependency::create_order_dependency_graph;
use game_pieces::dependency::order_depends_on;
use game_pieces::engine::count_open;
use game_pieces::engine::prune;
use game_pieces::engine::resolve_all_non_dependant_edges;
use game_pieces::order::Order;
use game_pieces::order::OrderType;
use game_pieces::rules::AdjudicationError;
use graph_cycles::Cycles;
use petgraph::graph::NodeIndex;

fn hold(at: u8) -> Order {
    Order::new(OrderType::Hold, at, at, at).unwrap()
}

fn go(from: u8, to: u8) -> Order {
    Order::new(OrderType::Move, from, from, to).unwrap()
}

fn support(at: u8, from: u8, to: u8) -> Order {
    Order::new(OrderType::Support, at, from, to).unwrap()
}

fn convoy(at: u8, from: u8, to: u8) -> Order {
    Order::new(OrderType::Convoy, at, from, to).unwrap()
}

fn edges_of(orders: &Vec<Order>) -> Vec<(usize, usize)> {
    let (graph, _) = create_order_dependency_graph(orders);
    let mut edges: Vec<(usize, usize)> = graph
        .edge_indices()
        .map(|e| graph.edge_endpoints(e).unwrap())
        .map(|(a, b)| (a.index(), b.index()))
        .collect();
    edges.sort();
    edges
}

#[test]
fn hold_depends_on_moves_in_and_on_its_supports() {
    assert!(order_depends_on(&hold(1), &go(2, 1)));
    assert!(order_depends_on(&hold(1), &support(3, 1, 1)));
    assert!(!order_depends_on(&hold(1), &support(3, 2, 1)));
    assert!(!order_depends_on(&hold(1), &go(2, 3)));
    assert!(!order_depends_on(&hold(1), &hold(2)));
}

#[test]
fn support_and_convoy_depend_as_a_hold_does() {
    assert!(order_depends_on(&support(3, 2, 1), &go(4, 3)));
    assert!(order_depends_on(&support(3, 2, 1), &support(5, 3, 3)));
    assert!(order_depends_on(&convoy(3, 1, 2), &go(4, 3)));
    assert!(!order_depends_on(&convoy(3, 1, 2), &go(1, 2)));
}

#[test]
fn illegal_order_depends_on_moves_in_only() {
    let stays = Order::new(OrderType::IllegalOrder, 1, 1, 9).unwrap();
    assert!(order_depends_on(&stays, &go(2, 1)));
    assert!(!order_depends_on(&stays, &support(3, 1, 1)));
}

#[test]
fn move_depends_on_support_occupant_rival_swap_and_convoy() {
    let mover = go(1, 2);
    assert!(order_depends_on(&mover, &support(3, 1, 2)));
    assert!(!order_depends_on(&mover, &support(3, 2, 1)));
    assert!(order_depends_on(&mover, &hold(2)));
    assert!(order_depends_on(&mover, &go(2, 5)));
    assert!(order_depends_on(&mover, &go(4, 2)));
    assert!(order_depends_on(&mover, &go(2, 1)));
    assert!(order_depends_on(&mover, &convoy(6, 1, 2)));
    assert!(!order_depends_on(&mover, &convoy(6, 2, 1)));
    assert!(!order_depends_on(&mover, &hold(7)));
    assert!(!order_depends_on(&mover, &go(7, 8)));
}

#[test]
fn graph_of_a_supported_attack() {
    let orders = vec![hold(1), go(2, 1), support(3, 2, 1)];
    let (graph, nodes) = create_order_dependency_graph(&orders);
    assert_eq!(nodes, vec![0, 1, 2]);
    assert_eq!(graph.node_count(), 3);
    assert_eq!(graph.node_weight(NodeIndex::new(2)), Some(&2));
    assert_eq!(edges_of(&orders), vec![(0, 1), (1, 0), (1, 2)]);
}

#[test]
fn graph_keeps_the_cycle_of_a_swap() {
    assert_eq!(edges_of(&vec![go(1, 2), go(2, 1)]), vec![(0, 1), (1, 0)]);
}

#[test]
fn graph_keeps_the_cycle_of_a_convoy_paradox() {
    let orders = vec![go(1, 2), convoy(3, 1, 2), go(4, 3), support(2, 4, 3)];
    assert_eq!(edges_of(&orders), vec![(0, 1), (0, 3), (1, 2), (2, 1), (2, 3), (3, 0)]);
}

#[test]
fn graph_has_no_edge_from_an_order_to_itself() {
    let orders = vec![go(1, 2), go(3, 2), hold(5)];
    assert_eq!(edges_of(&orders), vec![(0, 1), (1, 0)]);
}

#[test]
fn graph_of_no_orders_is_empty() {
    let (graph, nodes) = create_order_dependency_graph(&vec![]);
    assert_eq!(graph.node_count(), 0);
    assert_eq!(graph.edge_count(), 0);
    assert!(nodes.is_empty());
}

#[test]
fn engine_gives_a_free_support_and_decides_the_contest() {
    let mut orders = vec![hold(1), go(2, 1), support(3, 2, 1)];
    let (mut graph, _) = create_order_dependency_graph(&orders);
    prune(&mut graph, &orders);
    assert_eq!(graph.edge_count(), 3);
    assert_eq!(resolve_all_non_dependant_edges(&mut graph, &mut orders), Ok(()));
    assert_eq!(graph.edge_count(), 0);
    assert_eq!(graph.node_count(), 3);
    assert_eq!(count_open(&orders), 0);
    assert_eq!(orders[1].strength(), 2);
    assert!(orders[1].has_succeeded());
    assert!(orders[0].is_dislodged());
}

#[test]
fn engine_stalls_on_a_swap_and_the_resolver_breaks_it() {
    let mut orders = vec![go(1, 2), go(2, 1), hold(3)];
    let (mut graph, _) = create_order_dependency_graph(&orders);
    prune(&mut graph, &orders);
    assert_eq!(resolve_all_non_dependant_edges(&mut graph, &mut orders), Ok(()));
    assert_eq!(count_open(&orders), 2);
    assert!(orders[2].is_resolved());
    assert_eq!(graph.edge_count(), 2);
    assert_eq!(resolve_cycles(&mut graph, &mut orders), Ok(()));
    assert_eq!(count_open(&orders), 0);
    assert_eq!(graph.edge_count(), 0);
    assert!(!orders[0].has_succeeded());
    assert!(!orders[1].has_succeeded());
    assert!(!orders[0].is_dislodged());
    assert!(!orders[1].is_dislodged());
}

#[test]
fn engine_reports_a_torn_support_and_changes_nothing() {
    let mut orders = vec![hold(1), hold(1), support(2, 1, 1)];
    let (mut graph, _) = create_order_dependency_graph(&orders);
    prune(&mut graph, &orders);
    assert_eq!(
        resolve_all_non_dependant_edges(&mut graph, &mut orders),
        Err(AdjudicationError::InvariantViolation)
    );
    assert_eq!(count_open(&orders), 3);
    assert_eq!(graph.edge_count(), 2);
}

#[test]
fn resolver_reports_what_it_does_not_recognize() {
    let mut orders = vec![go(1, 2), go(2, 3), go(3, 1), go(4, 2)];
    let (mut graph, _) = create_order_dependency_graph(&orders);
    prune(&mut graph, &orders);
    let before = graph.edge_count();
    assert_eq!(resolve_cycles(&mut graph, &mut orders), Err(AdjudicationError::UnrecognizedCycle));
    assert_eq!(count_open(&orders), 4);
    assert_eq!(graph.edge_count(), before);
}

#[test]
fn resolver_fails_the_move_and_the_convoy_of_a_paradox() {
    let mut orders = vec![go(1, 2), convoy(3, 1, 2), go(4, 3), support(2, 4, 3)];
    let (mut graph, _) = create_order_dependency_graph(&orders);
    prune(&mut graph, &orders);
    assert_eq!(resolve_cycles(&mut graph, &mut orders), Ok(()));
    assert!(orders[0].is_resolved() && !orders[0].has_succeeded());
    assert!(orders[1].is_resolved() && !orders[1].has_succeeded());
    assert!(!orders[2].is_resolved());
    assert!(!orders[3].is_resolved());
    let mut left: Vec<(usize, usize)> = graph
        .edge_indices()
        .map(|e| graph.edge_endpoints(e).unwrap())
        .map(|(a, b)| (a.index(), b.index()))
        .collect();
    left.sort();
    assert_eq!(left, vec![(2, 3)]);
}

#[test]
fn prune_drops_the_edges_of_resolved_orders() {
    let orders = vec![hold(3), go(1, 2), go(2, 1)];
    let resolved = game_pieces::adjudication::adjudicate(orders).unwrap();
    let (mut graph, _) = create_order_dependency_graph(&resolved);
    assert_eq!(graph.edge_count(), 2);
    prune(&mut graph, &resolved);
    assert_eq!(graph.edge_count(), 0);
    assert_eq!(graph.node_count(), 3);
}

fn cycle_lengths(orders: &Vec<Order>) -> Vec<usize> {
    let (graph, _) = create_order_dependency_graph(orders);
    let mut lengths: Vec<usize> = graph.cycles().iter().map(|cycle| cycle.len()).collect();
    lengths.sort();
    lengths
}

#[test]
fn graph_of_independent_orders_has_no_cycle() {
    assert_eq!(cycle_lengths(&vec![hold(1), go(2, 3), support(4, 2, 3)]), Vec::<usize>::new());
}

#[test]
fn graph_of_a_swap_has_one_cycle_of_two() {
    assert_eq!(cycle_lengths(&vec![go(1, 2), go(2, 1)]), vec![2]);
}

#[test]
fn graph_of_a_circular_movement_has_one_cycle_of_three() {
    assert_eq!(cycle_lengths(&vec![go(1, 2), go(2, 3), go(3, 1)]), vec![3]);
}

#[test]
fn graph_of_a_convoy_paradox_has_a_cycle_through_move_and_convoy() {
    let orders = vec![go(1, 2), convoy(3, 1, 2), go(4, 3), support(2, 4, 3)];
    let (graph, _) = create_order_dependency_graph(&orders);
    let through_both = graph
        .cycles()
        .iter()
        .filter(|cycle| cycle.contains(&NodeIndex::new(0)) && cycle.contains(&NodeIndex::new(1)))
        .count();
    assert_eq!(through_both, 1);
    assert_eq!(cycle_lengths(&orders), vec![2, 2, 4]);
}

#[test]
fn engine_drains_the_graph_as_it_was_built() {
    let mut orders = vec![go(1, 2), go(2, 3), hold(4), support(5, 4, 4)];
    let (mut graph, _) = create_order_dependency_graph(&orders);
    assert_eq!(graph.edge_count(), 2);
    assert_eq!(resolve_all_non_dependant_edges(&mut graph, &mut orders), Ok(()));
    assert_eq!(graph.edge_count(), 0);
    assert_eq!(count_open(&orders), 0);
    assert!(orders[0].has_succeeded());
    assert!(orders[1].has_succeeded());
    assert_eq!(orders[2].strength(), 2);
    assert_eq!(orders[3].order_type(), OrderType::Support);
}

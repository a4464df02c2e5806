use arbitrage::cycle::{cycle_rates, is_profitable, normalize};
use arbitrage::detect::{find_negative_cycle, trace, Distance};
use arbitrage::scan::position;
use arbitrage::store::{Edge, GraphStore};

fn edge(from: usize, to: usize, weight: i64) -> Edge {
    Edge { from, to, weight, rate: 0 }
}

#[test]
fn finds_the_cycle_of_a_four_node_graph() {
    let edges = vec![
        edge(0, 1, 1),
        edge(0, 2, 1),
        edge(0, 3, 1),
        edge(1, 3, 1),
        edge(2, 1, 1),
        edge(3, 2, -3),
    ];
    assert_eq!(find_negative_cycle(4, &edges, 0), Some(vec![1, 3, 2, 1]));
}

#[test]
fn finds_nothing_without_edges() {
    assert_eq!(find_negative_cycle(1, &vec![], 0), None);
    assert_eq!(find_negative_cycle(3, &vec![], 2), None);
}

#[test]
fn finds_nothing_from_a_source_that_is_no_node() {
    assert_eq!(find_negative_cycle(0, &vec![], 0), None);
    let edges = vec![edge(0, 1, -1), edge(1, 0, -1)];
    assert_eq!(find_negative_cycle(2, &edges, 2), None);
    assert_eq!(find_negative_cycle(2, &edges, usize::MAX), None);
    assert_eq!(find_negative_cycle(2, &edges, 0), Some(vec![1, 0, 1]));
}

#[test]
fn a_walk_can_run_out_of_predecessors_at_the_source() {
    let edges = vec![edge(0, 1, -1), edge(1, 0, -1)];
    assert_eq!(find_negative_cycle(2, &edges, 1), Some(vec![1, 1]));
}

#[test]
fn finds_nothing_where_every_cycle_breaks_even() {
    let edges = vec![edge(0, 1, -5), edge(1, 0, 5)];
    assert_eq!(find_negative_cycle(2, &edges, 0), None);
    assert_eq!(find_negative_cycle(2, &edges, 1), None);
}

#[test]
fn finds_nothing_where_every_cycle_costs() {
    let edges = vec![edge(0, 1, -5), edge(1, 2, 2), edge(2, 0, 4), edge(2, 1, -1)];
    assert_eq!(find_negative_cycle(3, &edges, 0), None);
}

#[test]
fn a_cycle_out_of_reach_is_not_found() {
    let edges = vec![edge(1, 2, -1), edge(2, 1, -1), edge(1, 0, 1)];
    assert_eq!(find_negative_cycle(3, &edges, 0), None);
    assert_eq!(find_negative_cycle(3, &edges, 1), Some(vec![2, 1, 2]));
}

#[test]
fn a_negative_loop_on_the_source_alone() {
    assert_eq!(find_negative_cycle(1, &vec![edge(0, 0, -1)], 0), Some(vec![0, 0]));
    assert_eq!(find_negative_cycle(1, &vec![edge(0, 0, 0)], 0), None);
    assert_eq!(find_negative_cycle(1, &vec![edge(0, 0, 1)], 0), None);
}

#[test]
fn two_node_cycle() {
    let edges = vec![edge(0, 1, 1), edge(1, 0, -2)];
    assert_eq!(find_negative_cycle(2, &edges, 0), Some(vec![1, 0, 1]));
}

#[test]
fn a_walk_that_ends_at_the_untouched_source() {
    let edges = vec![edge(2, 3, 2), edge(0, 1, 0), edge(1, 2, -1), edge(2, 1, 0), edge(0, 3, 0)];
    assert_eq!(find_negative_cycle(4, &edges, 0), Some(vec![0, 0]));
}

#[test]
fn extreme_weights_do_not_overflow() {
    let edges = vec![edge(0, 1, i64::MIN), edge(1, 2, i64::MIN), edge(2, 0, i64::MIN)];
    assert_eq!(find_negative_cycle(3, &edges, 0), Some(vec![1, 2, 0, 1]));
    let edges = vec![edge(0, 1, i64::MAX), edge(1, 2, i64::MAX), edge(2, 0, i64::MAX)];
    assert_eq!(find_negative_cycle(3, &edges, 0), None);
}

#[test]
fn distance_arithmetic() {
    assert_eq!(Distance::zero(), Distance::Reached(0));
    assert_eq!(Distance::infinite(), Distance::Unreached);
    assert_eq!(Distance::zero().add(-7), Distance::Reached(-7));
    assert_eq!(Distance::Reached(5).add(i64::MAX), Distance::Reached(5 + i64::MAX as i128));
    assert_eq!(Distance::infinite().add(3), Distance::Unreached);
}

#[test]
fn distance_order() {
    assert!(Distance::Reached(1).lt(Distance::Reached(2)));
    assert!(!Distance::Reached(2).lt(Distance::Reached(2)));
    assert!(!Distance::Reached(3).lt(Distance::Reached(2)));
    assert!(Distance::Reached(i128::MAX).lt(Distance::Unreached));
    assert!(!Distance::Unreached.lt(Distance::Reached(0)));
    assert!(!Distance::Unreached.lt(Distance::Unreached));
}

#[test]
fn position_is_the_first_index() {
    assert_eq!(position(&vec![4, 5, 6, 5], 5), 1);
    assert_eq!(position(&vec![4, 5, 6, 5], 4), 0);
    assert_eq!(position(&vec![4, 5, 6, 5], 7), 4);
    assert_eq!(position(&vec![], 7), 0);
}

#[test]
fn normalize_closes_the_path_at_the_source() {
    assert_eq!(normalize(vec![1, 2, 0, 1], 0), Some(vec![0, 1, 2, 0, 1, 0]));
    assert_eq!(normalize(vec![1, 2, 0, 1], 1), Some(vec![1, 2, 0, 1]));
    assert_eq!(normalize(vec![1, 2], 0), Some(vec![0, 1, 2, 0]));
    assert_eq!(normalize(vec![0, 1], 0), Some(vec![0, 1, 0]));
    assert_eq!(normalize(vec![1, 0], 0), Some(vec![0, 1, 0]));
    assert_eq!(normalize(vec![1], 0), Some(vec![0, 1, 0]));
    assert_eq!(normalize(vec![0, 0], 0), Some(vec![0, 0]));
}

#[test]
fn normalize_drops_what_is_too_short() {
    assert_eq!(normalize(vec![0], 0), None);
    assert_eq!(normalize(vec![], 0), None);
    assert_eq!(normalize(vec![], 3), None);
}

#[test]
fn cycle_rates_follow_the_steps() {
    let mut store = GraphStore::new();
    let a = store.id_for("A".to_string());
    let b = store.id_for("B".to_string());
    let c = store.id_for("C".to_string());
    store.upsert_edge(a, b, 0, 10);
    store.upsert_edge(b, c, 0, 20);
    store.upsert_edge(c, a, 0, 30);
    assert_eq!(cycle_rates(&store, &vec![a, b, c, a]), Some(vec![10, 20, 30]));
    assert_eq!(cycle_rates(&store, &vec![b, c, a, b, c]), Some(vec![20, 30, 10, 20]));
    assert_eq!(cycle_rates(&store, &vec![a]), Some(vec![]));
    assert_eq!(cycle_rates(&store, &vec![]), Some(vec![]));
}

#[test]
fn cycle_rates_need_every_step_to_be_an_edge() {
    let mut store = GraphStore::new();
    let a = store.id_for("A".to_string());
    let b = store.id_for("B".to_string());
    store.upsert_edge(a, b, 0, 10);
    assert_eq!(cycle_rates(&store, &vec![a, b, a]), None);
    assert_eq!(cycle_rates(&store, &vec![a, a]), None);
    assert_eq!(cycle_rates(&store, &vec![a, b, 9]), None);
}

#[test]
fn only_a_factor_above_one_is_profitable() {
    assert!(is_profitable(1.2f64.to_bits()));
    assert!(is_profitable(1.0000000000000002f64.to_bits()));
    assert!(is_profitable(f64::MAX.to_bits()));
    assert!(is_profitable(f64::INFINITY.to_bits()));
    assert!(!is_profitable(1.0f64.to_bits()));
    assert!(!is_profitable(0.9999999999999999f64.to_bits()));
    assert!(!is_profitable(0.5f64.to_bits()));
    assert!(!is_profitable(0.0f64.to_bits()));
    assert!(!is_profitable(f64::NAN.to_bits()));
    assert!(!is_profitable((-2.0f64).to_bits()));
}

#[test]
fn profitable_agrees_with_the_order_of_numbers() {
    for x in [0.0, 1e-300, 0.3, 0.99, 1.0, 1.01, 2.0, 3.5e12, 1e300, f64::INFINITY] {
        assert_eq!(is_profitable(x.to_bits()), x > 1.0);
    }
}

#[test]
fn trace_follows_predecessors_to_a_loop() {
    let pred = vec![Some(2), Some(0), Some(1), Some(0)];
    assert_eq!(trace(&pred, 3), vec![0, 1, 2, 0]);
    assert_eq!(trace(&pred, 0), vec![0, 1, 2, 0]);
    assert_eq!(trace(&pred, 1), vec![1, 2, 0, 1]);
}

#[test]
fn trace_stops_at_a_node_without_predecessor() {
    let pred = vec![None, Some(0), Some(1)];
    assert_eq!(trace(&pred, 2), vec![0, 0]);
    assert_eq!(trace(&pred, 0), vec![0, 0]);
    let pred = vec![Some(0)];
    assert_eq!(trace(&pred, 0), vec![0, 0]);
}

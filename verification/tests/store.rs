use arbitrage::store::{is_positive, Edge, GraphStore};

fn name(s: &str) -> String {
    s.to_string()
}

#[test]
fn a_new_store_is_empty() {
    let store = GraphStore::new();
    assert_eq!(store.node_count(), 0);
    assert_eq!(store.edge_count(), 0);
    assert_eq!(store.all_node_ids(), Vec::<usize>::new());
    assert_eq!(store.edge_list(), vec![]);
    assert_eq!(store.find(&name("EUR")), None);
}

#[test]
fn ids_are_handed_out_in_sequence() {
    let mut store = GraphStore::new();
    assert_eq!(store.id_for(name("EUR")), 0);
    assert_eq!(store.id_for(name("USD")), 1);
    assert_eq!(store.id_for(name("GBP")), 2);
    assert_eq!(store.node_count(), 3);
    assert_eq!(store.all_node_ids(), vec![0, 1, 2]);
}

#[test]
fn a_known_currency_keeps_its_id() {
    let mut store = GraphStore::new();
    let eur = store.id_for(name("EUR"));
    let usd = store.id_for(name("USD"));
    assert_eq!(store.id_for(name("EUR")), eur);
    assert_eq!(store.id_for(name("USD")), usd);
    assert_eq!(store.node_count(), 2);
    assert_eq!(store.find(&name("USD")), Some(1));
    assert_eq!(store.find(&name("usd")), None);
}

#[test]
fn name_of_gives_the_currency_back() {
    let mut store = GraphStore::new();
    store.id_for(name("EUR"));
    store.id_for(name("USD"));
    assert_eq!(store.name_of(0), "EUR");
    assert_eq!(store.name_of(1), "USD");
}

#[test]
fn upsert_inserts_then_overwrites() {
    let mut store = GraphStore::new();
    let a = store.id_for(name("A"));
    let b = store.id_for(name("B"));
    store.upsert_edge(a, b, -10, 7);
    assert_eq!(store.edge_list(), vec![Edge { from: a, to: b, weight: -10, rate: 7 }]);
    store.upsert_edge(b, a, 10, 8);
    store.upsert_edge(a, b, -20, 9);
    assert_eq!(
        store.edge_list(),
        vec![
            Edge { from: a, to: b, weight: -20, rate: 9 },
            Edge { from: b, to: a, weight: 10, rate: 8 },
        ]
    );
    assert_eq!(store.edge_count(), 2);
}

#[test]
fn rate_of_finds_the_edge_of_the_ordered_pair() {
    let mut store = GraphStore::new();
    let a = store.id_for(name("A"));
    let b = store.id_for(name("B"));
    let c = store.id_for(name("C"));
    store.upsert_edge(a, b, -1, 11);
    store.upsert_edge(b, a, 1, 12);
    store.upsert_edge(b, c, 5, 13);
    assert_eq!(store.rate_of(a, b), Some(11));
    assert_eq!(store.rate_of(b, a), Some(12));
    assert_eq!(store.rate_of(b, c), Some(13));
    assert_eq!(store.rate_of(c, b), None);
    assert_eq!(store.rate_of(a, c), None);
    assert_eq!(store.rate_of(a, a), None);
    assert_eq!(store.edge_between(b, c), Some(Edge { from: b, to: c, weight: 5, rate: 13 }));
}

#[test]
fn rate_of_an_unknown_node_is_none() {
    let mut store = GraphStore::new();
    let a = store.id_for(name("A"));
    store.upsert_edge(a, a, 3, 4);
    assert_eq!(store.rate_of(a, a), Some(4));
    assert_eq!(store.rate_of(a, 1), None);
    assert_eq!(store.rate_of(7, a), None);
    assert_eq!(store.rate_of(4294967296, a), None);
}

#[test]
fn fits_counts_two_nodes_and_two_edges_for_each_exchange() {
    let store = GraphStore::new();
    assert!(store.fits(0));
    assert!(store.fits(1000));
    assert!(store.fits(2147483647));
    assert!(!store.fits(2147483648));
    assert!(!store.fits(usize::MAX));
}

#[test]
fn positive_rates_by_their_bit_patterns() {
    assert!(is_positive(1.0f64.to_bits()));
    assert!(is_positive(0.3f64.to_bits()));
    assert!(is_positive(f64::MAX.to_bits()));
    assert!(is_positive(f64::MIN_POSITIVE.to_bits()));
    assert!(is_positive(5e-324f64.to_bits()));
    assert_eq!(5e-324f64.to_bits(), 1);
    assert!(!is_positive(0.0f64.to_bits()));
    assert!(!is_positive((-0.0f64).to_bits()));
    assert!(!is_positive((-1.0f64).to_bits()));
    assert!(!is_positive(f64::INFINITY.to_bits()));
    assert!(!is_positive(f64::NEG_INFINITY.to_bits()));
    assert!(!is_positive(f64::NAN.to_bits()));
    assert!(!is_positive(u64::MAX));
}

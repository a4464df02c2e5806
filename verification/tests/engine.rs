use arbitrage::cycle::{cycle_rates, is_profitable};
use arbitrage::engine::{
    apply_exchange, detect, get_neg_cycles, process_batch, update_states, Candidate,
};
use arbitrage::parse::{parse_input, rate_fields, Exchange, ParseError, Quote, Weight};
use arbitrage::report::path_to_string;
use arbitrage::store::{Edge, GraphStore};

fn weight_from(rate: f64) -> i64 {
    (-rate.log2() * 4294967296.0).round() as i64
}

fn quote_from(rate: f64) -> Quote {
    Quote {
        forward: Weight { weight: weight_from(rate), rate: rate.to_bits() },
        inverse: Weight { weight: weight_from(1.0 / rate), rate: (1.0 / rate).to_bits() },
    }
}

fn readings(data: &str) -> Vec<Option<Quote>> {
    rate_fields(data)
        .iter()
        .map(|field| field.as_ref().and_then(|text| text.parse::<f64>().ok()).map(quote_from))
        .collect()
}

fn run(store: &mut GraphStore, data: &str) -> Result<Vec<Candidate>, ParseError> {
    process_batch(store, data, &readings(data))
}

fn product(rates: &[u64]) -> f64 {
    rates.iter().fold(1.0, |product, rate| product * f64::from_bits(*rate))
}

fn nodes_of(cycle: &[usize]) -> Vec<usize> {
    let mut nodes = cycle.to_vec();
    nodes.sort();
    nodes.dedup();
    nodes
}

#[test]
fn profitable_triangle_is_reported() {
    let mut store = GraphStore::new();
    let found = run(&mut store, "A/B/2,B/C/2,C/A/0.3").unwrap();
    assert!(!found.is_empty());
    for candidate in &found {
        assert_eq!(nodes_of(&candidate.cycle), vec![0, 1, 2]);
        assert_eq!(candidate.rates.len(), candidate.cycle.len() - 1);
        assert!((product(&candidate.rates) - 1.2).abs() < 1e-9);
        assert!(is_profitable(product(&candidate.rates).to_bits()));
        assert_eq!(format!("{:.4}", product(&candidate.rates)), "1.2000");
    }
    assert_eq!(found[1].cycle, vec![1, 2, 0, 1]);
    assert_eq!(
        found[1].rates,
        vec![2.0f64.to_bits(), 0.3f64.to_bits(), 2.0f64.to_bits()]
    );
}

#[test]
fn one_loop_is_reported_once_for_each_source() {
    let mut store = GraphStore::new();
    let found = run(&mut store, "A/B/2,B/C/2,C/A/0.3").unwrap();
    assert_eq!(found.len(), 3);
    assert_eq!(found[0].cycle, vec![0, 1, 2, 0, 1, 0]);
    assert_eq!(found[1].cycle, vec![1, 2, 0, 1]);
    assert_eq!(found[2].cycle, vec![2, 1, 2, 0, 1, 2]);
    for (source, candidate) in found.iter().enumerate() {
        assert_eq!(candidate.cycle[0], source);
        assert_eq!(candidate.cycle[candidate.cycle.len() - 1], source);
    }
}

#[test]
fn break_even_pair_is_not_reported() {
    let mut store = GraphStore::new();
    assert_eq!(run(&mut store, "A/B/2"), Ok(vec![]));
    assert_eq!(run(&mut store, "B/A/0.5"), Ok(vec![]));
    assert_eq!(detect(&store, 0), None);
    assert_eq!(detect(&store, 1), None);
    let there_and_back = cycle_rates(&store, &vec![0, 1, 0]).unwrap();
    assert_eq!(product(&there_and_back), 1.0);
    assert!(!is_profitable(product(&there_and_back).to_bits()));
}

#[test]
fn break_even_pair_in_one_batch_is_a_duplicate() {
    let mut store = GraphStore::new();
    assert_eq!(run(&mut store, "A/B/2,B/A/0.5"), Err(ParseError::DuplicatePair));
    assert_eq!(store.node_count(), 0);
}

#[test]
fn duplicate_batch_leaves_the_store_unchanged() {
    let mut store = GraphStore::new();
    assert_eq!(run(&mut store, "A/B/2,B/A/3"), Err(ParseError::DuplicatePair));
    assert_eq!(store.node_count(), 0);
    assert_eq!(store.edge_count(), 0);
    assert_eq!(store.find(&"A".to_string()), None);
    assert_eq!(get_neg_cycles(&store), vec![]);

    assert_eq!(run(&mut store, "A/B/2"), Ok(vec![]));
    let before = store.edge_list();
    assert_eq!(run(&mut store, "A/C/5,C/A/7"), Err(ParseError::DuplicatePair));
    assert_eq!(store.node_count(), 2);
    assert_eq!(store.find(&"C".to_string()), None);
    assert_eq!(store.edge_list(), before);
}

#[test]
fn failing_batch_applies_no_triple() {
    let mut store = GraphStore::new();
    assert_eq!(
        run(&mut store, "X/Y/1.5,Y/Z"),
        Err(ParseError::MalformedTriple("Y/Z".to_string()))
    );
    assert_eq!(store.node_count(), 0);
    assert_eq!(
        run(&mut store, "X/Y/1.5,Y/Z/much"),
        Err(ParseError::InvalidRate("much".to_string()))
    );
    assert_eq!(store.node_count(), 0);
    assert_eq!(store.edge_count(), 0);
}

#[test]
fn an_exchange_puts_both_directions() {
    let mut store = GraphStore::new();
    assert_eq!(run(&mut store, "EUR/USD/2"), Ok(vec![]));
    assert_eq!(store.name_of(0), "EUR");
    assert_eq!(store.name_of(1), "USD");
    assert_eq!(
        store.edge_list(),
        vec![
            Edge { from: 0, to: 1, weight: -4294967296, rate: 2.0f64.to_bits() },
            Edge { from: 1, to: 0, weight: 4294967296, rate: 0.5f64.to_bits() },
        ]
    );
    let forward = store.edge_between(0, 1).unwrap();
    let inverse = store.edge_between(1, 0).unwrap();
    assert_eq!(forward.weight, -inverse.weight);
}

#[test]
fn ingesting_twice_is_ingesting_once() {
    let mut once = GraphStore::new();
    run(&mut once, "A/B/2,B/C/1.5").unwrap();
    let mut twice = GraphStore::new();
    run(&mut twice, "A/B/2,B/C/1.5").unwrap();
    run(&mut twice, "A/B/2,B/C/1.5").unwrap();
    assert_eq!(twice.node_count(), once.node_count());
    assert_eq!(twice.edge_list(), once.edge_list());
    assert_eq!(twice.edge_count(), 4);
}

#[test]
fn the_latest_rate_wins() {
    let mut store = GraphStore::new();
    run(&mut store, "A/B/2").unwrap();
    run(&mut store, "A/B/4").unwrap();
    assert_eq!(store.edge_count(), 2);
    assert_eq!(store.rate_of(0, 1), Some(4.0f64.to_bits()));
    assert_eq!(store.rate_of(1, 0), Some(0.25f64.to_bits()));
    run(&mut store, "B/A/0.5").unwrap();
    assert_eq!(store.edge_count(), 2);
    assert_eq!(store.rate_of(0, 1), Some(2.0f64.to_bits()));
    assert_eq!(store.rate_of(1, 0), Some(0.5f64.to_bits()));
}

#[test]
fn update_states_takes_exchanges_in_order() {
    let mut store = GraphStore::new();
    let data = "C/A/3,A/B/2";
    let batch = parse_input(data, &readings(data)).unwrap();
    update_states(&mut store, &batch);
    assert_eq!(store.name_of(0), "C");
    assert_eq!(store.name_of(1), "A");
    assert_eq!(store.name_of(2), "B");
    assert_eq!(store.edge_count(), 4);
    assert_eq!(store.rate_of(1, 2), Some(2.0f64.to_bits()));
}

#[test]
fn apply_exchange_of_one_currency_keeps_the_inverse() {
    let mut store = GraphStore::new();
    let x = Exchange { from: "A".to_string(), to: "A".to_string(), quote: quote_from(0.5) };
    apply_exchange(&mut store, &x);
    assert_eq!(store.node_count(), 1);
    assert_eq!(
        store.edge_list(),
        vec![Edge { from: 0, to: 0, weight: -4294967296, rate: 2.0f64.to_bits() }]
    );
    let found = get_neg_cycles(&store);
    assert_eq!(found, vec![Candidate { cycle: vec![0, 0], rates: vec![2.0f64.to_bits()] }]);
}

#[test]
fn sweep_of_an_empty_store_finds_nothing() {
    let store = GraphStore::new();
    assert_eq!(get_neg_cycles(&store), vec![]);
    assert_eq!(detect(&store, 0), None);
}

#[test]
fn detect_from_an_unknown_node_finds_nothing() {
    let mut store = GraphStore::new();
    run(&mut store, "A/B/2,B/C/2,C/A/0.3").unwrap();
    assert_eq!(detect(&store, 3), None);
    assert_eq!(detect(&store, 1), Some(vec![1, 2, 0, 1]));
}

#[test]
fn unprofitable_triangle_is_not_reported() {
    let mut store = GraphStore::new();
    assert_eq!(run(&mut store, "A/B/2,B/C/2,C/A/0.25"), Ok(vec![]));
}

#[test]
fn a_loop_that_the_source_does_not_touch_is_left_out() {
    let mut store = GraphStore::new();
    let found = run(&mut store, "S/X/1,X/B/1,B/C/2,C/D/2,D/B/0.3").unwrap();
    assert_eq!(detect(&store, 0), Some(vec![2, 3, 4, 2]));
    assert_eq!(cycle_rates(&store, &vec![0, 2, 3, 4, 2, 0]), None);
    let sources: Vec<usize> = found.iter().map(|candidate| candidate.cycle[0]).collect();
    assert_eq!(sources, vec![1, 2, 3, 4]);
    assert_eq!(found[0].cycle, vec![1, 2, 3, 4, 2, 1]);
    assert_eq!(found[1].cycle, vec![2, 3, 4, 2]);
    for candidate in &found {
        assert!((product(&candidate.rates) - 1.2).abs() < 1e-9);
    }
}

#[test]
fn a_market_batch_reports_its_loop_from_every_currency() {
    let mut store = GraphStore::new();
    let data = "EUR/CAD/1.366,EUR/CHF/1.433,EUR/GBP/0.88,EUR/USD/1.349,USD/GBP/0.657,\
                USD/CHF/1.061,USD/CAD/1.005,CAD/GBP/0.650,CAD/CHF/1.049,CHF/GBP/0.619";
    let found = run(&mut store, data).unwrap();
    assert_eq!(store.node_count(), 5);
    assert_eq!(store.edge_count(), 20);
    assert_eq!(found.len(), 5);
    assert_eq!(found[0].cycle, vec![0, 1, 4, 3, 2, 1, 0]);
    assert_eq!(found[1].cycle, vec![1, 4, 3, 2, 1]);
    assert_eq!(path_to_string(&found[1].cycle, &store), "CAD=>USD=>GBP=>CHF=>CAD");
    for candidate in &found {
        let conversion = product(&candidate.rates);
        assert!((conversion - 1.006776733720679).abs() < 1e-12);
        assert!(is_profitable(conversion.to_bits()));
        assert_eq!(format!("{:.4}", conversion), "1.0068");
    }
}

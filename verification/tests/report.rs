use arbitrage::parse::ParseError;
use arbitrage::report::{cycle_line, mkerror, path_to_string};
use arbitrage::store::GraphStore;

fn currencies() -> GraphStore {
    let mut store = GraphStore::new();
    store.id_for("EUR".to_string());
    store.id_for("USD".to_string());
    store.id_for("GBP".to_string());
    store
}

#[test]
fn path_is_joined_by_arrows() {
    let store = currencies();
    assert_eq!(path_to_string(&vec![0, 1, 2, 0], &store), "EUR=>USD=>GBP=>EUR");
}

#[test]
fn path_of_one_node_has_no_arrow() {
    let store = currencies();
    assert_eq!(path_to_string(&vec![2], &store), "GBP");
    assert_eq!(path_to_string(&vec![], &store), "");
}

#[test]
fn reasons_in_words() {
    assert_eq!(ParseError::MalformedTriple("A/B".to_string()).message(), "bad format 'A/B'");
    assert_eq!(ParseError::InvalidRate("x".to_string()).message(), "'x' not a float");
    assert_eq!(ParseError::DuplicatePair.message(), "duplicate entries");
}

#[test]
fn error_line_has_the_prefix() {
    assert_eq!(mkerror("duplicate entries".to_string()), "ERROR duplicate entries");
    assert_eq!(
        mkerror(ParseError::InvalidRate("1,5".to_string()).message()),
        "ERROR '1,5' not a float"
    );
    assert_eq!(mkerror(String::new()), "ERROR ");
}

#[test]
fn cycle_line_has_marker_path_and_factor() {
    let store = currencies();
    assert_eq!(
        cycle_line(&vec![0, 1, 2, 0], &store, "1.0032"),
        "CYCLE EUR=>USD=>GBP=>EUR 1.0032"
    );
    assert_eq!(
        cycle_line(&vec![1, 1], &store, &format!("{:.4}", 2.0)),
        "CYCLE USD=>USD 2.0000"
    );
}

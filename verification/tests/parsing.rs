use arbitrage::parse::{
    has_duplicates, parse_input, rate_fields, Exchange, ParseError, Quote, Weight,
};
use arbitrage::text::split_fields;

fn weight_for(rate: f64) -> i64 {
    (-rate.log2() * 4294967296.0).round() as i64
}

fn quote(rate: f64) -> Quote {
    Quote {
        forward: Weight { weight: weight_for(rate), rate: rate.to_bits() },
        inverse: Weight { weight: weight_for(1.0 / rate), rate: (1.0 / rate).to_bits() },
    }
}

fn read(data: &str) -> Vec<Option<Quote>> {
    rate_fields(data)
        .iter()
        .map(|field| field.as_ref().and_then(|text| text.parse::<f64>().ok()).map(quote))
        .collect()
}

fn exchange(from: &str, to: &str, rate: f64) -> Exchange {
    Exchange { from: from.to_string(), to: to.to_string(), quote: quote(rate) }
}

#[test]
fn split_cuts_at_every_separator() {
    assert_eq!(split_fields("A/B/2.0", '/'), vec!["A", "B", "2.0"]);
    assert_eq!(split_fields("A/B/2,B/C/3", ','), vec!["A/B/2", "B/C/3"]);
}

#[test]
fn split_keeps_empty_fields() {
    assert_eq!(split_fields("", ','), vec![""]);
    assert_eq!(split_fields(",", ','), vec!["", ""]);
    assert_eq!(split_fields("a,,b", ','), vec!["a", "", "b"]);
    assert_eq!(split_fields("a,", ','), vec!["a", ""]);
    assert_eq!(split_fields(",a", ','), vec!["", "a"]);
}

#[test]
fn split_without_separator_is_one_field() {
    assert_eq!(split_fields("EURUSD", '/'), vec!["EURUSD"]);
}

#[test]
fn split_counts_characters_not_bytes() {
    assert_eq!(split_fields("zł/€/1", '/'), vec!["zł", "€", "1"]);
}

#[test]
fn rate_fields_names_the_third_field() {
    assert_eq!(
        rate_fields("A/B/2.0,C/D,E/F/x,G/H/1/2"),
        vec![Some("2.0".to_string()), None, Some("x".to_string()), None]
    );
}

#[test]
fn rate_fields_of_an_empty_line() {
    assert_eq!(rate_fields(""), vec![None]);
}

#[test]
fn parses_a_triple() {
    let got = parse_input("A/B/2.0", &read("A/B/2.0"));
    assert_eq!(got, Ok(vec![exchange("A", "B", 2.0)]));
    let list = got.unwrap();
    assert_eq!(f64::from_bits(list[0].quote.forward.rate), 2.0);
    assert_eq!(f64::from_bits(list[0].quote.inverse.rate), 0.5);
}

#[test]
fn rejects_a_rate_that_is_no_number() {
    let got = parse_input("A/B/x", &read("A/B/x"));
    assert_eq!(got, Err(ParseError::InvalidRate("x".to_string())));
}

#[test]
fn rejects_a_rate_that_is_not_positive() {
    for field in ["0", "-0", "-2", "inf", "-inf", "NaN", "1e400", "1e-320"] {
        let data = format!("A/B/{}", field);
        assert_eq!(
            parse_input(&data, &read(&data)),
            Err(ParseError::InvalidRate(field.to_string()))
        );
    }
}

#[test]
fn accepts_the_smallest_and_largest_rates_with_an_inverse() {
    for field in ["1e-300", "1e300", "0.000001", "4e9"] {
        let data = format!("A/B/{}", field);
        assert!(parse_input(&data, &read(&data)).is_ok());
    }
}

#[test]
fn quote_is_valid_where_both_rates_are_positive() {
    assert!(quote(2.0).is_valid());
    assert!(quote(0.3).is_valid());
    assert!(!quote(0.0).is_valid());
    assert!(!quote(-1.0).is_valid());
    assert!(!quote(f64::INFINITY).is_valid());
    assert!(!quote(f64::NAN).is_valid());
    let forward = Weight { weight: 0, rate: 1.0f64.to_bits() };
    let inverse = Weight { weight: 0, rate: 0 };
    assert!(!Quote { forward, inverse }.is_valid());
}

#[test]
fn rejects_a_triple_of_two_fields() {
    let got = parse_input("A/B", &read("A/B"));
    assert_eq!(got, Err(ParseError::MalformedTriple("A/B".to_string())));
}

#[test]
fn rejects_a_triple_of_four_fields() {
    let got = parse_input("A/B/1/2", &read("A/B/1/2"));
    assert_eq!(got, Err(ParseError::MalformedTriple("A/B/1/2".to_string())));
}

#[test]
fn rejects_an_empty_line() {
    let got = parse_input("", &read(""));
    assert_eq!(got, Err(ParseError::MalformedTriple("".to_string())));
}

#[test]
fn rejects_the_same_pair_reversed() {
    let data = "A/B/2,B/A/3";
    assert_eq!(parse_input(data, &read(data)), Err(ParseError::DuplicatePair));
}

#[test]
fn rejects_the_same_pair_twice() {
    let data = "A/B/2,C/D/1,A/B/3";
    assert_eq!(parse_input(data, &read(data)), Err(ParseError::DuplicatePair));
}

#[test]
fn the_first_failing_triple_decides() {
    let data = "A/B/x,C/D";
    assert_eq!(parse_input(data, &read(data)), Err(ParseError::InvalidRate("x".to_string())));
    let data = "A/B,C/D/x";
    assert_eq!(parse_input(data, &read(data)), Err(ParseError::MalformedTriple("A/B".to_string())));
}

#[test]
fn a_failing_triple_comes_before_a_duplicate() {
    let data = "A/B/2,B/A/3,C/D";
    assert_eq!(parse_input(data, &read(data)), Err(ParseError::MalformedTriple("C/D".to_string())));
}

#[test]
fn a_triple_without_a_reading_counts_as_unread() {
    let got = parse_input("A/B/2,C/D/3", &vec![Some(quote(2.0))]);
    assert_eq!(got, Err(ParseError::InvalidRate("3".to_string())));
}

#[test]
fn parses_a_batch_in_order() {
    let data = "EUR/USD/1.349,USD/GBP/0.657,EUR/GBP/0.88";
    let got = parse_input(data, &read(data));
    assert_eq!(
        got,
        Ok(vec![
            exchange("EUR", "USD", 1.349),
            exchange("USD", "GBP", 0.657),
            exchange("EUR", "GBP", 0.88),
        ])
    );
}

#[test]
fn a_pair_of_one_currency_is_no_duplicate_of_itself() {
    let data = "A/A/2";
    assert_eq!(parse_input(data, &read(data)), Ok(vec![exchange("A", "A", 2.0)]));
}

#[test]
fn has_duplicates_looks_at_both_orders() {
    assert!(!has_duplicates(&vec![]));
    assert!(!has_duplicates(&vec![exchange("A", "B", 1.0), exchange("B", "C", 1.0)]));
    assert!(has_duplicates(&vec![exchange("A", "B", 1.0), exchange("A", "B", 2.0)]));
    assert!(has_duplicates(&vec![
        exchange("A", "B", 1.0),
        exchange("C", "D", 1.0),
        exchange("B", "A", 2.0)
    ]));
}

#[test]
fn inverse_weight_mirrors_forward_weight() {
    for rate in [2.0, 0.5, 1.349, 0.657, 0.3, 1.0, 1234.5] {
        let q = quote(rate);
        assert!((q.forward.weight + q.inverse.weight).abs() <= 1);
    }
    assert_eq!(quote(2.0).forward.weight, -4294967296);
    assert_eq!(quote(2.0).inverse.weight, 4294967296);
}

use best_rates::domain::{ExchangeCurrencyPair, ExchangeRateRequest, Factor, Node, OptimalRateWithPath};
use best_rates::error::GraphError;
use best_rates::graph::Graph;
use best_rates::rat::Rat;
use best_rates::utility::validate_price_update_input;
use std::collections::VecDeque;

fn kraken_price() -> [&'static str; 6] {
    ["2017-11-01T09:42:23+00:00 ", "KRAKEN", "BtC", "UsD", "1000.0 ", "0.0009 "]
}

fn kraken_price_with_latest_date() -> [&'static str; 6] {
    ["2018-11-01T09:42:23+00:00 ", "KRAKEN", "BtC", "UsD", "1018.0 ", "0.0001 "]
}

fn gdax_price() -> [&'static str; 6] {
    [" 2017-11-01T09:42:23+00:00 ", " GDAX", " BtC", " UsD", " 1001.0 ", " 0.0008 "]
}

fn bittrex_price() -> [&'static str; 6] {
    [" 2017-11-01T09:42:23+00:00 ", " BITTREX", " BtC", " UsD", " 1002.0 ", " 0.0009 "]
}

fn node_index(nodes: &[Node], ex: &str, cur: &str) -> Option<usize> {
    nodes.iter().position(|n| n.exchange == ex && n.currency == cur)
}

#[test]
fn with_correct_two_exchange_data() {
    let mut g = Graph::new();
    let kraken = validate_price_update_input(&kraken_price(), &g);
    g.update(&kraken.unwrap());
    let gdax = validate_price_update_input(&gdax_price(), &g);
    g.update(&gdax.unwrap());
    let rate_req = ExchangeRateRequest::new(
        "KRAKEN".to_owned(),
        "BTC".to_owned(),
        "GDAX".to_owned(),
        "USD".to_owned(),
    );

    let result = g.get_top_result(&rate_req);

    let expected = OptimalRateWithPath {
        rate: Rat::new(1001, 1),
        paths: {
            let mut vd = VecDeque::new();
            vd.push_back(ExchangeCurrencyPair::new("KRAKEN".to_owned(), "BTC".to_owned()));
            vd.push_back(ExchangeCurrencyPair::new("GDAX".to_owned(), "BTC".to_owned()));
            vd.push_back(ExchangeCurrencyPair::new("GDAX".to_owned(), "USD".to_owned()));
            vd
        },
    };

    assert_eq!(expected, result.unwrap());
}

#[test]
fn with_correct_three_exchange_data() {
    let mut g = Graph::new();
    let kraken = validate_price_update_input(&kraken_price(), &g);
    g.update(&kraken.unwrap());
    let gdax = validate_price_update_input(&gdax_price(), &g);
    g.update(&gdax.unwrap());
    let bittrex = validate_price_update_input(&bittrex_price(), &g);
    g.update(&bittrex.unwrap());
    let rate_req = ExchangeRateRequest::new(
        "KRAKEN".to_owned(),
        "BTC".to_owned(),
        "GDAX".to_owned(),
        "USD".to_owned(),
    );

    let result = g.get_top_result(&rate_req);

    let expected = OptimalRateWithPath {
        rate: Rat::new(1002, 1),
        paths: {
            let mut vd = VecDeque::new();
            vd.push_back(ExchangeCurrencyPair::new("KRAKEN".to_owned(), "BTC".to_owned()));
            vd.push_back(ExchangeCurrencyPair::new("BITTREX".to_owned(), "BTC".to_owned()));
            vd.push_back(ExchangeCurrencyPair::new("BITTREX".to_owned(), "USD".to_owned()));
            vd.push_back(ExchangeCurrencyPair::new("GDAX".to_owned(), "USD".to_owned()));
            vd
        },
    };

    assert_eq!(expected, result.unwrap());
}

#[test]
fn with_same_exchange_but_updated_data() {
    let mut g = Graph::new();
    let kraken = validate_price_update_input(&kraken_price(), &g);
    g.update(&kraken.unwrap());
    let kraken_update = validate_price_update_input(&kraken_price_with_latest_date(), &g);
    g.update(&kraken_update.unwrap());
    let gdax = validate_price_update_input(&gdax_price(), &g);
    g.update(&gdax.unwrap());
    let rate_req = ExchangeRateRequest::new(
        "KRAKEN".to_owned(),
        "BTC".to_owned(),
        "GDAX".to_owned(),
        "USD".to_owned(),
    );

    let result = g.get_top_result(&rate_req);

    let expected = OptimalRateWithPath {
        rate: Rat::new(1018, 1),
        paths: {
            let mut vd = VecDeque::new();
            vd.push_back(ExchangeCurrencyPair::new("KRAKEN".to_owned(), "BTC".to_owned()));
            vd.push_back(ExchangeCurrencyPair::new("KRAKEN".to_owned(), "USD".to_owned()));
            vd.push_back(ExchangeCurrencyPair::new("GDAX".to_owned(), "USD".to_owned()));
            vd
        },
    };

    assert_eq!(expected, result.unwrap());
}

#[test]
fn should_throw_path_not_found_error() {
    let mut g = Graph::new();
    let kraken = validate_price_update_input(&kraken_price(), &g);
    let rate_req = ExchangeRateRequest::new(
        "KRAKEN".to_owned(),
        "BTC".to_owned(),
        "GDAX".to_owned(),
        "USD".to_owned(),
    );
    g.update(&kraken.unwrap());
    let result = g.get_top_result(&rate_req);
    assert_eq!(result.unwrap_err(), GraphError::PathNotFound);
}

#[test]
fn should_throw_invalid_path_error() {
    let mut g = Graph::new();
    let kraken = validate_price_update_input(&kraken_price(), &g);
    g.update(&kraken.unwrap());
    let gdax = validate_price_update_input(&gdax_price(), &g);
    g.update(&gdax.unwrap());
    let rate_req = ExchangeRateRequest::new(
        "KRAKEN".to_owned(),
        "BTC".to_owned(),
        "KRAKEN".to_owned(),
        "BTC".to_owned(),
    );
    let result = g.get_top_result(&rate_req);
    assert_eq!(result.unwrap_err(), GraphError::InvalidPath);
}

#[test]
fn bridging_edges_exist_between_exchanges() {
    let mut g = Graph::new();
    let kraken = validate_price_update_input(&kraken_price(), &g);
    g.update(&kraken.unwrap());
    let gdax = validate_price_update_input(&gdax_price(), &g);
    g.update(&gdax.unwrap());

    let nodes = g.get_nodes();
    let paths = g.get_paths();
    let k_btc = node_index(&nodes, "KRAKEN", "BTC").unwrap();
    let g_btc = node_index(&nodes, "GDAX", "BTC").unwrap();
    let k_usd = node_index(&nodes, "KRAKEN", "USD").unwrap();
    let g_usd = node_index(&nodes, "GDAX", "USD").unwrap();

    for (a, b) in [(k_btc, g_btc), (g_btc, k_btc), (k_usd, g_usd), (g_usd, k_usd)] {
        let bridge = paths
            .iter()
            .find(|p| p.start == a && p.end == b)
            .expect("bridging edge missing");
        assert_eq!(bridge.weight, Rat::new(1, 1));
        assert!(matches!(
            bridge.factor_type,
            Factor::FilledUpForward | Factor::FilledUpBackward
        ));
    }
}

#[test]
fn nodes_unique_and_edge_endpoints_present() {
    let mut g = Graph::new();
    for price in [kraken_price(), gdax_price(), bittrex_price(), kraken_price_with_latest_date()] {
        let req = validate_price_update_input(&price, &g);
        g.update(&req.unwrap());
    }
    let nodes = g.get_nodes();
    for i in 0..nodes.len() {
        for j in (i + 1)..nodes.len() {
            assert!(
                nodes[i].exchange != nodes[j].exchange || nodes[i].currency != nodes[j].currency
            );
        }
    }
    for p in g.get_paths() {
        assert!(p.start < nodes.len());
        assert!(p.end < nodes.len());
    }
}

#[test]
fn stale_update_leaves_edges_unchanged() {
    let mut g = Graph::new();
    let newer = validate_price_update_input(&kraken_price_with_latest_date(), &g);
    g.update(&newer.unwrap());
    let before = g.get_paths();
    let older = validate_price_update_input(&kraken_price(), &g);
    g.update(&older.unwrap());
    assert_eq!(before, g.get_paths());
}

#[test]
fn repeated_update_leaves_edges_unchanged() {
    let mut g = Graph::new();
    let first = validate_price_update_input(&kraken_price(), &g);
    g.update(&first.unwrap());
    let before = g.get_paths();
    let again = validate_price_update_input(&kraken_price(), &g);
    g.update(&again.unwrap());
    assert_eq!(before, g.get_paths());
}

#[test]
fn forward_backward_weights_partitioned() {
    let mut g = Graph::new();
    let kraken = validate_price_update_input(&kraken_price(), &g);
    g.update(&kraken.unwrap());
    let gdax = validate_price_update_input(&gdax_price(), &g);
    g.update(&gdax.unwrap());
    let (fwd, bwd) = g.get_forward_backward_factor_of_existing_paths();
    assert_eq!(fwd, vec![Rat::new(1000, 1), Rat::new(1001, 1)]);
    assert_eq!(bwd, vec![Rat::new(9, 10000), Rat::new(1, 1250)]);
}

#[test]
fn clear_empties_the_store() {
    let mut g = Graph::new();
    let kraken = validate_price_update_input(&kraken_price(), &g);
    g.update(&kraken.unwrap());
    g.clear();
    assert!(g.get_nodes().is_empty());
    assert!(g.get_paths().is_empty());
    let rate_req = ExchangeRateRequest::new(
        "KRAKEN".to_owned(),
        "BTC".to_owned(),
        "KRAKEN".to_owned(),
        "USD".to_owned(),
    );
    assert_eq!(g.get_top_result(&rate_req).unwrap_err(), GraphError::PathNotFound);
}

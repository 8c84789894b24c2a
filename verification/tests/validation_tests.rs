use best_rates::domain::PriceUpdateRequest;
use best_rates::error::{ExchangeRateRequestValidationError, PriceUpdateRequestValidationError};
use best_rates::graph::Graph;
use best_rates::rat::Rat;
use best_rates::timestamp::Timestamp;
use best_rates::utility::{validate_exchange_rate_input, validate_price_update_input};

#[test]
fn validate_priceupdaterequest_with_valid_data() {
    let g = Graph::new();
    let req = [
        " 2017-11-01T09:42:23+00:00 ",
        " KrAKEN",
        " BtC",
        " UsD",
        " 1000.0 ",
        " 0.0009 ",
    ];
    let result = validate_price_update_input(&req, &g);

    let dt = chrono::DateTime::parse_from_rfc3339(req[0].trim()).unwrap();
    let ts = Timestamp::new(dt.timestamp(), dt.timestamp_subsec_nanos());
    let expected = PriceUpdateRequest::new(
        ts,
        req[1].trim().to_uppercase(),
        req[2].trim().to_uppercase(),
        req[3].trim().to_uppercase(),
        Rat::new(1000, 1),
        Rat::new(9, 10000),
    );
    assert_eq!(expected, result.unwrap());
}

#[test]
fn should_throw_invalid_argument_number_error() {
    let g = Graph::new();
    let req = [
        " 2017-11-01T09:42:23+00:00 ",
        " KrAKEN",
        " UsD",
        " 1000.0 ",
        " 0.0009 ",
    ];
    assert_eq!(
        validate_price_update_input(&req, &g).unwrap_err(),
        PriceUpdateRequestValidationError::InvalidArgumentNumber
    );
}

#[test]
fn should_throw_same_source_destination_currency_error() {
    let g = Graph::new();
    let req = [
        " 2017-11-01T09:42:23+00:00 ",
        " KrAKEN",
        " BtC",
        " BTC",
        " 1000.0 ",
        " 0.0009 ",
    ];
    assert_eq!(
        validate_price_update_input(&req, &g).unwrap_err(),
        PriceUpdateRequestValidationError::SameSourceDestinationCurrency
    );
}

#[test]
fn should_throw_invalid_timestamp_error() {
    let g = Graph::new();
    let req = [
        " 2017-11-01T09: ssabc42:23+00:00 ",
        " KrAKEN",
        " BtC",
        " Usd",
        " 1000.0 ",
        " 0.0009 ",
    ];
    assert_eq!(
        validate_price_update_input(&req, &g).unwrap_err(),
        PriceUpdateRequestValidationError::InvalidTimestamp
    );
}

#[test]
fn should_throw_invalid_forward_factor_error() {
    let g = Graph::new();
    let req = [
        " 2017-11-01T09:42:23+00:00 ",
        " KrAKEN",
        " BtC",
        " Usd",
        " 1abc00 ",
        " 0.0009 ",
    ];
    assert_eq!(
        validate_price_update_input(&req, &g).unwrap_err(),
        PriceUpdateRequestValidationError::InvalidForwardfactor
    );
}

#[test]
fn should_throw_invalid_backward_factor_error() {
    let g = Graph::new();
    let req = [
        " 2017-11-01T09:42:23+00:00 ",
        " KrAKEN",
        " BtC",
        " Usd",
        " 1000 ",
        " 0.xx0009 ",
    ];
    assert_eq!(
        validate_price_update_input(&req, &g).unwrap_err(),
        PriceUpdateRequestValidationError::InvalidBackwardfactor
    );
}

#[test]
fn should_throw_forward_backward_factor_multiply_error() {
    let g = Graph::new();
    let req = [
        " 2017-11-01T09:42:23+00:00 ",
        " KrAKEN",
        " BtC",
        " Usd",
        " 1000 ",
        " 1.1 ",
    ];
    assert_eq!(
        validate_price_update_input(&req, &g).unwrap_err(),
        PriceUpdateRequestValidationError::ForwardBackwardFactorMultiplyError
    );
}

#[test]
fn should_throw_cross_forward_backward_factor_multiply_error() {
    let mut g = Graph::new();
    let first = [
        "2017-11-01T09:42:23+00:00",
        "KRAKEN",
        "BTC",
        "USD",
        "1000.0",
        "0.0009",
    ];
    g.update(&validate_price_update_input(&first, &g).unwrap());
    // 0.0009 (an existing backward weight) times 2000 exceeds one
    let second = [
        "2017-11-01T09:42:24+00:00",
        "KRAKEN",
        "ETH",
        "USD",
        "2000",
        "0.0001",
    ];
    assert_eq!(
        validate_price_update_input(&second, &g).unwrap_err(),
        PriceUpdateRequestValidationError::CrossForwardBackwardFactorMultiplyError
    );
}

#[test]
fn nonpositive_forward_factor_is_rejected() {
    let g = Graph::new();
    let req = [
        "2017-11-01T09:42:23+00:00",
        "KRAKEN",
        "BTC",
        "USD",
        "0",
        "0.0009",
    ];
    assert_eq!(
        validate_price_update_input(&req, &g).unwrap_err(),
        PriceUpdateRequestValidationError::InvalidForwardfactor
    );
    let neg = [
        "2017-11-01T09:42:23+00:00",
        "KRAKEN",
        "BTC",
        "USD",
        "-5",
        "0.0009",
    ];
    assert_eq!(
        validate_price_update_input(&neg, &g).unwrap_err(),
        PriceUpdateRequestValidationError::InvalidForwardfactor
    );
}

#[test]
fn validate_exchange_rate_request_normalizes_fields() {
    let args = [" kraken ", " btc", "GDAX ", "usd"];
    let req = validate_exchange_rate_input(&args).unwrap();
    assert_eq!(req.source_exchange, "KRAKEN");
    assert_eq!(req.source_currency, "BTC");
    assert_eq!(req.destination_exchange, "GDAX");
    assert_eq!(req.destination_currency, "USD");
}

#[test]
fn validate_exchange_rate_request_rejects_wrong_arity() {
    let args = ["KRAKEN", "BTC", "GDAX"];
    assert_eq!(
        validate_exchange_rate_input(&args).unwrap_err(),
        ExchangeRateRequestValidationError::InvalidArgumentNumber
    );
}

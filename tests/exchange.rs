use chainswap::chain::ChainId;
use chainswap::exchange::{
    amount_parts, estimate_status, parse_amount, quote_from_fields, swap_from_field, swap_status,
    ExchangeError,
};

fn s(t: &str) -> Option<String> {
    Some(t.to_string())
}

#[test]
fn parse_amount_values() {
    assert_eq!(parse_amount("0.001"), Some(1_000_000_000));
    assert_eq!(parse_amount("0.095"), Some(95_000_000_000));
    assert_eq!(parse_amount("12"), Some(12_000_000_000_000));
    assert_eq!(parse_amount("1.000000000001"), Some(1_000_000_000_001));
    assert_eq!(parse_amount("18446744.073709551615"), Some(u64::MAX));
}

#[test]
fn parse_amount_rejects() {
    assert_eq!(parse_amount(""), None);
    assert_eq!(parse_amount("."), None);
    assert_eq!(parse_amount("1."), None);
    assert_eq!(parse_amount(".5"), None);
    assert_eq!(parse_amount("1.2.3"), None);
    assert_eq!(parse_amount("-1"), None);
    assert_eq!(parse_amount("1e-3"), None);
    assert_eq!(parse_amount("0.0000000000001"), None);
    assert_eq!(parse_amount("18446744.073709551616"), None);
    assert_eq!(parse_amount("99999999999999999999999"), None);
}

#[test]
fn status_classes() {
    assert_eq!(estimate_status(200), None);
    assert_eq!(estimate_status(503), Some(ExchangeError::ServiceUnavailable));
    assert_eq!(estimate_status(404), Some(ExchangeError::InvalidPair));
    assert_eq!(estimate_status(302), Some(ExchangeError::MalformedResponse));
    assert_eq!(swap_status(201), None);
    assert_eq!(swap_status(500), Some(ExchangeError::ServiceUnavailable));
    assert_eq!(swap_status(422), Some(ExchangeError::RejectedOrder));
    assert_eq!(swap_status(404), Some(ExchangeError::InvalidPair));
    assert_eq!(swap_status(100), Some(ExchangeError::MalformedResponse));
}

#[test]
fn quote_from_complete_fields() {
    let q = quote_from_fields(ChainId::Btc, ChainId::Xmr, 1_000_000_000, s("0.001"), s("0.095"), s("Dxyz")).unwrap();
    assert_eq!(q.from_amount, 1_000_000_000);
    assert_eq!(q.estimated_amount, 95_000_000_000);
    assert_eq!(q.deposit_address, "Dxyz");
    assert_eq!(q.from, ChainId::Btc);
    assert_eq!(q.to, ChainId::Xmr);
}

#[test]
fn quote_missing_estimate_is_malformed() {
    let r = quote_from_fields(ChainId::Btc, ChainId::Xmr, 1_000_000_000, s("0.001"), None, s("Dxyz"));
    assert_eq!(r.err(), Some(ExchangeError::MalformedResponse));
    let r = quote_from_fields(ChainId::Btc, ChainId::Xmr, 1_000_000_000, s("0.002"), s("1"), s("Dxyz"));
    assert_eq!(r.err(), Some(ExchangeError::MalformedResponse));
    let r = quote_from_fields(ChainId::Btc, ChainId::Xmr, 1_000_000_000, s("0.001"), s("1"), s(""));
    assert_eq!(r.err(), Some(ExchangeError::MalformedResponse));
}

#[test]
fn swap_id_must_be_present() {
    assert_eq!(swap_from_field(s("swap123")).unwrap().swap_id, "swap123");
    assert_eq!(swap_from_field(s("")).err(), Some(ExchangeError::MalformedResponse));
    assert_eq!(swap_from_field(None).err(), Some(ExchangeError::MalformedResponse));
}

#[test]
fn amount_parts_split() {
    assert_eq!(amount_parts(1_000_000_000), (0, 1_000_000_000));
    assert_eq!(amount_parts(2_500_000_000_000), (2, 500_000_000_000));
}

use rolling_log::error::RollingError;
use rolling_log::size::parse_bytes;

fn is_parse_error(r: Result<usize, RollingError>) -> bool {
    matches!(r, Err(RollingError::ParseError))
}

#[test]
fn parse_test() {
    assert_eq!(parse_bytes("5M").unwrap(), 1024 * 1024 * 5);
    assert_eq!(parse_bytes("4M").unwrap(), 1024 * 1024 * 4);
}

#[test]
fn parse_bare_integers() {
    assert_eq!(parse_bytes("1024").unwrap(), 1024);
    assert_eq!(parse_bytes("0").unwrap(), 0);
    assert_eq!(parse_bytes("007").unwrap(), 7);
}

#[test]
fn parse_units_in_either_case() {
    assert_eq!(parse_bytes("3k").unwrap(), 3 * 1024);
    assert_eq!(parse_bytes("3K").unwrap(), 3 * 1024);
    assert_eq!(parse_bytes("25m").unwrap(), 25 * 1024 * 1024);
    assert_eq!(parse_bytes("2g").unwrap(), 2 * 1024 * 1024 * 1024);
    assert_eq!(parse_bytes("2G").unwrap(), 2 * 1024 * 1024 * 1024);
}

#[test]
fn parse_fractions_round_down() {
    assert_eq!(parse_bytes("1.5k").unwrap(), 1536);
    assert_eq!(parse_bytes(".5k").unwrap(), 512);
    assert_eq!(parse_bytes("5.").unwrap(), 5);
    assert_eq!(parse_bytes("0.5").unwrap(), 0);
    assert_eq!(parse_bytes("2.7").unwrap(), 2);
    assert_eq!(parse_bytes("0.001k").unwrap(), 1);
    assert_eq!(parse_bytes("1.25M").unwrap(), 1310720);
}

#[test]
fn parse_holds_huge_sizes_at_the_limit() {
    assert_eq!(parse_bytes("99999999999999999999999999G").unwrap(), usize::MAX);
}

#[test]
fn parse_rejects_malformed_sizes() {
    assert!(is_parse_error(parse_bytes("")));
    assert!(is_parse_error(parse_bytes("M")));
    assert!(is_parse_error(parse_bytes(".")));
    assert!(is_parse_error(parse_bytes(".k")));
    assert!(is_parse_error(parse_bytes("5MB")));
    assert!(is_parse_error(parse_bytes("5x")));
    assert!(is_parse_error(parse_bytes("1.2.3")));
    assert!(is_parse_error(parse_bytes("5 M")));
    assert!(is_parse_error(parse_bytes("-5")));
    assert!(is_parse_error(parse_bytes("k5")));
}

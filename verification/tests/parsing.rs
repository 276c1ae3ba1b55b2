use peer_graph::record::parse_peer_influence;

#[test]
fn parses_plain_numbers() {
    assert_eq!(parse_peer_influence(b"0"), 0);
    assert_eq!(parse_peer_influence(b"7"), 7);
    assert_eq!(parse_peer_influence(b"123"), 123);
    assert_eq!(parse_peer_influence(b"007"), 7);
}

#[test]
fn parses_signed_numbers() {
    assert_eq!(parse_peer_influence(b"+7"), 7);
    assert_eq!(parse_peer_influence(b"-45"), -45);
    assert_eq!(parse_peer_influence(b"-0"), 0);
}

#[test]
fn parses_the_extremes_of_the_range() {
    assert_eq!(parse_peer_influence(b"2147483647"), i32::MAX);
    assert_eq!(parse_peer_influence(b"-2147483648"), i32::MIN);
}

#[test]
fn unparsable_text_falls_back_to_zero() {
    // a malformed field never fails the row: it loads as 0
    assert_eq!(parse_peer_influence(b""), 0);
    assert_eq!(parse_peer_influence(b"abc"), 0);
    assert_eq!(parse_peer_influence(b"12a"), 0);
    assert_eq!(parse_peer_influence(b"1.5"), 0);
    assert_eq!(parse_peer_influence(b" 7"), 0);
    assert_eq!(parse_peer_influence(b"7 "), 0);
    assert_eq!(parse_peer_influence(b"+"), 0);
    assert_eq!(parse_peer_influence(b"-"), 0);
    assert_eq!(parse_peer_influence(b"--5"), 0);
}

#[test]
fn out_of_range_numbers_fall_back_to_zero() {
    assert_eq!(parse_peer_influence(b"2147483648"), 0);
    assert_eq!(parse_peer_influence(b"-2147483649"), 0);
    assert_eq!(parse_peer_influence(b"99999999999999999999"), 0);
}

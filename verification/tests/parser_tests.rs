use one_brc_rs::parse::fast_parse_line;

fn parse_ok(line: &[u8]) -> (&[u8], i16) {
    let (key_len, value) = fast_parse_line(line).expect("line should match the grammar");
    (&line[..key_len], value)
}

fn build_parsed_line(city: &[u8], x: i16) -> (&[u8], i16) {
    (city, x)
}

#[test]
fn test_fast_parse() {
    // Test with no city name.
    assert_eq!(parse_ok(b";8.5"), build_parsed_line(b"", 85));
    assert_eq!(parse_ok(b";-6.9"), build_parsed_line(b"", -69));
    assert_eq!(parse_ok(b";42.3"), build_parsed_line(b"", 423));
    assert_eq!(parse_ok(b";-86.1"), build_parsed_line(b"", -861));

    // One char city name.
    assert_eq!(parse_ok(b"X;8.5"), build_parsed_line(b"X", 85));
    assert_eq!(parse_ok(b"X;-6.9"), build_parsed_line(b"X", -69));
    assert_eq!(parse_ok(b"X;42.9"), build_parsed_line(b"X", 429));
    assert_eq!(parse_ok(b"X;-86.1"), build_parsed_line(b"X", -861));

    // Multi digit city name.
    assert_eq!(parse_ok(b"Paris;8.5"), build_parsed_line(b"Paris", 85));
    assert_eq!(parse_ok(b"Paris;-6.9"), build_parsed_line(b"Paris", -69));
    assert_eq!(parse_ok(b"Paris;42.0"), build_parsed_line(b"Paris", 420));
    assert_eq!(parse_ok(b"Paris;-86.1"), build_parsed_line(b"Paris", -861));
}

#[test]
fn parses_three_integer_digits() {
    assert_eq!(parse_ok(b"Quito;123.4"), build_parsed_line(b"Quito", 1234));
    assert_eq!(parse_ok(b"Quito;-999.9"), build_parsed_line(b"Quito", -9999));
    assert_eq!(parse_ok(b"Quito;999.9"), build_parsed_line(b"Quito", 9999));
    assert_eq!(parse_ok(b";0.0"), build_parsed_line(b"", 0));
}

#[test]
fn key_may_contain_separator_bytes() {
    // Only the last `;` before a well-formed number separates key and value.
    assert_eq!(parse_ok(b"a;b;8.5"), build_parsed_line(b"a;b", 85));
}

#[test]
fn rejects_malformed_lines() {
    // Missing separator.
    assert_eq!(fast_parse_line(b"Paris8.5"), None);
    // Two decimal digits.
    assert_eq!(fast_parse_line(b"Paris;8.55"), None);
    // No fractional digit.
    assert_eq!(fast_parse_line(b"Paris;8."), None);
    // No dot.
    assert_eq!(fast_parse_line(b"Paris;85"), None);
    // Four integer digits.
    assert_eq!(fast_parse_line(b"Paris;1234.5"), None);
    // Sign in the wrong place.
    assert_eq!(fast_parse_line(b"Paris;8-5.5"), None);
    // Empty line and tiny fragments.
    assert_eq!(fast_parse_line(b""), None);
    assert_eq!(fast_parse_line(b";"), None);
    assert_eq!(fast_parse_line(b"8.5"), None);
    assert_eq!(fast_parse_line(b"-8.5"), None);
}

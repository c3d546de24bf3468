use keystats::codec::{find_byte, parse_line, parse_reading, FormatError};

#[test]
fn reading_zero() {
    assert_eq!(parse_reading(b"0.0"), Ok(0));
}

#[test]
fn reading_negative_tenth() {
    assert_eq!(parse_reading(b"-0.1"), Ok(-1));
}

#[test]
fn reading_greatest() {
    assert_eq!(parse_reading(b"99.9"), Ok(999));
}

#[test]
fn reading_least() {
    assert_eq!(parse_reading(b"-99.9"), Ok(-999));
}

#[test]
fn reading_one_and_two_digits() {
    assert_eq!(parse_reading(b"1.2"), Ok(12));
    assert_eq!(parse_reading(b"-1.2"), Ok(-12));
    assert_eq!(parse_reading(b"12.3"), Ok(123));
    assert_eq!(parse_reading(b"-12.3"), Ok(-123));
    assert_eq!(parse_reading(b"05.0"), Ok(50));
    assert_eq!(parse_reading(b"-0.0"), Ok(0));
}

#[test]
fn reading_of_another_shape_is_an_error() {
    let wrong: [&[u8]; 18] = [
        b"",
        b"-",
        b"1",
        b"1.",
        b".1",
        b"12",
        b"1.23",
        b"100.0",
        b"-100.0",
        b"--1.0",
        b"+1.0",
        b" 1.0",
        b"1.0 ",
        b"1,0",
        b"a.0",
        b"1.a",
        b"1a.0",
        b"1.0\r",
    ];
    for bytes in wrong {
        assert_eq!(parse_reading(bytes), Err(FormatError));
    }
}

#[test]
fn reading_digits_end_at_their_edges() {
    assert_eq!(parse_reading(b"/.0"), Err(FormatError));
    assert_eq!(parse_reading(b":.0"), Err(FormatError));
    assert_eq!(parse_reading(b"0./"), Err(FormatError));
    assert_eq!(parse_reading(b"0.:"), Err(FormatError));
    assert_eq!(parse_reading(b"9.9"), Ok(99));
    assert_eq!(parse_reading(b"0.0"), Ok(0));
}

#[test]
fn find_byte_gives_first_match_or_end() {
    let data = b"ab;cd;e";
    assert_eq!(find_byte(data, b';', 0), 2);
    assert_eq!(find_byte(data, b';', 2), 2);
    assert_eq!(find_byte(data, b';', 3), 5);
    assert_eq!(find_byte(data, b';', 6), 7);
    assert_eq!(find_byte(data, b';', 7), 7);
    assert_eq!(find_byte(b"", b';', 0), 0);
}

#[test]
fn line_splits_at_first_delimiter() {
    let parsed = parse_line(b"Paris;12.3").unwrap().unwrap();
    assert_eq!(parsed.key, b"Paris");
    assert_eq!(parsed.reading, 123);
}

#[test]
fn line_with_empty_key() {
    let parsed = parse_line(b";-4.5").unwrap().unwrap();
    assert_eq!(parsed.key, b"");
    assert_eq!(parsed.reading, -45);
}

#[test]
fn line_without_delimiter_is_skipped() {
    assert!(parse_line(b"").unwrap().is_none());
    assert!(parse_line(b"no delimiter here").unwrap().is_none());
    assert!(parse_line(b"12.3").unwrap().is_none());
}

#[test]
fn line_with_bad_reading_is_an_error() {
    assert_eq!(parse_line(b"Paris;").err(), Some(FormatError));
    assert_eq!(parse_line(b"Paris;abc").err(), Some(FormatError));
    assert_eq!(parse_line(b"Paris;1.0;2.0").err(), Some(FormatError));
    assert_eq!(parse_line(b"a;b;1.0").err(), Some(FormatError));
    assert_eq!(parse_line(b"Paris;123.4").err(), Some(FormatError));
}

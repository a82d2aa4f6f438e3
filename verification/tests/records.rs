use zone_queries::decimal::{parse_i32_field, parse_u32_field, push_digits, push_signed};
use zone_queries::record::{construct_zones_for_test, parse_record};
use zone_queries::{Restriction, Zone, ZoneError};

#[test]
fn construct_zones() {
    let size: usize = 8;
    let input = [
        "0 1 4 0 2 0",
        "2 2 1 2 3 4",
        "4 1 3 1 1 0",
        "4 3 1 0 0 1",
        "6 4 0 0 1 1",
        "9 1 1 0 0 2",
        "9 4 2 0 0 1",
        "9 3 0 0 0 0",
    ];
    let actual = construct_zones_for_test(size, &input).expect("well-formed records");

    let mut expected = vec![
        Zone::new(0, 1, Restriction::new(4, 0, 2, 0)),
        Zone::new(2, 2, Restriction::new(1, 2, 3, 4)),
        Zone::new(4, 1, Restriction::new(3, 1, 1, 0)),
        Zone::new(4, 3, Restriction::new(1, 0, 0, 1)),
        Zone::new(6, 4, Restriction::new(0, 0, 1, 1)),
        Zone::new(9, 1, Restriction::new(1, 0, 0, 2)),
        Zone::new(9, 4, Restriction::new(2, 0, 0, 1)),
        Zone::new(9, 3, Restriction::new(0, 0, 0, 0)),
    ];
    expected[size - 1].is_end_zone = true;

    assert_eq!(actual, expected);
    assert_eq!(actual.last().expect("not empty").is_end_zone, true);
}

#[test]
fn construct_zones_marks_only_the_last() {
    let zones = construct_zones_for_test(3, &["1 2 0 0 0 0", "3 4 0 0 0 0", "5 6 0 0 0 0"]).expect("well-formed records");
    let flags: Vec<bool> = zones.iter().map(|z| z.is_end_zone).collect();
    assert_eq!(flags, vec![false, false, true]);
    let one = construct_zones_for_test(1, &["1 2 0 0 0 0"]).expect("a well-formed record");
    assert_eq!(one, vec![Zone { x: 1, y: 2, restriction: Restriction::default(), is_end_zone: true }]);
}

#[test]
fn construct_zones_whatever_size_is_expected() {
    let lines = ["1 2 3 4 5 6", "-1 -2 0 0 0 0"];
    let expected = vec![
        Zone { x: 1, y: 2, restriction: Restriction::new(3, 4, 5, 6), is_end_zone: false },
        Zone { x: -1, y: -2, restriction: Restriction::new(0, 0, 0, 0), is_end_zone: true },
    ];
    assert_eq!(construct_zones_for_test(0, &lines), Ok(expected.clone()));
    assert_eq!(construct_zones_for_test(1, &lines), Ok(expected.clone()));
    assert_eq!(construct_zones_for_test(usize::MAX, &lines), Ok(expected));
}

#[test]
fn construct_zones_of_no_lines() {
    assert_eq!(construct_zones_for_test(0, &[]), Ok(Vec::new()));
    assert_eq!(construct_zones_for_test(5, &[]), Ok(Vec::new()));
}

#[test]
fn construct_zones_stops_at_a_malformed_line() {
    assert_eq!(construct_zones_for_test(2, &["1 2 3 4 5 6", "1 2 3 4 5"]), Err(ZoneError::ParseError));
    assert_eq!(construct_zones_for_test(2, &["1 2 3 4 x 6", "1 2 3 4 5 6"]), Err(ZoneError::ParseError));
    assert_eq!(construct_zones_for_test(1, &[""]), Err(ZoneError::ParseError));
    assert_eq!(construct_zones_for_test(1, &[" \t "]), Err(ZoneError::ParseError));
}

#[test]
fn record_with_signs_zeros_and_more_fields() {
    let zone = parse_record(b"-12 +7 007 +0 4294967295 1 and the rest").expect("a well-formed record");
    assert_eq!(zone, Zone { x: -12, y: 7, restriction: Restriction::new(7, 0, u32::MAX, 1), is_end_zone: false });
    let edge = parse_record(b"-2147483648 2147483647 0 0 0 0").expect("a well-formed record");
    assert_eq!((edge.x, edge.y), (i32::MIN, i32::MAX));
    let padded = parse_record(b"-0 0000000000000000000000000012 0 0 0 0 ").expect("a well-formed record");
    assert_eq!((padded.x, padded.y), (0, 12));
}

#[test]
fn record_that_lacks_a_field() {
    assert_eq!(parse_record(b""), Err(ZoneError::ParseError));
    assert_eq!(parse_record(b"1"), Err(ZoneError::ParseError));
    assert_eq!(parse_record(b"1 2 3 4 5"), Err(ZoneError::ParseError));
    assert_eq!(parse_record(b"1 2 3 4 5 "), Err(ZoneError::ParseError));
    assert_eq!(parse_record(b"   "), Err(ZoneError::ParseError));
    assert_eq!(parse_record(b"1 2 3 4 56"), Err(ZoneError::ParseError));
}

#[test]
fn record_with_a_field_that_is_no_number() {
    assert_eq!(parse_record(b"a 2 3 4 5 6"), Err(ZoneError::ParseError));
    assert_eq!(parse_record(b"1 2 3 4 5 6x"), Err(ZoneError::ParseError));
    assert_eq!(parse_record(b"1.0 2 3 4 5 6"), Err(ZoneError::ParseError));
    assert_eq!(parse_record(b"1,2,3,4,5,6"), Err(ZoneError::ParseError));
    assert_eq!(parse_record(b"+ 2 3 4 5 6"), Err(ZoneError::ParseError));
    assert_eq!(parse_record(b"- 2 3 4 5 6"), Err(ZoneError::ParseError));
    assert_eq!(parse_record(b"--1 2 3 4 5 6"), Err(ZoneError::ParseError));
    assert_eq!(parse_record(b"1 2 3 4 5 - 6"), Err(ZoneError::ParseError));
    assert_eq!(parse_record("1 2 3 4 5 \u{663}".as_bytes()), Err(ZoneError::ParseError));
    assert_eq!(parse_record("1\u{a0}2 3 4 5 6 7".as_bytes()), Err(ZoneError::ParseError));
    assert_eq!(parse_record(b"1\x0b2 3 4 5 6 7"), Err(ZoneError::ParseError));
}

#[test]
fn record_with_any_whitespace_between_fields() {
    let expected = Ok(Zone::new(1, -2, Restriction::new(3, 4, 5, 6)));
    assert_eq!(parse_record(b"1 -2 3 4 5 6"), expected);
    assert_eq!(parse_record(b"1  -2   3 4 5 6"), expected);
    assert_eq!(parse_record(b" 1 -2 3 4 5 6"), expected);
    assert_eq!(parse_record(b"1 -2 3 4 5 6 "), expected);
    assert_eq!(parse_record(b"1\t-2\t3\t4\t5\t6"), expected);
    assert_eq!(parse_record(b"1 -2 3 4 5 6\n"), expected);
    assert_eq!(parse_record(b"1 -2 3 4 5 6\r\n"), expected);
    assert_eq!(parse_record(b"\t 1 \x0c -2 \r 3 \n 4 5 6 \t 7 8"), expected);
}

#[test]
fn record_with_a_number_out_of_range() {
    assert_eq!(parse_record(b"2147483648 0 0 0 0 0"), Err(ZoneError::ParseError));
    assert_eq!(parse_record(b"0 -2147483649 0 0 0 0"), Err(ZoneError::ParseError));
    assert_eq!(parse_record(b"0 0 4294967296 0 0 0"), Err(ZoneError::ParseError));
    assert_eq!(parse_record(b"0 0 0 99999999999999999999999999 0 0"), Err(ZoneError::ParseError));
    assert_eq!(parse_record(b"0 0 0 0 -1 0"), Err(ZoneError::ParseError));
    assert_eq!(parse_record(b"0 0 0 0 0 -0"), Err(ZoneError::ParseError));
}

#[test]
fn fields_agree_with_the_standard_parsers() {
    let texts = [
        "0", "7", "-7", "+7", "-0", "+0", "0012", "-0012", "", "+", "-", "1a", "a1", " 1", "1 ", "2147483647",
        "2147483648", "-2147483648", "-2147483649", "4294967295", "4294967296", "281474976710656",
        "18446744073709551616", "99999999999999999999999999999999", "+-1", "1_000", "0x10",
    ];
    for text in texts.iter() {
        let bytes = text.as_bytes();
        assert_eq!(parse_i32_field(bytes, 0, bytes.len()), text.parse::<i32>().ok());
        assert_eq!(parse_u32_field(bytes, 0, bytes.len()), text.parse::<u32>().ok());
    }
}

#[test]
fn fields_inside_a_longer_text() {
    assert_eq!(parse_i32_field(b"x-123y", 1, 5), Some(-123));
    assert_eq!(parse_i32_field(b"x-123y", 1, 6), None);
    assert_eq!(parse_i32_field(b"x-123y", 2, 5), Some(123));
    assert_eq!(parse_i32_field(b"x-123y", 1, 1), None);
    assert_eq!(parse_u32_field(b"x-123y", 2, 4), Some(12));
    assert_eq!(parse_u32_field(b"x-123y", 1, 4), None);
}

#[test]
fn numbers_are_written_without_sign_or_leading_zeros() {
    let mut out = b">".to_vec();
    push_digits(0, &mut out);
    out.push(b' ');
    push_digits(907, &mut out);
    out.push(b' ');
    push_digits(u32::MAX, &mut out);
    out.push(b' ');
    push_signed(0, &mut out);
    out.push(b' ');
    push_signed(-1, &mut out);
    out.push(b' ');
    push_signed(i32::MAX, &mut out);
    out.push(b' ');
    push_signed(i32::MIN, &mut out);
    assert_eq!(out, b">0 907 4294967295 0 -1 2147483647 -2147483648".to_vec());
}

#[test]
fn zone_is_written_as_a_record() {
    let zone = Zone::new(-12, 7, Restriction::new(7, 0, u32::MAX, 1));
    assert_eq!(zone.to_record(), b"-12 7 7 0 4294967295 1".to_vec());
    let mut end_zone = Zone::new(i32::MIN, i32::MAX, Restriction::default());
    end_zone.is_end_zone = true;
    assert_eq!(end_zone.to_record(), b"-2147483648 2147483647 0 0 0 0".to_vec());
    assert_eq!(Zone::default().to_record(), b"0 0 0 0 0 0".to_vec());
}

#[test]
fn written_record_reads_back_as_the_zone() {
    let zones = [
        Zone::new(0, 0, Restriction::default()),
        Zone::new(-12, 7, Restriction::new(7, 0, u32::MAX, 1)),
        Zone::new(i32::MIN, i32::MAX, Restriction::new(10, 100, 1000, 10000)),
        Zone::new(99, -100, Restriction::new(9, 99, 999, 9999)),
    ];
    for zone in zones.iter() {
        assert_eq!(parse_record(&zone.to_record()), Ok(*zone));
    }
    let mut end_zone = zones[1];
    end_zone.is_end_zone = true;
    assert_eq!(parse_record(&end_zone.to_record()), Ok(zones[1]));
}

#[test]
fn rewritten_records_give_the_same_zones() {
    let input = ["+7 -0 007 0 1 2 and more", "-2147483648 2147483647 4294967295 0 0 0", "0 1 4 0 2 0"];
    let zones = construct_zones_for_test(input.len(), &input).expect("well-formed records");
    let rewritten: Vec<String> =
        zones.iter().map(|z| String::from_utf8(z.to_record()).expect("digits, signs and spaces")).collect();
    assert_eq!(rewritten, vec!["7 0 7 0 1 2", "-2147483648 2147483647 4294967295 0 0 0", "0 1 4 0 2 0"]);
    let lines: Vec<&str> = rewritten.iter().map(String::as_str).collect();
    assert_eq!(construct_zones_for_test(lines.len(), &lines), Ok(zones));
}

use ip_subset::codec::convert_ipv4_address;
use ip_subset::codec::integer_to_ipv4_address;
use ip_subset::errors::ParseError;
use ip_subset::range::parse_entry;
use ip_subset::range::parse_ip_entries;
use ip_subset::range::parse_ip_entries_to_ranges;
use ip_subset::range::IPRange;
use ip_subset::text::split_lines;

fn encode(s: &str) -> u32 {
    convert_ipv4_address(s).unwrap()
}

#[test]
fn encode_known_values() {
    assert_eq!(convert_ipv4_address("192.168.1.1"), Ok(3232235777));
    assert_eq!(convert_ipv4_address("0.0.0.0"), Ok(0));
    assert_eq!(convert_ipv4_address("255.255.255.255"), Ok(u32::MAX));
    assert_eq!(convert_ipv4_address("10.0.0.1"), Ok(0x0a000001));
    assert_eq!(convert_ipv4_address("1.2.3.4"), Ok(0x01020304));
}

#[test]
fn encode_accepts_leading_zeros() {
    assert_eq!(convert_ipv4_address("010.001.002.003"), Ok(0x0a010203));
    assert_eq!(convert_ipv4_address("000.000.000.000"), Ok(0));
}

#[test]
fn encode_rejects_malformed() {
    assert_eq!(convert_ipv4_address("1.2.3"), Err(ParseError::MalformedAddress));
    assert_eq!(convert_ipv4_address("1.2.3.4.5"), Err(ParseError::MalformedAddress));
    assert_eq!(convert_ipv4_address("256.0.0.1"), Err(ParseError::MalformedAddress));
    assert_eq!(convert_ipv4_address("1.2.3.x"), Err(ParseError::MalformedAddress));
    assert_eq!(convert_ipv4_address("1..2.3"), Err(ParseError::MalformedAddress));
    assert_eq!(convert_ipv4_address(""), Err(ParseError::MalformedAddress));
    assert_eq!(convert_ipv4_address("1.2.3.4 "), Err(ParseError::MalformedAddress));
}

#[test]
fn decode_known_values() {
    assert_eq!(integer_to_ipv4_address(3232235777), "192.168.1.1");
    assert_eq!(integer_to_ipv4_address(0), "0.0.0.0");
    assert_eq!(integer_to_ipv4_address(u32::MAX), "255.255.255.255");
    assert_eq!(integer_to_ipv4_address(0x0a000001), "10.0.0.1");
}

#[test]
fn round_trip_value_to_text_to_value() {
    for v in [0u32, 1, 255, 256, 0x0a000001, 3232235777, u32::MAX, u32::MAX - 1, 0x80000000] {
        assert_eq!(convert_ipv4_address(&integer_to_ipv4_address(v)), Ok(v));
    }
}

#[test]
fn round_trip_canonical_text_to_value_to_text() {
    for s in ["0.0.0.0", "10.0.0.1", "192.168.1.1", "255.255.255.255", "1.22.133.244"] {
        assert_eq!(integer_to_ipv4_address(encode(s)), s);
    }
    // A non-canonical spelling comes back in canonical form.
    assert_eq!(integer_to_ipv4_address(encode("010.000.000.001")), "10.0.0.1");
}

#[test]
fn parse_single_address() {
    let r = parse_entry("10.0.0.5").unwrap();
    assert_eq!(r, IPRange { start: encode("10.0.0.5"), end: encode("10.0.0.5") });
}

#[test]
fn parse_single_address_trims_whitespace() {
    let r = parse_entry("  10.0.0.5\t").unwrap();
    assert_eq!(r.start, encode("10.0.0.5"));
    assert_eq!(r.end, encode("10.0.0.5"));
}

#[test]
fn parse_dashed_range() {
    let r = parse_entry("10.0.0.1-10.0.0.5").unwrap();
    assert_eq!(r.start, encode("10.0.0.1"));
    assert_eq!(r.end, encode("10.0.0.5"));
}

#[test]
fn parse_dashed_range_tolerates_whitespace() {
    let r = parse_entry(" 10.0.0.1 - 10.0.0.5 ").unwrap();
    assert_eq!(r.start, encode("10.0.0.1"));
    assert_eq!(r.end, encode("10.0.0.5"));
}

#[test]
fn parse_dashed_range_rejects_reversed_bounds() {
    assert_eq!(parse_entry("10.0.0.5-10.0.0.1"), Err(ParseError::MalformedEntry));
}

#[test]
fn parse_dashed_range_rejects_bad_bound() {
    assert_eq!(parse_entry("10.0.0.1-"), Err(ParseError::MalformedEntry));
    assert_eq!(parse_entry("-10.0.0.1"), Err(ParseError::MalformedEntry));
    assert_eq!(parse_entry("10.0.0.1-10.0.0"), Err(ParseError::MalformedEntry));
}

#[test]
fn parse_cidr_block() {
    let r = parse_entry("10.0.0.0/24").unwrap();
    assert_eq!(r.start, encode("10.0.0.0"));
    assert_eq!(r.end, encode("10.0.0.255"));
}

#[test]
fn parse_cidr_full_mask_is_single_address() {
    let r = parse_entry("10.0.0.5/32").unwrap();
    assert_eq!(r.start, encode("10.0.0.5"));
    assert_eq!(r.end, encode("10.0.0.5"));
}

#[test]
fn parse_cidr_zero_mask_is_whole_space() {
    let r = parse_entry("0.0.0.0/0").unwrap();
    assert_eq!(r.start, 0);
    assert_eq!(r.end, u32::MAX);
    // The base address is truncated for any address, not only zero.
    let r = parse_entry("1.2.3.4/0").unwrap();
    assert_eq!(r.start, 0);
    assert_eq!(r.end, u32::MAX);
}

#[test]
fn parse_cidr_truncates_base_address() {
    let r = parse_entry("10.0.0.77/24").unwrap();
    assert_eq!(r.start, encode("10.0.0.0"));
    assert_eq!(r.end, encode("10.0.0.255"));
    let r = parse_entry("192.168.13.7/16").unwrap();
    assert_eq!(r.start, encode("192.168.0.0"));
    assert_eq!(r.end, encode("192.168.255.255"));
}

#[test]
fn parse_cidr_rejects_bad_mask() {
    assert_eq!(parse_entry("1.2.3.4/33"), Err(ParseError::MalformedEntry));
    assert_eq!(parse_entry("1.2.3.4/"), Err(ParseError::MalformedEntry));
    assert_eq!(parse_entry("1.2.3.4/abc"), Err(ParseError::MalformedEntry));
    assert_eq!(parse_entry("1.2.3.4/2 4"), Err(ParseError::MalformedEntry));
}

#[test]
fn parse_rejects_plain_garbage() {
    assert_eq!(parse_entry("abc"), Err(ParseError::MalformedEntry));
    assert_eq!(parse_entry(""), Err(ParseError::MalformedEntry));
    assert_eq!(parse_entry("   "), Err(ParseError::MalformedEntry));
}

#[test]
fn parse_all_preserves_order() {
    let lines = vec![
        "10.0.0.1".to_string(),
        "10.0.0.0/30".to_string(),
        "10.0.1.1-10.0.1.3".to_string(),
    ];
    let ranges = parse_ip_entries_to_ranges(&lines).unwrap();
    assert_eq!(ranges.len(), 3);
    assert_eq!(ranges[0], IPRange { start: encode("10.0.0.1"), end: encode("10.0.0.1") });
    assert_eq!(ranges[1], IPRange { start: encode("10.0.0.0"), end: encode("10.0.0.3") });
    assert_eq!(ranges[2], IPRange { start: encode("10.0.1.1"), end: encode("10.0.1.3") });
}

#[test]
fn parse_all_fails_fast_on_first_bad_line() {
    let lines = vec![
        "10.0.0.1".to_string(),
        "bogus".to_string(),
        "also bogus".to_string(),
    ];
    let err = parse_ip_entries_to_ranges(&lines).unwrap_err();
    assert_eq!(err.index, 1);
    assert_eq!(err.kind, ParseError::MalformedEntry);
}

#[test]
fn expand_entries_into_individual_addresses() {
    let lines = vec![
        "10.0.0.1".to_string(),
        "10.0.0.4-10.0.0.6".to_string(),
        "10.0.0.8/31".to_string(),
    ];
    let set = parse_ip_entries(&lines).unwrap();
    let expected: Vec<u32> = vec![
        encode("10.0.0.1"),
        encode("10.0.0.4"),
        encode("10.0.0.5"),
        encode("10.0.0.6"),
        encode("10.0.0.8"),
        encode("10.0.0.9"),
    ];
    assert_eq!(set.len(), expected.len());
    for v in expected {
        assert!(set.contains(&v));
    }
    assert!(!set.contains(&encode("10.0.0.2")));
    assert!(!set.contains(&encode("10.0.0.7")));
}

#[test]
fn expand_entries_dedupes_overlaps() {
    let lines = vec!["10.0.0.0/30".to_string(), "10.0.0.2-10.0.0.4".to_string()];
    let set = parse_ip_entries(&lines).unwrap();
    assert_eq!(set.len(), 5);
    for v in 0x0a000000u32..=0x0a000004 {
        assert!(set.contains(&v));
    }
}

#[test]
fn expand_entries_fails_fast() {
    let lines = vec!["10.0.0.1".to_string(), "10.0.0.300".to_string()];
    let err = parse_ip_entries(&lines).unwrap_err();
    assert_eq!(err.index, 1);
    assert_eq!(err.kind, ParseError::MalformedEntry);
}

#[test]
fn split_lines_trims_and_splits() {
    let lines = split_lines("  10.0.0.1\n10.0.0.2\n10.0.0.3  ");
    assert_eq!(lines, vec!["10.0.0.1", "10.0.0.2", "10.0.0.3"]);
}

#[test]
fn split_lines_keeps_empty_interior_lines() {
    let lines = split_lines("a\n\nb");
    assert_eq!(lines, vec!["a", "", "b"]);
}

#[test]
fn split_lines_of_single_entry() {
    let lines = split_lines("10.0.0.1");
    assert_eq!(lines, vec!["10.0.0.1"]);
}

use ip_subset::codec::convert_ipv4_address;
use ip_subset::range::parse_entry;
use ip_subset::range::IPRange;
use ip_subset::subset::a_in_b;
use ip_subset::subset::is_subset;
use ip_subset::subset::unmatched_message;
use ip_subset::subset::SubsetVerdict;

fn encode(s: &str) -> u32 {
    convert_ipv4_address(s).unwrap()
}

fn ranges(entries: &[&str]) -> Vec<IPRange> {
    entries.iter().map(|e| parse_entry(e).unwrap()).collect()
}

#[test]
fn full_space_superset_accepts_any_a() {
    let b = ranges(&["0.0.0.0-255.255.255.255"]);
    let a1 = ranges(&["10.0.0.1"]);
    let a2 = ranges(&["0.0.0.0/8", "255.255.255.255", "1.2.3.4-1.2.200.4"]);
    assert_eq!(is_subset(&a1, &b), SubsetVerdict::Contained);
    assert_eq!(is_subset(&a2, &b), SubsetVerdict::Contained);
    assert!(a_in_b(&a1, &b));
    assert!(a_in_b(&a2, &b));
}

#[test]
fn single_address_mismatch_names_the_address() {
    let a = ranges(&["192.168.1.1"]);
    let b = ranges(&["192.168.1.2"]);
    let verdict = is_subset(&a, &b);
    assert_eq!(
        verdict,
        SubsetVerdict::Unmatched { index: 0, address: encode("192.168.1.1") },
    );
    assert!(!a_in_b(&a, &b));
    let message = unmatched_message(encode("192.168.1.1"), a[0]);
    assert_eq!(
        message,
        "Unmatched address 192.168.1.1 from A entry 192.168.1.1-192.168.1.1",
    );
}

#[test]
fn range_covered_by_several_b_ranges() {
    let a = ranges(&["10.0.0.0/30"]);
    let b = ranges(&["10.0.0.0-10.0.0.1", "10.0.0.2-10.0.0.3"]);
    assert_eq!(is_subset(&a, &b), SubsetVerdict::Contained);
}

#[test]
fn gap_in_b_is_found() {
    let a = ranges(&["10.0.0.0-10.0.0.5"]);
    let b = ranges(&["10.0.0.0-10.0.0.2", "10.0.0.4-10.0.0.5"]);
    assert_eq!(
        is_subset(&a, &b),
        SubsetVerdict::Unmatched { index: 0, address: encode("10.0.0.3") },
    );
}

#[test]
fn first_failing_entry_in_file_order_is_reported() {
    let b = ranges(&["1.1.1.1"]);
    let a = ranges(&["1.1.1.1", "2.2.2.2"]);
    assert_eq!(
        is_subset(&a, &b),
        SubsetVerdict::Unmatched { index: 1, address: encode("2.2.2.2") },
    );
    let a_rev = ranges(&["2.2.2.2", "1.1.1.1"]);
    assert_eq!(
        is_subset(&a_rev, &b),
        SubsetVerdict::Unmatched { index: 0, address: encode("2.2.2.2") },
    );
}

#[test]
fn smallest_unmatched_address_of_a_range_is_reported() {
    let a = ranges(&["10.0.0.0/24"]);
    let b = ranges(&["10.0.0.0-10.0.0.9", "10.0.0.30-10.0.1.255"]);
    assert_eq!(
        is_subset(&a, &b),
        SubsetVerdict::Unmatched { index: 0, address: encode("10.0.0.10") },
    );
}

#[test]
fn empty_a_is_contained_in_anything() {
    let a: Vec<IPRange> = Vec::new();
    let b: Vec<IPRange> = Vec::new();
    assert_eq!(is_subset(&a, &b), SubsetVerdict::Contained);
    let b = ranges(&["10.0.0.1"]);
    assert_eq!(is_subset(&a, &b), SubsetVerdict::Contained);
}

#[test]
fn nonempty_a_against_empty_b_fails() {
    let a = ranges(&["10.0.0.1"]);
    let b: Vec<IPRange> = Vec::new();
    assert_eq!(
        is_subset(&a, &b),
        SubsetVerdict::Unmatched { index: 0, address: encode("10.0.0.1") },
    );
}

#[test]
fn rerunning_gives_the_same_verdict() {
    let a = ranges(&["10.0.0.0/29", "10.1.0.0-10.1.0.7"]);
    let b = ranges(&["10.0.0.0/16"]);
    let first = is_subset(&a, &b);
    let second = is_subset(&a, &b);
    assert_eq!(first, second);
    assert_eq!(a_in_b(&a, &b), a_in_b(&a, &b));
}

#[test]
fn shuffling_entries_keeps_the_boolean_verdict() {
    let a1 = ranges(&["10.0.0.1", "10.0.0.200-10.0.0.210", "10.0.0.0/28"]);
    let a2 = ranges(&["10.0.0.0/28", "10.0.0.1", "10.0.0.200-10.0.0.210"]);
    let b1 = ranges(&["10.0.0.200-10.0.0.255", "10.0.0.0-10.0.0.100"]);
    let b2 = ranges(&["10.0.0.0-10.0.0.100", "10.0.0.200-10.0.0.255"]);
    assert_eq!(a_in_b(&a1, &b1), a_in_b(&a2, &b2));
    assert_eq!(a_in_b(&a1, &b2), a_in_b(&a2, &b1));
    assert!(a_in_b(&a1, &b1));

    // A failing pair keeps failing under shuffling too.
    let c1 = ranges(&["10.0.0.1", "10.9.9.9"]);
    let c2 = ranges(&["10.9.9.9", "10.0.0.1"]);
    assert_eq!(a_in_b(&c1, &b1), a_in_b(&c2, &b2));
    assert!(!a_in_b(&c1, &b1));
}

#[test]
fn range_end_at_address_space_limit() {
    let a = ranges(&["255.255.255.250-255.255.255.255"]);
    let b = ranges(&["255.255.255.0/24"]);
    assert_eq!(is_subset(&a, &b), SubsetVerdict::Contained);
    let b_short = ranges(&["255.255.255.250-255.255.255.254"]);
    assert_eq!(
        is_subset(&a, &b_short),
        SubsetVerdict::Unmatched { index: 0, address: u32::MAX },
    );
}

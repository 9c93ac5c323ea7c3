use todo_store::priority::Priority;

#[test]
fn alias_decode_critical_spellings() {
    assert_eq!(Priority::from_alias("crit"), Priority::Critical);
    assert_eq!(Priority::from_alias("critical"), Priority::Critical);
    assert_eq!(Priority::from_alias("c"), Priority::Critical);
}

#[test]
fn alias_decode_other_spellings() {
    assert_eq!(Priority::from_alias("high"), Priority::High);
    assert_eq!(Priority::from_alias("h"), Priority::High);
    assert_eq!(Priority::from_alias("medium"), Priority::Medium);
    assert_eq!(Priority::from_alias("m"), Priority::Medium);
    assert_eq!(Priority::from_alias("low"), Priority::Low);
    assert_eq!(Priority::from_alias("l"), Priority::Low);
}

#[test]
fn alias_decode_unrecognized_is_unknown() {
    assert_eq!(Priority::from_alias("nonsense"), Priority::Unknown);
    assert_eq!(Priority::from_alias(""), Priority::Unknown);
    assert_eq!(Priority::from_alias("Critical"), Priority::Unknown); // case-sensitive
    assert_eq!(Priority::from_alias("CRIT"), Priority::Unknown);
}

#[test]
fn encode_decode_round_trip() {
    for p in [
        Priority::Unknown,
        Priority::Low,
        Priority::Medium,
        Priority::High,
        Priority::Critical,
    ] {
        assert_eq!(Priority::from_u8(p.to_u8()), p);
    }
}

#[test]
fn encoding_values() {
    assert_eq!(Priority::Unknown.to_u8(), 0);
    assert_eq!(Priority::Low.to_u8(), 1);
    assert_eq!(Priority::Medium.to_u8(), 2);
    assert_eq!(Priority::High.to_u8(), 3);
    assert_eq!(Priority::Critical.to_u8(), 4);
}

#[test]
fn decode_out_of_range_is_unknown() {
    assert_eq!(Priority::from_u8(5), Priority::Unknown);
    assert_eq!(Priority::from_u8(255), Priority::Unknown);
    assert_eq!(Priority::from_u64(99), Priority::Unknown);
    assert_eq!(Priority::from_u64(u64::MAX), Priority::Unknown);
}

#[test]
fn total_order() {
    assert!(Priority::Unknown < Priority::Low);
    assert!(Priority::Low < Priority::Medium);
    assert!(Priority::Medium < Priority::High);
    assert!(Priority::High < Priority::Critical);
    assert!(Priority::Critical > Priority::Unknown);
    assert!(Priority::Medium <= Priority::Medium);
}

use clia_macaddr::{
    count_addresses_between, count_addresses_between_str, format_mac_addr, get_addresses_between,
    get_addresses_between_str_as_strings, is_valid_mac_addr, parse_mac_addr, MacAddress, MacParseError,
};

#[test]
fn ordinal_is_big_endian() {
    let addr = MacAddress::new([0x01, 0x23, 0x45, 0x67, 0x89, 0xab]);
    assert_eq!(addr.to_ordinal(), 0x0123_4567_89ab);
    assert_eq!(MacAddress::new([0xff; 6]).to_ordinal(), 0xffff_ffff_ffff);
    assert_eq!(MacAddress::new([0; 6]).to_ordinal(), 0);
}

#[test]
fn ordinal_round_trip() {
    for o in [0u64, 1, 0xff, 0x100, 0x0123_4567_89ab, 0xffff_ffff_ffff] {
        assert_eq!(MacAddress::from_ordinal(o).to_ordinal(), o);
    }
    assert_eq!(MacAddress::from_ordinal(0x0123_4567_89ab).bytes(), [0x01, 0x23, 0x45, 0x67, 0x89, 0xab]);
}

#[test]
fn count_is_symmetric() {
    let a = parse_mac_addr("12:34:56:78:9a:bc").unwrap();
    let b = parse_mac_addr("12:34:56:78:9b:00").unwrap();
    assert_eq!(count_addresses_between(&a, &b), 0x45);
    assert_eq!(count_addresses_between(&b, &a), 0x45);
}

#[test]
fn range_of_one_address() {
    let a = parse_mac_addr("de:ad:be:ef:00:01").unwrap();
    assert_eq!(count_addresses_between(&a, &a), 1);
    assert_eq!(get_addresses_between(&a, &a), vec![a]);
}

#[test]
fn enumeration_length_matches_count() {
    let a = parse_mac_addr("00:00:00:00:00:fe").unwrap();
    let b = parse_mac_addr("00:00:00:00:01:03").unwrap();
    let all = get_addresses_between(&b, &a);
    assert_eq!(all.len() as u64, count_addresses_between(&a, &b));
    assert_eq!(all.len(), 6);
    assert_eq!(format_mac_addr(&all[2]), "00:00:00:00:01:00");
    assert_eq!(all[5], b);
}

#[test]
fn whole_space_is_counted() {
    let count = count_addresses_between_str("ff:ff:ff:ff:ff:ff", "00:00:00:00:00:00").unwrap();
    assert_eq!(count, 1u64 << 48);
}

#[test]
fn format_of_parse_normalizes_text() {
    let addr = parse_mac_addr("AA-bb-CC-dd-EE-0f").unwrap();
    assert_eq!(addr.bytes(), [0xaa, 0xbb, 0xcc, 0xdd, 0xee, 0x0f]);
    assert_eq!(format_mac_addr(&addr), "aa:bb:cc:dd:ee:0f");
}

#[test]
fn upper_case_text_of_address() {
    let addr = MacAddress::new([0x80, 0xfa, 0x5b, 0x41, 0x10, 0x0b]);
    assert_eq!(addr.to_string(), "80:FA:5B:41:10:0B");
    assert_eq!(format_mac_addr(&addr), "80:fa:5b:41:10:0b");
}

#[test]
fn text_without_separators() {
    let addr = parse_mac_addr("4827e24425D8").unwrap();
    assert_eq!(addr.bytes(), [0x48, 0x27, 0xe2, 0x44, 0x25, 0xd8]);
}

#[test]
fn loosely_written_texts_are_rejected() {
    assert_eq!(parse_mac_addr("+a:bb:cc:dd:ee:ff"), Err(MacParseError::InvalidDigit));
    assert_eq!(parse_mac_addr("+abbccddeeff"), Err(MacParseError::InvalidDigit));
    assert_eq!(parse_mac_addr("000:1:22:33:44:55"), Err(MacParseError::InvalidDigit));
    assert_eq!(parse_mac_addr("00000000000000:11"), Err(MacParseError::InvalidDigit));
    assert_eq!(parse_mac_addr("aa:bb-cc:dd-ee:ff"), Err(MacParseError::InvalidDigit));
    assert_eq!(parse_mac_addr("aa:bb:cc:dd:ee:f "), Err(MacParseError::InvalidDigit));
    assert!(!is_valid_mac_addr("aa:bb-cc:dd-ee:ff"));
    assert!(is_valid_mac_addr("aa-bb-cc-dd-ee-ff"));
}

#[test]
fn parse_errors() {
    assert_eq!(parse_mac_addr("80:FA:ZZ:41:10:6B"), Err(MacParseError::InvalidDigit));
    assert_eq!(parse_mac_addr("80|FA|AA|41|10|6B"), Err(MacParseError::InvalidDigit));
    assert_eq!(parse_mac_addr("80:FA:5B:41"), Err(MacParseError::InvalidLength));
    assert_eq!(parse_mac_addr("80:FA:5B:41:10:6B:AC"), Err(MacParseError::InvalidLength));
    assert_eq!(parse_mac_addr(""), Err(MacParseError::InvalidLength));
    assert_eq!(parse_mac_addr("80:F\u{c1}:5B:41:10:6B"), Err(MacParseError::InvalidLength));
}

#[test]
fn first_error_is_reported() {
    assert_eq!(
        count_addresses_between_str("zz:00:00:00:00:00", "short"),
        Err(MacParseError::InvalidDigit)
    );
    assert_eq!(
        count_addresses_between_str("00:00:00:00:00:00", "short"),
        Err(MacParseError::InvalidLength)
    );
    assert_eq!(
        get_addresses_between_str_as_strings("00:00:00:00:00:00", "00:00:00:00:00:0g"),
        Err(MacParseError::InvalidDigit)
    );
}

#[test]
fn texts_come_in_ascending_order() {
    let texts =
        get_addresses_between_str_as_strings("00:00:00:00:01:01", "00:00:00:00:00:FF").unwrap();
    assert_eq!(texts, vec!["00:00:00:00:00:ff", "00:00:00:00:01:00", "00:00:00:00:01:01"]);
}

use clia_macaddr::range::{
    count_addresses_between, get_addresses_between, get_addresses_between_str,
    get_addresses_between_str_as_strings,
};
use clia_macaddr::validate::parse_mac_addr;

#[test]
fn range_test_count_addresses_between() {
    let addr1 = parse_mac_addr("00:00:00:00:00:00").unwrap();
    let addr2 = parse_mac_addr("00:00:00:00:00:01").unwrap();
    assert_eq!(count_addresses_between(&addr1, &addr2), 2);

    // Test reverse order
    assert_eq!(count_addresses_between(&addr2, &addr1), 2);
}

#[test]
fn range_test_get_addresses_between() {
    let addr1 = parse_mac_addr("00:00:00:00:00:00").unwrap();
    let addr2 = parse_mac_addr("00:00:00:00:00:01").unwrap();
    let addresses = get_addresses_between(&addr1, &addr2);
    assert_eq!(addresses.len(), 2);
    assert_eq!(addresses[0].to_string().to_lowercase(), "00:00:00:00:00:00");
    assert_eq!(addresses[1].to_string().to_lowercase(), "00:00:00:00:00:01");

    // Test reverse order
    let addresses_rev = get_addresses_between(&addr2, &addr1);
    assert_eq!(addresses, addresses_rev);
}

#[test]
fn range_test_get_addresses_between_str() {
    let addresses = get_addresses_between_str("00:00:00:00:00:00", "00:00:00:00:00:01").unwrap();
    assert_eq!(addresses.len(), 2);
    assert_eq!(addresses[0].to_string().to_lowercase(), "00:00:00:00:00:00");
    assert_eq!(addresses[1].to_string().to_lowercase(), "00:00:00:00:00:01");

    // Test invalid
    assert!(get_addresses_between_str("invalid", "00:00:00:00:00:01").is_err());
}

#[test]
fn range_test_get_addresses_between_str_as_strings() {
    let addresses =
        get_addresses_between_str_as_strings("00:00:00:00:00:00", "00:00:00:00:00:01").unwrap();
    assert_eq!(addresses.len(), 2);
    assert_eq!(addresses[0], "00:00:00:00:00:00");
    assert_eq!(addresses[1], "00:00:00:00:00:01");

    // Test invalid
    assert!(get_addresses_between_str_as_strings("invalid", "00:00:00:00:00:01").is_err());
}

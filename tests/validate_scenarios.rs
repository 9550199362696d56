use clia_macaddr::validate::is_valid_mac_addr;

#[test]
fn validate_test_is_valid_mac_addr() {
    assert!(is_valid_mac_addr("aa:bb:cc:dd:ee:ff"));
    assert!(is_valid_mac_addr("AA:BB:CC:DD:EE:FF"));
    assert!(!is_valid_mac_addr("invalid"));
    assert!(!is_valid_mac_addr("aa:bb:cc:dd:ee"));
    assert!(!is_valid_mac_addr("aa:bb:cc:dd:ee:gg"));
}

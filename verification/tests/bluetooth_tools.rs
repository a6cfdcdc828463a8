use tap::bluetooth_tools::{extract_bd_address_from_interface_name, BdAddressError};

#[test]
fn accepts_colon_separated_address() {
    assert_eq!(
        extract_bd_address_from_interface_name("bt-08:BE:AC:4D:34:F2").unwrap(),
        "08:BE:AC:4D:34:F2"
    );
}

#[test]
fn accepts_lowercase_and_no_colons() {
    assert_eq!(
        extract_bd_address_from_interface_name("bt-08beac4d34f2").unwrap(),
        "08:BE:AC:4D:34:F2"
    );
}

#[test]
fn rejects_missing_prefix() {
    assert!(extract_bd_address_from_interface_name("hci1").is_err());
}

#[test]
fn rejects_wrong_length() {
    assert!(extract_bd_address_from_interface_name("bt-08BEAC4D34").is_err());
}

#[test]
fn rejects_non_hex() {
    assert!(extract_bd_address_from_interface_name("bt-ZZBEAC4D34F2").is_err());
}

#[test]
fn missing_prefix_is_reported_as_such() {
    assert_eq!(
        extract_bd_address_from_interface_name("hci1"),
        Err(BdAddressError::MissingPrefix)
    );
    assert_eq!(
        extract_bd_address_from_interface_name("bt"),
        Err(BdAddressError::MissingPrefix)
    );
}

#[test]
fn bad_address_is_reported_as_such() {
    assert_eq!(
        extract_bd_address_from_interface_name("bt-08BEAC4D34"),
        Err(BdAddressError::InvalidAddress)
    );
    assert_eq!(
        extract_bd_address_from_interface_name("bt-"),
        Err(BdAddressError::InvalidAddress)
    );
    assert_eq!(
        extract_bd_address_from_interface_name("bt-08BEAC4D34F2A"),
        Err(BdAddressError::InvalidAddress)
    );
}

#[test]
fn colons_anywhere_are_ignored() {
    assert_eq!(
        extract_bd_address_from_interface_name("bt-:0:8b:ea:c4::d34f2:").unwrap(),
        "08:BE:AC:4D:34:F2"
    );
}

#[test]
fn canonical_address_extracts_to_itself() {
    let first = extract_bd_address_from_interface_name("bt-a1b2c3d4e5f6").unwrap();
    assert_eq!(first, "A1:B2:C3:D4:E5:F6");
    let again = extract_bd_address_from_interface_name(&format!("bt-{}", first)).unwrap();
    assert_eq!(again, first);
}

#[test]
fn only_ascii_hex_digits_are_accepted() {
    // U+FB00 (LATIN SMALL LIGATURE FF) is no hex digit, though it uppercases to "FF".
    assert_eq!(
        extract_bd_address_from_interface_name("bt-\u{FB00}BEAC4D34F2"),
        Err(BdAddressError::InvalidAddress)
    );
    assert_eq!(
        extract_bd_address_from_interface_name("bt-\u{E9}8BEAC4D34F2"),
        Err(BdAddressError::InvalidAddress)
    );
    assert_eq!(
        extract_bd_address_from_interface_name("bt-08BEAC4D34F2G"),
        Err(BdAddressError::InvalidAddress)
    );
}

#[test]
fn colons_and_ascii_case_do_not_matter() {
    let a = extract_bd_address_from_interface_name("bt-08:be:AC4d:34f2");
    let b = extract_bd_address_from_interface_name("bt-08BE:ac:4D:34:F:2");
    assert_eq!(a, b);
    assert_eq!(a.unwrap(), "08:BE:AC:4D:34:F2");
    let bad_a = extract_bd_address_from_interface_name("bt-zz:be:ac:4d:34:f2");
    let bad_b = extract_bd_address_from_interface_name("bt-ZZBEAC4D34F2");
    assert_eq!(bad_a, bad_b);
}

#[test]
fn canonical_address_is_a_fixed_point() {
    let first = extract_bd_address_from_interface_name("bt-08beac4d34f2").unwrap();
    let again = extract_bd_address_from_interface_name(&format!("bt-{}", first)).unwrap();
    assert_eq!(again, first);
}

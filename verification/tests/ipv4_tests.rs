use bgp_router::ipv4::{
    apply_mask, apply_mask_prefix, check_match, divide_prefix, is_valid_mask, netmask_digit,
    netnask_increase, to_decimal, to_ipv4,
};

#[test]
fn decimal_of_dotted_quad() {
    assert_eq!(to_decimal("10.0.0.0"), 0x0A00_0000);
    assert_eq!(to_decimal("192.168.0.2"), 0xC0A8_0002);
    assert_eq!(to_decimal("255.255.255.255"), 0xFFFF_FFFF);
    assert_eq!(to_decimal("0.0.0.0"), 0);
    assert_eq!(to_decimal("8.8.8.8"), 0x0808_0808);
}

#[test]
fn dotted_quad_of_decimal() {
    assert_eq!(to_ipv4(0x0A00_0000), "10.0.0.0");
    assert_eq!(to_ipv4(0xC0A8_0002), "192.168.0.2");
    assert_eq!(to_ipv4(0xFFFF_FFFF), "255.255.255.255");
    assert_eq!(to_ipv4(0), "0.0.0.0");
    assert_eq!(to_ipv4(0xFFFF_FE00), "255.255.254.0");
}

#[test]
fn round_trip_string_to_value_to_string() {
    for s in [
        "10.0.0.0",
        "192.168.0.2",
        "255.255.254.0",
        "0.0.0.0",
        "255.255.255.255",
        "1.2.3.4",
        "172.16.255.1",
    ] {
        assert_eq!(to_ipv4(to_decimal(s)), s);
    }
}

#[test]
fn round_trip_value_to_string_to_value() {
    for n in [0u32, 1, 0x0A00_0100, 0xC0A8_8000, 0xFFFF_FFFF, 0x0102_0304] {
        assert_eq!(to_decimal(&to_ipv4(n)), n);
    }
}

#[test]
fn mask_application() {
    assert_eq!(
        apply_mask(to_decimal("10.0.1.5"), to_decimal("255.255.255.0")),
        to_decimal("10.0.1.0")
    );
    assert_eq!(apply_mask(to_decimal("10.0.1.5"), to_decimal("0.0.0.0")), 0);
}

#[test]
fn mask_prefix_value() {
    // 192.168.128.0 under /19: the top 19 bits as an integer.
    assert_eq!(
        apply_mask_prefix(to_decimal("192.168.128.0"), to_decimal("255.255.224.0")),
        394564
    );
    assert_eq!(
        apply_mask_prefix(to_decimal("10.0.0.0"), to_decimal("255.255.255.0")),
        0x0A0000
    );
    assert_eq!(
        apply_mask_prefix(to_decimal("10.0.1.0"), to_decimal("255.255.255.0")),
        0x0A0001
    );
}

#[test]
fn netmask_digits() {
    assert_eq!(netmask_digit(to_decimal("0.0.0.0")), 0);
    assert_eq!(netmask_digit(to_decimal("255.255.0.0")), 16);
    assert_eq!(netmask_digit(to_decimal("255.255.254.0")), 23);
    assert_eq!(netmask_digit(to_decimal("255.255.255.255")), 32);
}

#[test]
fn netmask_widening() {
    assert_eq!(netnask_increase(to_decimal("255.255.0.0")), to_decimal("255.255.128.0"));
    assert_eq!(netnask_increase(to_decimal("255.255.254.0")), to_decimal("255.255.255.0"));
    assert_eq!(netnask_increase(to_decimal("0.0.0.0")), to_decimal("128.0.0.0"));
}

#[test]
fn prefix_division() {
    let (lo, hi) = divide_prefix(to_decimal("192.168.128.0"), to_decimal("255.255.224.0"));
    assert_eq!(lo, to_decimal("192.168.128.0"));
    assert_eq!(hi, to_decimal("192.168.160.0"));
    // The upper half hands back the same ordered pair.
    let (lo2, hi2) = divide_prefix(to_decimal("192.168.160.0"), to_decimal("255.255.224.0"));
    assert_eq!((lo2, hi2), (lo, hi));
}

#[test]
fn prefix_matching() {
    assert!(check_match(
        to_decimal("10.0.0.0"),
        to_decimal("255.255.255.0"),
        to_decimal("10.0.0.25")
    ));
    assert!(!check_match(
        to_decimal("10.0.0.0"),
        to_decimal("255.255.255.0"),
        to_decimal("10.0.1.25")
    ));
    // A zero-length mask matches everything.
    assert!(check_match(0, 0, to_decimal("8.8.8.8")));
}

#[test]
fn netmask_validity() {
    assert!(is_valid_mask(to_decimal("0.0.0.0")));
    assert!(is_valid_mask(to_decimal("255.255.224.0")));
    assert!(is_valid_mask(to_decimal("255.255.255.255")));
    assert!(!is_valid_mask(to_decimal("255.0.255.0")));
    assert!(!is_valid_mask(to_decimal("0.255.0.0")));
    assert!(!is_valid_mask(1));
}

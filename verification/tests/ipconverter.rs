use fail2ban_stats::ipconverter::ipv4_to_u32;

#[test]
fn test_ipv4_to_u32_valid_ip() {
    assert_eq!(ipv4_to_u32("127.0.0.1").unwrap(), 2130706433);
    assert_eq!(ipv4_to_u32("192.168.1.1").unwrap(), 3232235777);
    assert_eq!(ipv4_to_u32("0.0.0.0").unwrap(), 0);
    assert_eq!(ipv4_to_u32("255.255.255.255").unwrap(), 4294967295);
}

#[test]
fn test_ipv4_to_u32_invalid_ip() {
    assert!(ipv4_to_u32("127.0.0").is_err(), "{}", true);
    assert!(ipv4_to_u32("").is_err());
}

#[test]
fn test_ipv4_to_u32_octet_bounds() {
    assert_eq!(ipv4_to_u32("0.0.0.255").unwrap(), 255);
    assert_eq!(ipv4_to_u32("1.0.0.0").unwrap(), 16777216);
    assert!(ipv4_to_u32("256.0.0.1").is_err());
    assert!(ipv4_to_u32("1.2.3.999").is_err());
}

#[test]
fn test_ipv4_to_u32_shape_errors() {
    assert!(ipv4_to_u32("1.2.3.4.5").is_err());
    assert!(ipv4_to_u32("1..2.3").is_err());
    assert!(ipv4_to_u32(".1.2.3").is_err());
    assert!(ipv4_to_u32("1.2.3.").is_err());
    assert!(ipv4_to_u32("a.b.c.d").is_err());
    assert!(ipv4_to_u32("1.2.3.4x").is_err());
    assert!(ipv4_to_u32("...").is_err());
}

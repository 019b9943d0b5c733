use subnet_calculator::ipv4::Ipv4Addr;

#[test]
fn new_stores_octets_verbatim() {
    let a = Ipv4Addr::new(192, 168, 0, 1);
    assert_eq!(a.octets, [192, 168, 0, 1]);
}

#[test]
fn integer_round_trip() {
    for v in [
        0u32,
        1,
        255,
        256,
        0xC0A8_0001,
        0x7F00_0001,
        0xFFFF_FFFF,
        0x8000_0000,
    ] {
        assert_eq!(Ipv4Addr::from_u32(v).to_u32(), v);
    }
}

#[test]
fn to_u32_packs_big_endian() {
    assert_eq!(Ipv4Addr::new(192, 168, 0, 1).to_u32(), 0xC0A8_0001);
    assert_eq!(Ipv4Addr::new(0, 0, 0, 0).to_u32(), 0);
    assert_eq!(Ipv4Addr::new(255, 255, 255, 255).to_u32(), 0xFFFF_FFFF);
    assert_eq!(Ipv4Addr::new(1, 2, 3, 4).to_u32(), 0x0102_0304);
}

#[test]
fn from_u32_unpacks_big_endian() {
    assert_eq!(Ipv4Addr::from_u32(0xC0A8_0001), Ipv4Addr::new(192, 168, 0, 1));
    assert_eq!(Ipv4Addr::from_u32(0), Ipv4Addr::new(0, 0, 0, 0));
    assert_eq!(Ipv4Addr::from_u32(0xFFFF_FFFF), Ipv4Addr::new(255, 255, 255, 255));
}

#[test]
fn parse_accepts_valid_addresses() {
    assert_eq!(Ipv4Addr::parse("192.168.0.1").unwrap(), Ipv4Addr::new(192, 168, 0, 1));
    assert_eq!(Ipv4Addr::parse("0.0.0.0").unwrap(), Ipv4Addr::new(0, 0, 0, 0));
    assert_eq!(
        Ipv4Addr::parse("255.255.255.255").unwrap(),
        Ipv4Addr::new(255, 255, 255, 255)
    );
    assert_eq!(Ipv4Addr::parse("1.22.333.44").is_ok(), false);
    assert_eq!(Ipv4Addr::parse("10.0.0.42").unwrap(), Ipv4Addr::new(10, 0, 0, 42));
}

#[test]
fn parse_accepts_leading_zeros() {
    // Leading zeros are still an unsigned decimal integer in range.
    assert_eq!(Ipv4Addr::parse("192.168.000.001").unwrap(), Ipv4Addr::new(192, 168, 0, 1));
    assert_eq!(Ipv4Addr::parse("010.0.0.1").unwrap(), Ipv4Addr::new(10, 0, 0, 1));
}

#[test]
fn parse_rejects_wrong_part_count() {
    assert!(Ipv4Addr::parse("192.168.1").is_err());
    assert!(Ipv4Addr::parse("192.168.0.1.5").is_err());
    assert!(Ipv4Addr::parse("192").is_err());
    assert!(Ipv4Addr::parse("").is_err());
    assert!(Ipv4Addr::parse("...").is_err());
    assert!(Ipv4Addr::parse("192.168.0.").is_err());
    assert!(Ipv4Addr::parse(".168.0.1").is_err());
    assert!(Ipv4Addr::parse("1..2.3").is_err());
    assert!(Ipv4Addr::parse("1.2.3.4.").is_err());
    assert!(Ipv4Addr::parse("1.2.3.4.5.6.7.8").is_err());
}

#[test]
fn parse_rejects_out_of_range_components() {
    assert!(Ipv4Addr::parse("192.168.0.256").is_err());
    assert!(Ipv4Addr::parse("300.0.0.1").is_err());
    assert!(Ipv4Addr::parse("1.2.3.99999999999999999999").is_err());
}

#[test]
fn parse_rejects_signs_whitespace_and_garbage() {
    assert!(Ipv4Addr::parse("+192.168.0.1").is_err());
    assert!(Ipv4Addr::parse("-1.168.0.1").is_err());
    assert!(Ipv4Addr::parse(" 192.168.0.1").is_err());
    assert!(Ipv4Addr::parse("192.168.0.1 ").is_err());
    assert!(Ipv4Addr::parse("192. 168.0.1").is_err());
    assert!(Ipv4Addr::parse("a.b.c.d").is_err());
    assert!(Ipv4Addr::parse("192.168.0.x").is_err());
    assert!(Ipv4Addr::parse("192,168,0,1").is_err());
}

#[test]
fn format_is_canonical() {
    assert_eq!(Ipv4Addr::new(192, 168, 0, 1).to_string(), "192.168.0.1");
    assert_eq!(Ipv4Addr::new(0, 0, 0, 0).to_string(), "0.0.0.0");
    assert_eq!(Ipv4Addr::new(255, 255, 255, 255).to_string(), "255.255.255.255");
    assert_eq!(Ipv4Addr::new(1, 20, 3, 40).to_string(), "1.20.3.40");
    assert_eq!(Ipv4Addr::new(10, 100, 200, 9).to_string(), "10.100.200.9");
}

#[test]
fn parse_then_format_round_trip() {
    for s in ["192.168.0.1", "0.0.0.0", "255.255.255.255", "8.8.4.4", "172.16.254.3"] {
        let a = Ipv4Addr::parse(s).unwrap();
        assert_eq!(a.to_string(), s);
    }
    // Non-canonical text parses, and formats back canonically.
    let a = Ipv4Addr::parse("010.000.001.002").unwrap();
    assert_eq!(a.to_string(), "10.0.1.2");
}

#[test]
fn format_then_parse_round_trip() {
    for v in [0u32, 0xC0A8_0001, 0xFFFF_FFFF, 0x0102_0304, 0x0A00_002A] {
        let a = Ipv4Addr::from_u32(v);
        let text = a.to_string();
        assert_eq!(Ipv4Addr::parse(&text).unwrap(), a);
    }
}

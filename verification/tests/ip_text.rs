use pbox_speedtest::ip::{parse_ip, ip_less, IpAddress};

fn v4(a: u32) -> Option<IpAddress> {
    Some(IpAddress::V4(a))
}

fn v6(a: u128) -> Option<IpAddress> {
    Some(IpAddress::V6(a))
}

#[test]
fn ipv4_dotted_decimal() {
    assert_eq!(parse_ip("1.1.1.1"), v4(0x0101_0101));
    assert_eq!(parse_ip("1.0.0.1"), v4(0x0100_0001));
    assert_eq!(parse_ip("255.255.255.255"), v4(0xffff_ffff));
    assert_eq!(parse_ip("0.0.0.0"), v4(0));
    assert_eq!(parse_ip("104.16.132.229"), v4(0x6810_84e5));
}

#[test]
fn ipv4_refusals() {
    assert_eq!(parse_ip(""), None);
    assert_eq!(parse_ip("256.1.1.1"), None);
    assert_eq!(parse_ip("01.1.1.1"), None);
    assert_eq!(parse_ip("1.1.1"), None);
    assert_eq!(parse_ip("1.1.1.1.1"), None);
    assert_eq!(parse_ip("1..1.1"), None);
    assert_eq!(parse_ip(" 1.1.1.1"), None);
    assert_eq!(parse_ip("1.1.1.1 "), None);
    assert_eq!(parse_ip("1.1.1.1000"), None);
    assert_eq!(parse_ip("+1.1.1.1"), None);
    assert_eq!(parse_ip("a.b.c.d"), None);
}

#[test]
fn ipv6_full_and_compressed() {
    assert_eq!(parse_ip("::"), v6(0));
    assert_eq!(parse_ip("::1"), v6(1));
    assert_eq!(parse_ip("1::"), v6(1u128 << 112));
    assert_eq!(parse_ip("2001:db8::1"), v6(0x2001_0db8_0000_0000_0000_0000_0000_0001));
    assert_eq!(parse_ip("1:2:3:4:5:6:7:8"), v6(0x0001_0002_0003_0004_0005_0006_0007_0008));
    assert_eq!(parse_ip("ABCD:ef01::"), v6(0xabcd_ef01_0000_0000_0000_0000_0000_0000));
    assert_eq!(parse_ip("1:2:3:4:5:6:7::"), v6(0x0001_0002_0003_0004_0005_0006_0007_0000));
    assert_eq!(parse_ip("::2:3:4:5:6:7:8"), v6(0x0000_0002_0003_0004_0005_0006_0007_0008));
    assert_eq!(parse_ip("2606:4700:4700::1111"), v6(0x2606_4700_4700_0000_0000_0000_0000_1111));
}

#[test]
fn ipv6_with_ipv4_tail() {
    assert_eq!(parse_ip("::ffff:1.2.3.4"), v6(0xffff_0102_0304));
    assert_eq!(parse_ip("::1.2.3.4"), v6(0x0102_0304));
    assert_eq!(parse_ip("1:2:3:4:5:6:1.2.3.4"), v6(0x0001_0002_0003_0004_0005_0006_0102_0304));
    assert_eq!(parse_ip("1:2:3:4:5:6:7:1.2.3.4"), None);
    assert_eq!(parse_ip("1.2.3.4::"), None);
    assert_eq!(parse_ip("::1.2.3.4:5"), None);
    assert_eq!(parse_ip("1:2:3:4:5:1.2.3.4::"), None);
}

#[test]
fn ipv6_refusals() {
    assert_eq!(parse_ip(":::"), None);
    assert_eq!(parse_ip("1::2::3"), None);
    assert_eq!(parse_ip("12345::"), None);
    assert_eq!(parse_ip("1:2:3:4:5:6:7:8:9"), None);
    assert_eq!(parse_ip("1:2:3:4:5:6:7"), None);
    assert_eq!(parse_ip("1:2:3:4:5:6:7:8::"), None);
    assert_eq!(parse_ip("1::2:3:4:5:6:7:8"), None);
    assert_eq!(parse_ip(":1::"), None);
    assert_eq!(parse_ip("::1:"), None);
    assert_eq!(parse_ip("g::"), None);
    assert_eq!(parse_ip("[::1]"), None);
}

#[test]
fn address_order() {
    let a = IpAddress::V4(5);
    let b = IpAddress::V4(6);
    let c = IpAddress::V6(0);
    assert!(ip_less(&a, &b));
    assert!(!ip_less(&b, &a));
    assert!(!ip_less(&a, &a));
    assert!(ip_less(&b, &c));
    assert!(!ip_less(&c, &a));
    assert!(ip_less(&IpAddress::V6(1), &IpAddress::V6(2)));
}

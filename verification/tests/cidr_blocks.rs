use pbox_speedtest::cidr::{expand_cidr, expand_cidr_v4, expand_cidr_v6, CidrError};
use pbox_speedtest::ip::IpAddress;

#[test]
fn small_v4_block_starts_at_network() {
    let r = expand_cidr("10.0.0.5/30", 10).unwrap();
    let want: Vec<IpAddress> = (4u32..8).map(|i| IpAddress::V4(0x0a00_0000 + i)).collect();
    assert_eq!(r, want);
}

#[test]
fn v4_limit_is_inclusive() {
    let r = expand_cidr("192.168.1.0/20", 4096).unwrap();
    assert_eq!(r.len(), 4096);
    assert_eq!(r[0], IpAddress::V4(0xc0a8_0000));
    assert_eq!(r[4095], IpAddress::V4(0xc0a8_0fff));
    assert_eq!(
        expand_cidr("192.168.1.0/19", 4096),
        Err(CidrError::TooMany { count: 8192, max: 4096 })
    );
}

#[test]
fn v4_single_address_and_trimming() {
    assert_eq!(expand_cidr(" 1.2.3.4 / 32 ", 1), Ok(vec![IpAddress::V4(0x0102_0304)]));
    assert_eq!(expand_cidr_v4(0xffff_ffff, 31, 2), Ok(vec![IpAddress::V4(0xffff_fffe), IpAddress::V4(0xffff_ffff)]));
}

#[test]
fn v4_prefix_out_of_range() {
    assert_eq!(expand_cidr("1.2.3.4/33", 100), Err(CidrError::V4PrefixOutOfRange));
    assert_eq!(expand_cidr_v4(0, 200, 100), Err(CidrError::V4PrefixOutOfRange));
}

#[test]
fn v4_whole_space_is_over_a_small_limit() {
    assert_eq!(
        expand_cidr_v4(0x0102_0304, 0, 4096),
        Err(CidrError::TooMany { count: 1u128 << 32, max: 4096 })
    );
}

#[test]
fn v6_blocks() {
    let r = expand_cidr("2001:db8::7/126", 4).unwrap();
    let base: u128 = 0x2001_0db8_0000_0000_0000_0000_0000_0000;
    assert_eq!(r, (4u128..8).map(|i| IpAddress::V6(base + i)).collect::<Vec<_>>());
    assert_eq!(expand_cidr("::/0", usize::MAX), Err(CidrError::RangeTooLarge));
    assert_eq!(expand_cidr("::/129", 1), Err(CidrError::V6PrefixOutOfRange));
    assert_eq!(expand_cidr_v6(u128::MAX, 128, 1), Ok(vec![IpAddress::V6(u128::MAX)]));
    assert_eq!(
        expand_cidr_v6(1, 64, 4096),
        Err(CidrError::TooMany { count: 1u128 << 64, max: 4096 })
    );
}

#[test]
fn malformed_blocks() {
    assert_eq!(expand_cidr("1.2.3.4", 10), Err(CidrError::Malformed));
    assert_eq!(expand_cidr("x /24", 10), Err(CidrError::InvalidIp("x ".to_string())));
    assert_eq!(expand_cidr("1.2.3.4/ab", 10), Err(CidrError::InvalidPrefix("ab".to_string())));
    assert_eq!(expand_cidr("1.2.3.4/256", 10), Err(CidrError::InvalidPrefix("256".to_string())));
    assert_eq!(expand_cidr("1.2.3.4/", 10), Err(CidrError::InvalidPrefix("".to_string())));
    assert_eq!(expand_cidr("1.2.3.4/+32", 10), Ok(vec![IpAddress::V4(0x0102_0304)]));
    assert_eq!(expand_cidr("1.2.3.4/32/1", 10), Err(CidrError::InvalidPrefix("32/1".to_string())));
}

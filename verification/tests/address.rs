use zerotier_system_service::address::is_cidr_blacklisted;
use zerotier_system_service::address::Cidr;
use zerotier_system_service::address::IpAddress;

fn v4(a: u8, b: u8, c: u8, d: u8) -> IpAddress {
    IpAddress::V4(u32::from_be_bytes([a, b, c, d]))
}

fn v6(groups: [u16; 8]) -> IpAddress {
    let mut value: u128 = 0;
    for g in groups {
        value = (value << 16) | g as u128;
    }
    IpAddress::V6(value)
}

#[test]
fn a_range_holds_the_addresses_that_share_its_leading_bits() {
    let ten = Cidr { network: v4(10, 0, 0, 0), bits: 8 };
    assert!(ten.contains(&v4(10, 0, 0, 5)));
    assert!(ten.contains(&v4(10, 255, 255, 255)));
    assert!(!ten.contains(&v4(11, 0, 0, 0)));
    assert!(!ten.contains(&v4(192, 168, 1, 9)));
}

#[test]
fn a_range_of_odd_length_cuts_inside_a_byte() {
    let range = Cidr { network: v4(192, 168, 1, 8), bits: 29 };
    assert!(range.contains(&v4(192, 168, 1, 8)));
    assert!(range.contains(&v4(192, 168, 1, 15)));
    assert!(!range.contains(&v4(192, 168, 1, 16)));
    assert!(!range.contains(&v4(192, 168, 1, 7)));
}

#[test]
fn a_range_of_full_length_holds_one_address() {
    let one = Cidr { network: v4(203, 0, 113, 1), bits: 32 };
    assert!(one.contains(&v4(203, 0, 113, 1)));
    assert!(!one.contains(&v4(203, 0, 113, 0)));
    assert!(!one.contains(&v4(203, 0, 113, 2)));
}

#[test]
fn a_range_of_length_zero_holds_its_whole_family() {
    let all = Cidr { network: v4(1, 2, 3, 4), bits: 0 };
    assert!(all.contains(&v4(0, 0, 0, 0)));
    assert!(all.contains(&v4(255, 255, 255, 255)));
    assert!(!all.contains(&v6([0, 0, 0, 0, 0, 0, 0, 1])));
    let all6 = Cidr { network: v6([0; 8]), bits: 0 };
    assert!(all6.contains(&v6([0xffff; 8])));
    assert!(!all6.contains(&v4(10, 0, 0, 1)));
}

#[test]
fn a_range_longer_than_its_family_holds_nothing() {
    let too_long = Cidr { network: v4(10, 0, 0, 5), bits: 33 };
    assert!(!too_long.contains(&v4(10, 0, 0, 5)));
    let too_long6 = Cidr { network: v6([1; 8]), bits: 129 };
    assert!(!too_long6.contains(&v6([1; 8])));
}

#[test]
fn families_do_not_mix() {
    let range = Cidr { network: v4(10, 0, 0, 0), bits: 8 };
    assert!(!range.contains(&IpAddress::V6(0x0a00_0000)));
    let range6 = Cidr { network: IpAddress::V6(0x0a00_0000), bits: 8 };
    assert!(!range6.contains(&v4(10, 0, 0, 0)));
}

#[test]
fn ipv6_ranges_go_by_leading_bits_too() {
    let link_local = Cidr { network: v6([0xfe80, 0, 0, 0, 0, 0, 0, 0]), bits: 10 };
    assert!(link_local.contains(&v6([0xfe80, 0, 0, 0, 1, 2, 3, 4])));
    assert!(link_local.contains(&v6([0xfebf, 0xffff, 0, 0, 0, 0, 0, 0])));
    assert!(!link_local.contains(&v6([0xfec0, 0, 0, 0, 0, 0, 0, 0])));
    let host = Cidr { network: v6([0x2001, 0xdb8, 0, 0, 0, 0, 0, 1]), bits: 128 };
    assert!(host.contains(&v6([0x2001, 0xdb8, 0, 0, 0, 0, 0, 1])));
    assert!(!host.contains(&v6([0x2001, 0xdb8, 0, 0, 0, 0, 0, 2])));
}

#[test]
fn an_address_is_blacklisted_if_any_range_holds_it() {
    let ranges = vec![
        Cidr { network: v4(10, 0, 0, 0), bits: 8 },
        Cidr { network: v4(172, 16, 0, 0), bits: 12 },
    ];
    assert!(is_cidr_blacklisted(&v4(10, 1, 2, 3), &ranges));
    assert!(is_cidr_blacklisted(&v4(172, 31, 0, 1), &ranges));
    assert!(!is_cidr_blacklisted(&v4(172, 32, 0, 1), &ranges));
    assert!(!is_cidr_blacklisted(&v4(192, 168, 1, 9), &ranges));
    assert!(!is_cidr_blacklisted(&v4(10, 1, 2, 3), &Vec::new()));
}

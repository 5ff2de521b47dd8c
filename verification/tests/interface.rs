use zerotier_system_service::address::Cidr;
use zerotier_system_service::address::IpAddress;
use zerotier_system_service::interface::LocalInterface;
use zerotier_system_service::interface::SystemAddress;

fn named(name: &str) -> LocalInterface {
    LocalInterface::new(name.to_string())
}

#[test]
fn an_interface_is_known_by_its_name() {
    assert!(named("eth0").same(&named("eth0")));
    assert!(!named("eth0").same(&named("eth1")));
    assert!(!named("eth0").same(&named("eth")));
    assert!(named("eth0").duplicate().same(&named("eth0")));
    assert_eq!(named("wlan0").name, "wlan0");
}

#[test]
fn a_prefix_is_matched_at_the_start_of_the_name_only() {
    let docker = named("docker0");
    assert!(docker.has_prefix(&"docker".to_string()));
    assert!(docker.has_prefix(&"docker0".to_string()));
    assert!(docker.has_prefix(&"".to_string()));
    assert!(!docker.has_prefix(&"docker01".to_string()));
    assert!(!docker.has_prefix(&"ocker".to_string()));
    assert!(!docker.has_prefix(&"Docker".to_string()));
    assert!(!named("eth0").has_prefix(&"docker".to_string()));
}

#[test]
fn a_name_is_blacklisted_if_any_prefix_matches() {
    let prefixes = vec!["docker".to_string(), "veth".to_string()];
    assert!(named("docker0").is_blacklisted(&prefixes));
    assert!(named("veth12ab").is_blacklisted(&prefixes));
    assert!(!named("eth0").is_blacklisted(&prefixes));
    assert!(!named("wlan0").is_blacklisted(&prefixes));
    assert!(!named("docker0").is_blacklisted(&Vec::new()));
}

#[test]
fn names_outside_ascii_are_matched_byte_for_byte() {
    let name = named("ét0");
    assert!(name.has_prefix(&"é".to_string()));
    assert!(!name.has_prefix(&"e".to_string()));
}

#[test]
fn a_pair_qualifies_unless_a_blacklist_excludes_it() {
    let prefixes = vec!["docker".to_string()];
    let ranges = vec![Cidr { network: IpAddress::V4(0x0a00_0000), bits: 8 }];
    let plain = SystemAddress { interface: named("eth0"), address: IpAddress::V4(0xc0a8_0109) };
    let by_name = SystemAddress { interface: named("docker0"), address: IpAddress::V4(0xc0a8_0109) };
    let by_range = SystemAddress { interface: named("eth0"), address: IpAddress::V4(0x0a00_0005) };
    assert!(plain.qualifies(&prefixes, &ranges));
    assert!(!by_name.qualifies(&prefixes, &ranges));
    assert!(!by_range.qualifies(&prefixes, &ranges));
    assert!(by_name.qualifies(&Vec::new(), &ranges));
    assert!(by_range.qualifies(&prefixes, &Vec::new()));
}

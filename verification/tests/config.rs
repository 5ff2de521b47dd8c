use zerotier_system_service::address::Endpoint;
use zerotier_system_service::address::InetAddress;
use zerotier_system_service::address::IpAddress;
use zerotier_system_service::config::Config;
use zerotier_system_service::config::PhysicalPathSettings;
use zerotier_system_service::config::VirtualPathSettings;

fn udp(ip: u32, port: u16) -> Endpoint {
    Endpoint::IpUdp(InetAddress { ip: IpAddress::V4(ip), port })
}

#[test]
fn a_path_without_settings_is_allowed() {
    let config = Config::new();
    assert!(config.check_path(0x1122334455, &udp(0xcb00_7101, 9993), None, None));
    assert!(config.check_path(0x1122334455, &Endpoint::Other(7), None, None));
}

#[test]
fn a_blacklisted_path_is_denied() {
    let mut config = Config::new();
    config.physical.push((udp(0xcb00_7101, 9993), PhysicalPathSettings { blacklist: true }));
    config.physical.push((udp(0xcb00_7102, 9993), PhysicalPathSettings { blacklist: false }));
    assert!(!config.check_path(1, &udp(0xcb00_7101, 9993), None, None));
    assert!(config.check_path(1, &udp(0xcb00_7102, 9993), None, None));
    assert!(config.check_path(1, &udp(0xcb00_7101, 9994), None, None));
    assert!(config.check_path(1, &udp(0xcb00_7103, 9993), None, None));
}

#[test]
fn the_first_entry_of_an_endpoint_counts() {
    let mut config = Config::new();
    config.physical.push((udp(1, 1), PhysicalPathSettings { blacklist: false }));
    config.physical.push((udp(1, 1), PhysicalPathSettings { blacklist: true }));
    assert!(config.check_path(1, &udp(1, 1), None, None));
}

#[test]
fn a_peer_without_settings_has_no_hints() {
    let mut config = Config::new();
    config.virtual_.insert(0xaabbccddee, VirtualPathSettings { try_: vec![udp(1, 2)] });
    assert!(config.get_path_hints(0x1122334455).is_none());
    assert!(Config::new().get_path_hints(0xaabbccddee).is_none());
}

#[test]
fn the_hints_of_a_peer_are_its_endpoints_in_order() {
    let mut config = Config::new();
    config.virtual_.insert(
        0xaabbccddee,
        VirtualPathSettings { try_: vec![udp(0x0a00_0001, 9993), Endpoint::Other(3), udp(0x0a00_0002, 1)] },
    );
    config.virtual_.insert(0x1122334455, VirtualPathSettings { try_: Vec::new() });
    let hints = config.get_path_hints(0xaabbccddee).unwrap();
    assert_eq!(hints.len(), 3);
    assert_eq!(hints[0].0, udp(0x0a00_0001, 9993));
    assert_eq!(hints[1].0, Endpoint::Other(3));
    assert_eq!(hints[2].0, udp(0x0a00_0002, 1));
    for hint in hints.iter() {
        assert!(hint.1.is_none());
        assert!(hint.2.is_none());
    }
    let none = config.get_path_hints(0x1122334455).unwrap();
    assert!(none.is_empty());
}

use zerotier_system_service::address::InetAddress;
use zerotier_system_service::address::IpAddress;
use zerotier_system_service::binding::BindAttempt;
use zerotier_system_service::binding::BindOutcome;
use zerotier_system_service::interface::LocalInterface;
use zerotier_system_service::interface::SystemAddress;
use zerotier_system_service::service::Service;

fn v4(a: u8, b: u8, c: u8, d: u8) -> IpAddress {
    IpAddress::V4(u32::from_be_bytes([a, b, c, d]))
}

#[test]
fn an_ipv4_address_is_written_with_dots() {
    assert_eq!(v4(10, 0, 0, 5).to_string(), "10.0.0.5");
    assert_eq!(v4(192, 168, 1, 9).to_string(), "192.168.1.9");
    assert_eq!(v4(0, 0, 0, 0).to_string(), "0.0.0.0");
    assert_eq!(v4(255, 255, 255, 255).to_string(), "255.255.255.255");
    assert_eq!(v4(203, 0, 113, 100).to_string(), "203.0.113.100");
}

#[test]
fn an_ipv6_address_is_written_in_eight_groups() {
    assert_eq!(IpAddress::V6(1).to_string(), "0:0:0:0:0:0:0:1");
    assert_eq!(IpAddress::V6(0).to_string(), "0:0:0:0:0:0:0:0");
    assert_eq!(
        IpAddress::V6(0xfe80_0000_0000_0000_0a1b_2c3d_4e5f_0060).to_string(),
        "fe80:0:0:0:a1b:2c3d:4e5f:60"
    );
    assert_eq!(IpAddress::V6(u128::MAX).to_string(), "ffff:ffff:ffff:ffff:ffff:ffff:ffff:ffff");
    assert_eq!(
        IpAddress::V6(0x2001_0db8_0000_0001_0010_0100_1000_abcd).to_string(),
        "2001:db8:0:1:10:100:1000:abcd"
    );
}

#[test]
fn an_address_with_port_is_written_with_a_slash() {
    assert_eq!(InetAddress { ip: v4(10, 0, 0, 5), port: 9993 }.to_string(), "10.0.0.5/9993");
    assert_eq!(InetAddress { ip: v4(10, 0, 0, 5), port: 0 }.to_string(), "10.0.0.5/0");
    assert_eq!(InetAddress { ip: v4(1, 2, 3, 4), port: 65535 }.to_string(), "1.2.3.4/65535");
    assert_eq!(InetAddress { ip: IpAddress::V6(1), port: 10 }.to_string(), "0:0:0:0:0:0:0:1/10");
}

#[test]
fn a_reference_is_written_as_the_address_of_its_socket() {
    let mut service = Service::new(0);
    let live = vec![SystemAddress {
        interface: LocalInterface::new("eth0".to_string()),
        address: v4(10, 0, 0, 5),
    }];
    let attempts = vec![BindAttempt {
        interface: LocalInterface::new("eth0".to_string()),
        address: v4(10, 0, 0, 5),
        outcome: BindOutcome::Bound,
    }];
    service.update_udp_bindings_for_port(9993, &Vec::new(), &Vec::new(), &live, &attempts);
    let reference = service.new_local_socket(1).unwrap();
    assert_eq!(reference.to_string(service.sockets()), "10.0.0.5/9993");
    service.update_udp_bindings_for_port(9993, &Vec::new(), &Vec::new(), &Vec::new(), &Vec::new());
    assert_eq!(reference.to_string(service.sockets()), "(closed socket)");
}

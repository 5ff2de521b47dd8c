use zerotier_system_service::address::Endpoint;
use zerotier_system_service::address::InetAddress;
use zerotier_system_service::address::IpAddress;
use zerotier_system_service::binding::BindAttempt;
use zerotier_system_service::binding::BindOutcome;
use zerotier_system_service::interface::LocalInterface;
use zerotier_system_service::interface::SystemAddress;
use zerotier_system_service::paths::fast_path;
use zerotier_system_service::paths::slow_path;
use zerotier_system_service::paths::wire_send;
use zerotier_system_service::send::contains_interface;
use zerotier_system_service::send::Candidate;
use zerotier_system_service::send::SendPolicy;
use zerotier_system_service::send::WireSend;
use zerotier_system_service::service::Service;

const PORT: u16 = 9993;

fn v4(a: u8, b: u8, c: u8, d: u8) -> IpAddress {
    IpAddress::V4(u32::from_be_bytes([a, b, c, d]))
}

fn on(name: &str, address: IpAddress) -> SystemAddress {
    SystemAddress { interface: LocalInterface::new(name.to_string()), address }
}

fn destination() -> Endpoint {
    Endpoint::IpUdp(InetAddress { ip: v4(203, 0, 113, 1), port: PORT })
}

fn bind(service: &mut Service, port: u16, live: &Vec<SystemAddress>) {
    let missing = service.missing_bindings(port, &Vec::new(), &Vec::new(), live);
    let attempts: Vec<BindAttempt> = missing
        .iter()
        .map(|e| BindAttempt {
            interface: e.interface.duplicate(),
            address: e.address,
            outcome: BindOutcome::Bound,
        })
        .collect();
    service.update_udp_bindings_for_port(port, &Vec::new(), &Vec::new(), live, &attempts);
}

/// Port 9993 with sockets 1, 2, 3 on eth0, eth1 and wlan0.
fn three_sockets() -> Service {
    let mut service = Service::new(0);
    bind(
        &mut service,
        PORT,
        &vec![
            on("eth0", v4(10, 0, 0, 5)),
            on("eth1", v4(10, 0, 0, 6)),
            on("wlan0", v4(192, 168, 1, 9)),
        ],
    );
    service
}

/// Ports 9993, 9994 and 9995, each with a socket on eth0 and one on eth1:
/// sockets 1 and 2, 3 and 4, 5 and 6.
fn three_ports() -> Service {
    let mut service = Service::new(0);
    let live = vec![on("eth0", v4(10, 0, 0, 5)), on("eth1", v4(10, 0, 0, 6))];
    bind(&mut service, PORT, &live);
    bind(&mut service, 9994, &live);
    bind(&mut service, 9995, &live);
    service
}

/// Carries a send out against a system that accepts a send exactly on the
/// sockets for which `accepts` says so. Returns the sockets tried, in order,
/// and the result.
fn run(mut send: WireSend, accepts: impl Fn(u64) -> bool) -> (Vec<u64>, bool) {
    let mut tried = Vec::new();
    while let Some(socket) = send.next_socket() {
        tried.push(socket);
        send.record(accepts(socket));
    }
    (tried, send.delivered())
}

fn candidate_ids(send: &WireSend) -> Vec<u64> {
    send.candidates().iter().map(|c: &Candidate| c.socket).collect()
}

#[test]
fn a_broadcast_sends_once_from_each_of_three_interfaces() {
    let service = three_sockets();
    let send = service.wire_send(&destination(), None, None, 0x1234_5678_9abc_def0);
    assert_eq!(send.policy(), SendPolicy::OncePerInterface);
    let (tried, delivered) = run(send, |_| true);
    assert!(delivered);
    assert_eq!(tried.len(), 3);
    assert_eq!(tried, vec![1, 2, 3]);
}

#[test]
fn a_broadcast_begins_with_the_port_that_the_random_number_picks() {
    let service = three_ports();
    let from_first = service.wire_send(&destination(), None, None, 3);
    assert_eq!(candidate_ids(&from_first), vec![1, 2, 3, 4, 5, 6]);
    let from_second = service.wire_send(&destination(), None, None, 4);
    assert_eq!(candidate_ids(&from_second), vec![3, 4, 5, 6, 1, 2]);
    let from_third = service.wire_send(&destination(), None, None, 5);
    assert_eq!(candidate_ids(&from_third), vec![5, 6, 1, 2, 3, 4]);
    let wrapped = service.wire_send(&destination(), None, None, u64::MAX);
    assert_eq!(candidate_ids(&wrapped), vec![1, 2, 3, 4, 5, 6]);
    // Over repeated calls every port is the source port at some time.
    let mut first_sockets = Vec::new();
    for rn in 0..3u64 {
        let (tried, delivered) = run(service.wire_send(&destination(), None, None, rn), |_| true);
        assert!(delivered);
        first_sockets.push(tried[0]);
    }
    assert_eq!(first_sockets, vec![1, 3, 5]);
}

#[test]
fn a_broadcast_sends_at_most_once_per_interface_across_ports() {
    let service = three_ports();
    let (tried, delivered) = run(service.wire_send(&destination(), None, None, 1), |_| true);
    assert!(delivered);
    // The second port comes first; its two sockets serve both interfaces.
    assert_eq!(tried, vec![3, 4]);
}

#[test]
fn a_broadcast_tries_the_next_port_for_an_interface_that_refused() {
    let service = three_ports();
    // eth0 refuses on the first port only, eth1 on the first two.
    let (tried, delivered) =
        run(service.wire_send(&destination(), None, None, 0), |socket| socket == 3 || socket == 6);
    assert!(delivered);
    assert_eq!(tried, vec![1, 2, 3, 4, 6]);
}

#[test]
fn a_broadcast_that_is_refused_everywhere_fails_after_trying_every_socket() {
    let service = three_ports();
    let (tried, delivered) = run(service.wire_send(&destination(), None, None, 2), |_| false);
    assert!(!delivered);
    assert_eq!(tried, vec![5, 6, 1, 2, 3, 4]);
}

#[test]
fn a_broadcast_without_sockets_fails_without_trying() {
    let service = Service::new(1);
    let (tried, delivered) = run(service.wire_send(&destination(), None, None, 99), |_| true);
    assert!(!delivered);
    assert!(tried.is_empty());

    // A port to which nothing could be bound does not help.
    let mut service = Service::new(1);
    bind(&mut service, PORT, &Vec::new());
    let (tried, delivered) = run(service.wire_send(&destination(), None, None, 99), |_| true);
    assert!(!delivered);
    assert!(tried.is_empty());
}

#[test]
fn a_send_from_one_interface_stops_at_the_first_success() {
    let service = three_ports();
    let eth1 = LocalInterface::new("eth1".to_string());
    let send = service.wire_send(&destination(), None, Some(&eth1), 77);
    assert_eq!(send.policy(), SendPolicy::FirstSuccess);
    // The random number plays no part here.
    assert_eq!(candidate_ids(&send), vec![2, 4, 6]);
    let (tried, delivered) = run(send, |socket| socket == 4);
    assert!(delivered);
    assert_eq!(tried, vec![2, 4]);

    let (tried, delivered) =
        run(service.wire_send(&destination(), None, Some(&eth1), 0), |_| false);
    assert!(!delivered);
    assert_eq!(tried, vec![2, 4, 6]);
}

#[test]
fn a_send_from_an_interface_without_sockets_fails() {
    let service = three_ports();
    let wlan0 = LocalInterface::new("wlan0".to_string());
    let (tried, delivered) =
        run(service.wire_send(&destination(), None, Some(&wlan0), 0), |_| true);
    assert!(!delivered);
    assert!(tried.is_empty());
}

#[test]
fn the_fast_path_sends_on_the_remembered_socket_only() {
    let mut service = three_ports();
    let reference = service.new_local_socket(4).unwrap();
    let eth0 = LocalInterface::new("eth0".to_string());
    // The interface is not looked at when a reference is given.
    let send = service.wire_send(&destination(), Some(&reference), Some(&eth0), 5);
    assert_eq!(send.policy(), SendPolicy::FirstSuccess);
    assert_eq!(candidate_ids(&send), vec![4]);
    let (tried, delivered) = run(send, |_| true);
    assert!(delivered);
    assert_eq!(tried, vec![4]);

    let (tried, delivered) =
        run(service.wire_send(&destination(), Some(&reference), None, 5), |_| false);
    assert!(!delivered);
    assert_eq!(tried, vec![4]);
}

#[test]
fn a_stale_reference_fails_without_falling_back() {
    let mut service = three_sockets();
    let reference = service.new_local_socket(2).unwrap();
    bind(
        &mut service,
        PORT,
        &vec![on("eth0", v4(10, 0, 0, 5)), on("wlan0", v4(192, 168, 1, 9))],
    );
    let (tried, delivered) =
        run(service.wire_send(&destination(), Some(&reference), None, 0), |_| true);
    assert!(!delivered);
    assert!(tried.is_empty());
}

#[test]
fn the_fast_path_needs_no_table() {
    let service = three_sockets();
    let socket = service.sockets().resolve(3).unwrap().duplicate();
    let (tried, delivered) = run(fast_path(&destination(), Some(&socket)), |_| true);
    assert!(delivered);
    assert_eq!(tried, vec![3]);
    let (tried, delivered) = run(fast_path(&destination(), None), |_| true);
    assert!(!delivered);
    assert!(tried.is_empty());
    let (tried, delivered) = run(fast_path(&Endpoint::Other(1), Some(&socket)), |_| true);
    assert!(!delivered);
    assert!(tried.is_empty());
}

#[test]
fn only_udp_endpoints_can_be_sent_to() {
    let mut service = three_sockets();
    let reference = service.new_local_socket(1).unwrap();
    let eth0 = LocalInterface::new("eth0".to_string());
    let other = Endpoint::Other(42);
    for send in [
        service.wire_send(&other, None, None, 0),
        service.wire_send(&other, None, Some(&eth0), 0),
        service.wire_send(&other, Some(&reference), None, 0),
        slow_path(service.sockets(), &other, None, 0),
    ] {
        let (tried, delivered) = run(send, |_| true);
        assert!(!delivered);
        assert!(tried.is_empty());
    }
}

#[test]
fn two_sockets_of_one_interface_on_one_port_send_once() {
    let mut service = Service::new(0);
    bind(
        &mut service,
        PORT,
        &vec![
            on("eth0", v4(10, 0, 0, 5)),
            on("eth0", v4(10, 0, 0, 7)),
            on("eth1", v4(10, 0, 0, 6)),
        ],
    );
    let (tried, delivered) = run(service.wire_send(&destination(), None, None, 0), |_| true);
    assert!(delivered);
    assert_eq!(tried, vec![1, 3]);
    let (tried, delivered) =
        run(service.wire_send(&destination(), None, None, 0), |socket| socket != 1);
    assert!(delivered);
    assert_eq!(tried, vec![1, 2, 3]);
}

#[test]
fn asking_again_before_the_outcome_names_the_same_socket() {
    let service = three_sockets();
    let mut send = service.wire_send(&destination(), None, None, 0);
    assert_eq!(send.next_socket(), Some(1));
    assert_eq!(send.next_socket(), Some(1));
    assert!(!send.delivered());
    send.record(false);
    assert!(!send.delivered());
    assert_eq!(send.next_socket(), Some(2));
    send.record(true);
    assert!(send.delivered());
    assert_eq!(send.next_socket(), Some(3));
    send.record(false);
    assert_eq!(send.next_socket(), None);
    assert_eq!(send.next_socket(), None);
    assert!(send.delivered());
}

#[test]
fn an_outcome_that_nobody_asked_for_is_ignored() {
    let service = three_sockets();
    let mut send = service.wire_send(&destination(), None, None, 0);
    send.record(true);
    assert!(!send.delivered());
    assert_eq!(send.next_socket(), Some(1));
    send.record(true);
    send.record(false);
    assert_eq!(send.next_socket(), Some(2));
}

#[test]
fn a_send_can_be_made_from_any_list_of_candidates() {
    let candidates = vec![
        Candidate { socket: 10, interface: LocalInterface::new("a".to_string()) },
        Candidate { socket: 11, interface: LocalInterface::new("b".to_string()) },
        Candidate { socket: 12, interface: LocalInterface::new("a".to_string()) },
        Candidate { socket: 13, interface: LocalInterface::new("b".to_string()) },
    ];
    let (tried, delivered) =
        run(WireSend::new(candidates, SendPolicy::OncePerInterface), |socket| socket != 11);
    assert!(delivered);
    assert_eq!(tried, vec![10, 11, 13]);
}

#[test]
fn an_interface_is_found_in_a_list_by_its_name() {
    let list = vec![LocalInterface::new("eth0".to_string()), LocalInterface::new("wlan0".to_string())];
    assert!(contains_interface(&list, &LocalInterface::new("wlan0".to_string())));
    assert!(contains_interface(&list, &LocalInterface::new("eth0".to_string())));
    assert!(!contains_interface(&list, &LocalInterface::new("eth1".to_string())));
    assert!(!contains_interface(&Vec::new(), &LocalInterface::new("eth0".to_string())));
}

#[test]
fn the_selector_can_be_used_on_a_table_alone() {
    let mut service = three_ports();
    let reference = service.new_local_socket(5).unwrap();
    let table = service.sockets();
    let (tried, delivered) = run(wire_send(table, &destination(), Some(&reference), None, 0), |_| true);
    assert!(delivered);
    assert_eq!(tried, vec![5]);
    let (tried, delivered) = run(wire_send(table, &destination(), None, None, 7), |_| true);
    assert!(delivered);
    assert_eq!(tried, vec![3, 4]);
}

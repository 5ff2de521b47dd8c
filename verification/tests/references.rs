use zerotier_system_service::address::Endpoint;
use zerotier_system_service::address::InetAddress;
use zerotier_system_service::address::IpAddress;
use zerotier_system_service::binding::BindAttempt;
use zerotier_system_service::binding::BindOutcome;
use zerotier_system_service::interface::LocalInterface;
use zerotier_system_service::interface::SystemAddress;
use zerotier_system_service::service::Service;
use zerotier_system_service::socket::next_identity;
use zerotier_system_service::workers::WorkerStep;

const PORT: u16 = 9993;

fn on(name: &str, last: u8) -> SystemAddress {
    SystemAddress {
        interface: LocalInterface::new(name.to_string()),
        address: IpAddress::V4(u32::from_be_bytes([10, 0, 0, last])),
    }
}

fn reconcile(service: &mut Service, live: &Vec<SystemAddress>) {
    let missing = service.missing_bindings(PORT, &Vec::new(), &Vec::new(), live);
    let attempts: Vec<BindAttempt> = missing
        .iter()
        .map(|e| BindAttempt {
            interface: e.interface.duplicate(),
            address: e.address,
            outcome: BindOutcome::Bound,
        })
        .collect();
    service.update_udp_bindings_for_port(PORT, &Vec::new(), &Vec::new(), live, &attempts);
}

/// A service with socket 1 on eth0 and socket 2 on eth1, without workers.
fn two_sockets() -> Service {
    let mut service = Service::new(0);
    reconcile(&mut service, &vec![on("eth0", 5), on("eth1", 6)]);
    service
}

#[test]
fn two_references_to_one_socket_are_unequal() {
    let mut service = two_sockets();
    let first = service.new_local_socket(1).unwrap();
    let second = service.new_local_socket(1).unwrap();
    assert!(first != second);
    assert_ne!(first.unique_id(), second.unique_id());
    assert_eq!(first.unique_id(), 1);
    assert_eq!(second.unique_id(), 2);
    assert_eq!(first.target(), second.target());
    let a = first.socket(service.sockets()).unwrap();
    let b = second.socket(service.sockets()).unwrap();
    assert_eq!(a.id, 1);
    assert_eq!(b.id, 1);
}

#[test]
fn a_copy_of_a_reference_is_equal_to_it() {
    let mut service = two_sockets();
    let first = service.new_local_socket(2).unwrap();
    let copy = service.clone_local_socket(&first).unwrap();
    assert!(first == copy);
    assert_eq!(copy.unique_id(), first.unique_id());
    assert_eq!(copy.target(), 2);
}

#[test]
fn equality_goes_by_identity_and_not_by_target() {
    let mut service = two_sockets();
    let to_first = service.new_local_socket(1).unwrap();
    let to_second = service.new_local_socket(2).unwrap();
    let again = service.new_local_socket(1).unwrap();
    assert!(to_first != to_second);
    assert!(to_first != again);
}

#[test]
fn there_is_no_reference_to_a_socket_that_does_not_exist() {
    let mut service = two_sockets();
    assert!(service.new_local_socket(3).is_none());
    assert!(service.new_local_socket(0).is_none());
    // A refused reference uses up no identity.
    assert_eq!(service.new_local_socket(1).unwrap().unique_id(), 1);
}

#[test]
fn resolution_fails_after_the_socket_is_removed() {
    let mut service = two_sockets();
    let to_eth0 = service.new_local_socket(1).unwrap();
    let to_eth1 = service.new_local_socket(2).unwrap();
    assert!(service.local_socket_is_valid(&to_eth0));
    assert!(service.local_socket_is_valid(&to_eth1));

    reconcile(&mut service, &vec![on("eth1", 6)]);
    assert!(!service.local_socket_is_valid(&to_eth0));
    assert!(to_eth0.socket(service.sockets()).is_none());
    assert!(!to_eth0.in_use(service.sockets()));
    // The reference to the other socket is untouched.
    assert!(service.local_socket_is_valid(&to_eth1));
    assert_eq!(to_eth1.socket(service.sockets()).unwrap().interface.name, "eth1");
}

#[test]
fn a_stale_reference_stays_stale_when_the_interface_comes_back() {
    let mut service = two_sockets();
    let old = service.new_local_socket(1).unwrap();
    reconcile(&mut service, &vec![on("eth1", 6)]);
    reconcile(&mut service, &vec![on("eth0", 5), on("eth1", 6)]);
    assert!(!service.local_socket_is_valid(&old));
    let new_socket = service.sockets().get(PORT).unwrap().sockets()[1].id;
    assert_eq!(new_socket, 3);
    let fresh = service.new_local_socket(new_socket).unwrap();
    assert!(service.local_socket_is_valid(&fresh));
    assert!(fresh != old);
}

#[test]
fn a_reference_is_in_use_while_another_one_is_held() {
    let mut service = two_sockets();
    let first = service.new_local_socket(1).unwrap();
    assert!(!first.in_use(service.sockets()));
    let copy = service.clone_local_socket(&first).unwrap();
    assert!(first.in_use(service.sockets()));
    assert!(copy.in_use(service.sockets()));
    assert_eq!(first.socket(service.sockets()).unwrap().references, 2);
    service.drop_local_socket(copy);
    assert!(!first.in_use(service.sockets()));
    service.drop_local_socket(first);
    assert_eq!(service.sockets().resolve(1).unwrap().references, 0);
    // References to the other socket were never counted here.
    assert_eq!(service.sockets().resolve(2).unwrap().references, 0);
}

#[test]
fn giving_up_a_stale_reference_changes_nothing() {
    let mut service = two_sockets();
    let stale = service.new_local_socket(1).unwrap();
    let kept = service.new_local_socket(2).unwrap();
    reconcile(&mut service, &vec![on("eth1", 6)]);
    let copy = service.clone_local_socket(&stale).unwrap();
    assert!(copy == stale);
    service.drop_local_socket(stale);
    service.drop_local_socket(copy);
    assert_eq!(kept.socket(service.sockets()).unwrap().references, 1);
}

#[test]
fn workers_and_references_take_their_identities_from_one_counter() {
    let mut service = Service::new(2);
    reconcile(&mut service, &vec![on("eth0", 5)]);
    // The workers hold no reference to their socket.
    assert_eq!(service.sockets().resolve(1).unwrap().references, 0);
    // The next reference takes the identity after those of the workers.
    let next = service.new_local_socket(1).unwrap();
    assert_eq!(next.unique_id(), 3);
    assert!(!next.in_use(service.sockets()));
}

#[test]
fn every_packet_comes_with_a_reference_of_its_own() {
    let mut service = two_sockets();
    let sender = InetAddress { ip: IpAddress::V4(0xcb00_7101), port: 40000 };
    let mut seen = Vec::new();
    for round in 0..3u64 {
        match service.after_receive(2, Some((100, sender)), 1500) {
            WorkerStep::Deliver { source, length, local_socket } => {
                assert_eq!(source, Endpoint::IpUdp(sender));
                assert_eq!(length, 100);
                assert_eq!(local_socket.target(), 2);
                assert_eq!(local_socket.unique_id(), 1 + round);
                assert_eq!(local_socket.socket(service.sockets()).unwrap().interface.name, "eth1");
                seen.push(local_socket);
            }
            WorkerStep::Stop => panic!("a received packet was not delivered"),
        }
    }
    assert!(seen[0] != seen[1]);
    assert!(seen[1] != seen[2]);
    assert!(seen[0] != seen[2]);
    // The references are counted with their socket.
    assert_eq!(service.sockets().resolve(2).unwrap().references, 3);
    assert!(seen[0].in_use(service.sockets()));
    // A failed receive stops the worker and uses up no identity.
    assert!(matches!(service.after_receive(2, None, 1500), WorkerStep::Stop));
    assert_eq!(service.new_local_socket(1).unwrap().unique_id(), 4);
}

#[test]
fn a_packet_on_a_released_socket_comes_with_a_stale_reference() {
    let mut service = two_sockets();
    reconcile(&mut service, &vec![on("eth1", 6)]);
    let sender = InetAddress { ip: IpAddress::V4(0xcb00_7101), port: 40000 };
    match service.after_receive(1, Some((10, sender)), 1500) {
        WorkerStep::Deliver { local_socket, .. } => {
            assert_eq!(local_socket.target(), 1);
            assert!(!service.local_socket_is_valid(&local_socket));
        }
        WorkerStep::Stop => panic!("a received packet was not delivered"),
    }
}

#[test]
fn all_references_are_stale_after_shutdown() {
    let mut service = two_sockets();
    let a = service.new_local_socket(1).unwrap();
    let b = service.new_local_socket(2).unwrap();
    service.shutdown();
    assert!(!service.local_socket_is_valid(&a));
    assert!(!service.local_socket_is_valid(&b));
    assert!(service.sockets().find_socket(1).is_none());
}

#[test]
fn a_socket_is_found_where_it_stands() {
    let service = two_sockets();
    assert_eq!(service.sockets().find_socket(1), Some((0, 0)));
    assert_eq!(service.sockets().find_socket(2), Some((0, 1)));
    assert_eq!(service.sockets().find_socket(3), None);
}

#[test]
fn identities_count_up_and_wrap_around() {
    assert_eq!(next_identity(0), 1);
    assert_eq!(next_identity(41), 42);
    assert_eq!(next_identity(u64::MAX - 1), u64::MAX);
    assert_eq!(next_identity(u64::MAX), 0);
}

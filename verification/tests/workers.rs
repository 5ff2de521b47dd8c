use zerotier_system_service::address::Endpoint;
use zerotier_system_service::address::InetAddress;
use zerotier_system_service::address::IpAddress;
use zerotier_system_service::interface::LocalInterface;
use zerotier_system_service::socket::BoundUdpSocket;
use zerotier_system_service::workers::after_receive;
use zerotier_system_service::workers::assign_workers;
use zerotier_system_service::workers::WorkerStep;

fn sender() -> InetAddress {
    InetAddress { ip: IpAddress::V4(0xcb00_7101), port: 40000 }
}

/// The endpoint, the length, and the target and identity of the reference
/// of a delivery.
fn delivery(step: WorkerStep) -> Option<(Endpoint, usize, u64, u64)> {
    match step {
        WorkerStep::Deliver { source, length, local_socket } => {
            Some((source, length, local_socket.target(), local_socket.unique_id()))
        }
        WorkerStep::Stop => None,
    }
}

#[test]
fn a_received_packet_is_delivered_with_its_length_and_sender() {
    let mut counter = 10u64;
    assert_eq!(
        delivery(after_receive(7, &mut counter, Some((1200, sender())), 16384)),
        Some((Endpoint::IpUdp(sender()), 1200, 7, 10))
    );
    assert_eq!(
        delivery(after_receive(7, &mut counter, Some((0, sender())), 16384)),
        Some((Endpoint::IpUdp(sender()), 0, 7, 11))
    );
    assert_eq!(counter, 12);
}

#[test]
fn every_packet_gets_a_reference_with_the_next_identity() {
    let mut counter = u64::MAX - 1;
    let mut identities = Vec::new();
    for _ in 0..4 {
        let (_, _, target, identity) =
            delivery(after_receive(3, &mut counter, Some((64, sender())), 1500)).unwrap();
        assert_eq!(target, 3);
        identities.push(identity);
    }
    assert_eq!(identities, vec![u64::MAX - 1, u64::MAX, 0, 1]);
    assert_eq!(counter, 2);
}

#[test]
fn a_packet_is_never_longer_than_the_buffer() {
    let mut counter = 0u64;
    assert_eq!(
        delivery(after_receive(1, &mut counter, Some((16384, sender())), 16384)),
        Some((Endpoint::IpUdp(sender()), 16384, 1, 0))
    );
    assert_eq!(
        delivery(after_receive(1, &mut counter, Some((20000, sender())), 16384)),
        Some((Endpoint::IpUdp(sender()), 16384, 1, 1))
    );
}

#[test]
fn a_failed_receive_stops_the_worker() {
    let mut counter = 5u64;
    assert!(matches!(after_receive(1, &mut counter, None, 16384), WorkerStep::Stop));
    assert!(matches!(after_receive(1, &mut counter, None, 0), WorkerStep::Stop));
    assert_eq!(counter, 5);
}

#[test]
fn the_workers_of_a_socket_take_consecutive_identities() {
    let socket = BoundUdpSocket {
        id: 9,
        interface: LocalInterface::new("eth0".to_string()),
        address: sender(),
        tasks: Vec::new(),
        references: 0,
    };
    let mut workers = Vec::new();
    let (tasks, next) = assign_workers(&socket, 100, 3, &mut workers);
    assert_eq!(tasks, vec![100, 101, 102]);
    assert_eq!(next, 103);
    assert_eq!(workers.len(), 3);
    for (k, worker) in workers.iter().enumerate() {
        assert_eq!(worker.id, 100 + k as u64);
        assert_eq!(worker.socket, 9);
        assert_eq!(worker.interface.name, "eth0");
    }
    // The counter wraps around.
    let (tasks, next) = assign_workers(&socket, u64::MAX, 2, &mut workers);
    assert_eq!(tasks, vec![u64::MAX, 0]);
    assert_eq!(next, 1);
    assert_eq!(workers.len(), 5);
    // A socket may have no workers at all.
    let (tasks, next) = assign_workers(&socket, 7, 0, &mut workers);
    assert!(tasks.is_empty());
    assert_eq!(next, 7);
    assert_eq!(workers.len(), 5);
}

//! Receive workers: the readers that are started for every new socket, and
//! what a worker does with each packet that arrives.

use vstd::prelude::*;
use crate::address::Endpoint;
use crate::address::InetAddress;
use crate::interface::LocalInterface;
use crate::socket::identity_after;
use crate::socket::lemma_identity_steps;
use crate::socket::next_identity;
use crate::socket::BoundUdpSocket;
use crate::socket::LocalSocket;
use crate::socket::SocketView;

verus! {

/// A receive worker to start: its own identity, by which it is cancelled
/// later, the socket it reads from, and the interface that the socket is
/// bound to.
#[derive(Debug)]
pub struct ReceiveWorker {
    pub id: u64,
    pub socket: u64,
    pub interface: LocalInterface,
}

/// A receive worker as a mathematical value.
pub struct WorkerView {
    pub id: u64,
    pub socket: u64,
    pub interface: Seq<char>,
}

impl View for ReceiveWorker {
    type V = WorkerView;

    open spec fn view(&self) -> WorkerView {
        WorkerView { id: self.id, socket: self.socket, interface: self.interface@ }
    }
}

/// The workers that a list stands for.
pub open spec fn workers_of(list: Seq<ReceiveWorker>) -> Seq<WorkerView> {
    list.map_values(|w: ReceiveWorker| w@)
}

/// The identities of `count` workers, the first of which is `first`.
pub open spec fn worker_ids(first: u64, count: nat) -> Seq<u64> {
    Seq::new(count, |k: int| identity_after(first, k as nat))
}

/// The `count` workers of a socket, the first of which has the identity
/// `first`.
pub open spec fn socket_workers(socket: SocketView, first: u64, count: nat) -> Seq<WorkerView> {
    Seq::new(
        count,
        |k: int|
            WorkerView {
                id: identity_after(first, k as nat),
                socket: socket.id,
                interface: socket.interface,
            },
    )
}

/// The socket once its `count` workers are started: they are its tasks.
pub open spec fn staffed(socket: SocketView, first: u64, count: nat) -> SocketView {
    SocketView { tasks: worker_ids(first, count), ..socket }
}

/// Makes the `count` workers of a socket and adds them to `workers`.
/// Returns their identities and the identity to give out next.
pub fn assign_workers(
    socket: &BoundUdpSocket,
    first: u64,
    count: usize,
    workers: &mut Vec<ReceiveWorker>,
) -> (assigned: (Vec<u64>, u64))
    ensures
        assigned.0@ == worker_ids(first, count as nat),
        assigned.1 == identity_after(first, count as nat),
        workers_of(final(workers)@) == workers_of(old(workers)@) + socket_workers(
            socket@,
            first,
            count as nat,
        ),
{
    let ghost start = workers_of(workers@);
    let mut tasks: Vec<u64> = Vec::new();
    let mut id: u64 = first;
    let mut k: usize = 0;
    proof {
        lemma_identity_steps(first, 0, 0);
        assert(tasks@ =~= worker_ids(first, 0));
        assert(workers_of(workers@) =~= start + socket_workers(socket@, first, 0));
    }
    while k < count
        invariant
            0 <= k <= count,
            id == identity_after(first, k as nat),
            tasks@ == worker_ids(first, k as nat),
            workers_of(workers@) == start + socket_workers(socket@, first, k as nat),
        decreases count - k,
    {
        let ghost before = workers_of(workers@);
        let ghost ids = tasks@;
        tasks.push(id);
        workers.push(
            ReceiveWorker { id, socket: socket.id, interface: socket.interface.duplicate() },
        );
        proof {
            lemma_identity_steps(first, k as nat, 1);
            assert(tasks@ =~= worker_ids(first, (k + 1) as nat));
            let w = WorkerView { id, socket: socket@.id, interface: socket@.interface };
            assert(workers_of(workers@) =~= before.push(w));
            assert(before.push(w) =~= start + socket_workers(socket@, first, (k + 1) as nat));
        }
        id = next_identity(id);
        k = k + 1;
    }
    (tasks, id)
}

/// What a receive worker does after a receive has ended.
#[derive(Debug)]
pub enum WorkerStep {
    /// Hand the first `length` bytes of the buffer to the overlay core, as
    /// a packet from `source` that arrived on `local_socket`, then receive
    /// again.
    Deliver { source: Endpoint, length: usize, local_socket: LocalSocket },
    /// Stop for good: the socket is taken to be closed.
    Stop,
}

/// What a worker that reads from `socket` does after a receive into a
/// buffer of `capacity` bytes has ended: `received` holds the number of
/// bytes and the sender's address if the receive succeeded, and nothing if
/// it failed.
///
/// Every packet is delivered with a reference of its own to the socket it
/// arrived on. The reference is made anew for the packet and takes the next
/// identity of `counter`, so that no two packets come with equal
/// references. A failed receive is not tried again, and uses up no
/// identity.
pub fn after_receive(
    socket: u64,
    counter: &mut u64,
    received: Option<(usize, InetAddress)>,
    capacity: usize,
) -> (step: WorkerStep)
    ensures
        received is None ==> step is Stop && *final(counter) == *old(counter),
        received matches Some(packet) ==> {
            &&& step is Deliver
            &&& step->source == Endpoint::IpUdp(packet.1)
            &&& step->length == if packet.0 <= capacity {
                packet.0
            } else {
                capacity
            }
            &&& step->local_socket.spec_target() == socket
            &&& step->local_socket.spec_unique_id() == *old(counter)
            &&& *final(counter) == identity_after(*old(counter), 1)
        },
{
    match received {
        Some((bytes, sender)) => {
            let local_socket = LocalSocket::new(socket, *counter);
            *counter = next_identity(*counter);
            WorkerStep::Deliver {
                source: Endpoint::IpUdp(sender),
                length: if bytes <= capacity {
                    bytes
                } else {
                    capacity
                },
                local_socket,
            }
        },
        None => WorkerStep::Stop,
    }
}

} // verus!

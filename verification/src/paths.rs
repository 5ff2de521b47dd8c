//! The sockets that an outbound datagram may leave from: the fast path
//! through a remembered socket reference, and the slow path across the
//! socket table.

use vstd::prelude::*;
use crate::address::Endpoint;
use crate::binding::PortView;
use crate::interface::LocalInterface;
use crate::send::Candidate;
use crate::send::candidates_of;
use crate::send::CandidateView;
use crate::send::SendPolicy;
use crate::send::SendView;
use crate::send::WireSend;
use crate::socket::BoundUdpSocket;
use crate::socket::LocalSocket;
use crate::socket::sockets_of;
use crate::socket::SocketView;
use crate::table::ports_of;
use crate::table::SocketTable;
use crate::table::TableView;

verus! {

/// The socket as a candidate for sending.
pub open spec fn candidate(socket: SocketView) -> CandidateView {
    CandidateView { socket: socket.id, interface: socket.interface }
}

/// Whether a socket comes into question: with an interface asked for, only
/// the sockets bound to it do.
pub open spec fn selected(socket: SocketView, only: Option<Seq<char>>) -> bool {
    only matches Some(name) ==> socket.interface == name
}

/// The name of the interface asked for, if one is.
pub open spec fn name_of(only: Option<&LocalInterface>) -> Option<Seq<char>> {
    match only {
        Some(interface) => Some(interface@),
        None => None,
    }
}

/// The sockets of the list that come into question, in order.
pub open spec fn socket_candidates(sockets: Seq<SocketView>, only: Option<Seq<char>>) -> Seq<
    CandidateView,
>
    decreases sockets.len(),
{
    if sockets.len() == 0 {
        Seq::empty()
    } else {
        let before = socket_candidates(sockets.drop_last(), only);
        if selected(sockets.last(), only) {
            before.push(candidate(sockets.last()))
        } else {
            before
        }
    }
}

/// The sockets of the ports that come into question, port after port.
pub open spec fn port_candidates(ports: Seq<PortView>, only: Option<Seq<char>>) -> Seq<
    CandidateView,
>
    decreases ports.len(),
{
    if ports.len() == 0 {
        Seq::empty()
    } else {
        port_candidates(ports.drop_last(), only) + socket_candidates(ports.last().sockets, only)
    }
}

/// The ports in their order, beginning with the one at `start` and going
/// round.
pub open spec fn rotated(ports: Seq<PortView>, start: int) -> Seq<PortView> {
    ports.subrange(start, ports.len() as int) + ports.subrange(0, start)
}

/// The port that a send begins with, chosen by a random number.
pub open spec fn start_of(rn: u64, ports: nat) -> int {
    if ports == 0 {
        0
    } else {
        rn as int % ports as int
    }
}

/// The send that is set up for a datagram: its candidates, in the order in
/// which they are tried, and its policy.
///
/// Only a UDP endpoint can be sent to. With a socket reference, the socket
/// that it points at is the one candidate, and there is none if that socket
/// is gone. Without a reference but with an interface, the candidates are
/// the sockets bound to that interface, and the first accepted send ends
/// the matter. With neither, every socket is a candidate, the ports are
/// gone through beginning with a random one, and one send goes out of each
/// interface.
pub open spec fn send_plan(
    table: TableView,
    endpoint: Endpoint,
    local_socket: Option<u64>,
    local_interface: Option<Seq<char>>,
    rn: u64,
) -> SendView {
    match endpoint {
        Endpoint::IpUdp(_) => match local_socket {
            Some(target) => SendView::fresh(
                if table.alive(target) {
                    seq![candidate(table.socket(target))]
                } else {
                    Seq::empty()
                },
                SendPolicy::FirstSuccess,
            ),
            None => match local_interface {
                Some(name) => SendView::fresh(
                    port_candidates(table.ports, Some(name)),
                    SendPolicy::FirstSuccess,
                ),
                None => SendView::fresh(
                    port_candidates(rotated(table.ports, start_of(rn, table.ports.len())), None),
                    SendPolicy::OncePerInterface,
                ),
            },
        },
        Endpoint::Other(_) => SendView::fresh(Seq::empty(), SendPolicy::FirstSuccess),
    }
}

/// The candidates of two runs of ports, one after the other.
pub proof fn lemma_port_candidates_concat(
    a: Seq<PortView>,
    b: Seq<PortView>,
    only: Option<Seq<char>>,
)
    ensures
        port_candidates(a + b, only) == port_candidates(a, only) + port_candidates(b, only),
    decreases b.len(),
{
    if b.len() == 0 {
        assert(a + b =~= a);
        assert(port_candidates(a, only) + port_candidates(b, only) =~= port_candidates(a, only));
    } else {
        lemma_port_candidates_concat(a, b.drop_last(), only);
        assert((a + b).drop_last() =~= a + b.drop_last());
        assert((a + b).last() == b.last());
        assert(port_candidates(a + b, only) =~= port_candidates(a, only) + port_candidates(
            b,
            only,
        ));
    }
}

/// Every socket that comes into question is among the candidates of its
/// list.
pub proof fn lemma_socket_is_candidate(sockets: Seq<SocketView>, only: Option<Seq<char>>, i: int)
    requires
        0 <= i < sockets.len(),
        selected(sockets[i], only),
    ensures
        socket_candidates(sockets, only).contains(candidate(sockets[i])),
    decreases sockets.len(),
{
    let before = socket_candidates(sockets.drop_last(), only);
    let all = socket_candidates(sockets, only);
    if i == sockets.len() - 1 {
        assert(all[before.len() as int] == candidate(sockets[i]));
    } else {
        lemma_socket_is_candidate(sockets.drop_last(), only, i);
        let k = choose|k: int| 0 <= k < before.len() && before[k] == candidate(sockets[i]);
        assert(all[k] == candidate(sockets[i]));
    }
}

/// Every socket that comes into question is among the candidates of the
/// ports.
pub proof fn lemma_port_socket_is_candidate(
    ports: Seq<PortView>,
    only: Option<Seq<char>>,
    p: int,
    i: int,
)
    requires
        0 <= p < ports.len(),
        0 <= i < ports[p].sockets.len(),
        selected(ports[p].sockets[i], only),
    ensures
        port_candidates(ports, only).contains(candidate(ports[p].sockets[i])),
    decreases ports.len(),
{
    let before = port_candidates(ports.drop_last(), only);
    let last = socket_candidates(ports.last().sockets, only);
    let all = port_candidates(ports, only);
    let c = candidate(ports[p].sockets[i]);
    if p == ports.len() - 1 {
        lemma_socket_is_candidate(ports.last().sockets, only, i);
        let k = choose|k: int| 0 <= k < last.len() && last[k] == c;
        assert(all[before.len() + k] == c);
    } else {
        lemma_port_socket_is_candidate(ports.drop_last(), only, p, i);
        let k = choose|k: int| 0 <= k < before.len() && before[k] == c;
        assert(all[k] == c);
    }
}

/// Whichever port a send without reference and interface begins with, every
/// socket of the table is among its candidates.
pub proof fn lemma_broadcast_covers_table(table: TableView, rn: u64, p: int, i: int)
    requires
        table.has(p, i),
    ensures
        port_candidates(
            rotated(table.ports, start_of(rn, table.ports.len())),
            None,
        ).contains(candidate(table.at(p, i))),
{
    let n = table.ports.len() as int;
    let start = start_of(rn, table.ports.len());
    let round = rotated(table.ports, start);
    let q = if p >= start {
        p - start
    } else {
        n - start + p
    };
    assert(round[q] == table.ports[p]);
    lemma_port_socket_is_candidate(round, None, q, i);
}

/// A finished send without reference and interface, on which the system
/// refused nothing, has left once from every interface to which a socket of
/// the table is bound; so it was delivered if the table holds any socket,
/// whichever port it began with.
pub proof fn lemma_broadcast_reaches_every_interface(
    table: TableView,
    endpoint: Endpoint,
    rn: u64,
    send: SendView,
    p: int,
    i: int,
)
    requires
        endpoint is IpUdp,
        send.wf(),
        send.finished(),
        send.candidates == send_plan(table, endpoint, None, None, rn).candidates,
        send.policy == send_plan(table, endpoint, None, None, rn).policy,
        forall|k: int| 0 <= k < send.outcomes.len() ==> send.outcomes[k] != Some(false),
        table.has(p, i),
    ensures
        send.sent_on(table.at(p, i).interface),
        send.delivered(),
{
    lemma_broadcast_covers_table(table, rn, p, i);
    send.lemma_every_interface_served();
    let c = candidate(table.at(p, i));
    let k = choose|k: int| 0 <= k < send.candidates.len() && send.candidates[k] == c;
    assert(send.sent_on(send.candidates[k].interface));
}

/// Adds the sockets of the list that come into question to `out`.
fn append_socket_candidates(
    sockets: &Vec<BoundUdpSocket>,
    only: Option<&LocalInterface>,
    out: &mut Vec<Candidate>,
)
    ensures
        candidates_of(final(out)@) == candidates_of(old(out)@) + socket_candidates(
            sockets_of(sockets@),
            name_of(only),
        ),
{
    let ghost start = candidates_of(out@);
    let ghost views = sockets_of(sockets@);
    let mut i: usize = 0;
    proof {
        assert(views.take(0) =~= Seq::empty());
        assert(candidates_of(out@) =~= start + socket_candidates(views.take(0), name_of(only)));
    }
    while i < sockets.len()
        invariant
            0 <= i <= sockets.len(),
            views == sockets_of(sockets@),
            candidates_of(out@) == start + socket_candidates(views.take(i as int), name_of(only)),
        decreases sockets.len() - i,
    {
        let socket = &sockets[i];
        let ghost before = candidates_of(out@);
        proof {
            assert(views.take(i + 1).drop_last() =~= views.take(i as int));
            assert(views.take(i + 1).last() == socket@);
        }
        let take = match only {
            Some(interface) => socket.interface.same(interface),
            None => true,
        };
        if take {
            out.push(Candidate { socket: socket.id, interface: socket.interface.duplicate() });
            proof {
                assert(candidates_of(out@) =~= before.push(candidate(socket@)));
                assert(before.push(candidate(socket@)) =~= start + socket_candidates(
                    views.take(i + 1),
                    name_of(only),
                ));
            }
        }
        i = i + 1;
    }
    proof {
        assert(views.take(i as int) =~= views);
    }
}

/// Adds the sockets of the ports from position `from` up to `to` that come
/// into question to `out`.
fn append_port_candidates(
    table: &SocketTable,
    from: usize,
    to: usize,
    only: Option<&LocalInterface>,
    out: &mut Vec<Candidate>,
)
    requires
        from <= to <= table@.ports.len(),
    ensures
        candidates_of(final(out)@) == candidates_of(old(out)@) + port_candidates(
            table@.ports.subrange(from as int, to as int),
            name_of(only),
        ),
{
    let ghost start = candidates_of(out@);
    let ghost ports = table@.ports;
    let list = table.ports();
    let mut p: usize = from;
    proof {
        assert(ports.subrange(from as int, from as int) =~= Seq::empty());
        assert(candidates_of(out@) =~= start + port_candidates(
            ports.subrange(from as int, from as int),
            name_of(only),
        ));
    }
    while p < to
        invariant
            from <= p <= to <= ports.len(),
            ports == table@.ports,
            ports_of(list@) == ports,
            candidates_of(out@) == start + port_candidates(
                ports.subrange(from as int, p as int),
                name_of(only),
            ),
        decreases to - p,
    {
        let ghost before = candidates_of(out@);
        proof {
            assert(ports[p as int] == list@[p as int]@);
            assert(ports.subrange(from as int, p + 1).drop_last() =~= ports.subrange(
                from as int,
                p as int,
            ));
            assert(ports.subrange(from as int, p + 1).last() == ports[p as int]);
        }
        append_socket_candidates(list[p].sockets(), only, out);
        proof {
            assert(candidates_of(out@) =~= start + port_candidates(
                ports.subrange(from as int, p + 1),
                name_of(only),
            ));
        }
        p = p + 1;
    }
}

/// The send through a remembered socket: `socket` is what the reference
/// resolved to. The socket table is not looked at.
pub fn fast_path(endpoint: &Endpoint, socket: Option<&BoundUdpSocket>) -> (send: WireSend)
    ensures
        send.wf(),
        send@.wf(),
        send@ == SendView::fresh(
            match (*endpoint, socket) {
                (Endpoint::IpUdp(_), Some(s)) => seq![candidate(s@)],
                _ => Seq::empty(),
            },
            SendPolicy::FirstSuccess,
        ),
{
    let mut candidates: Vec<Candidate> = Vec::new();
    proof {
        assert(candidates_of(candidates@) =~= Seq::empty());
    }
    match endpoint {
        Endpoint::IpUdp(_) => {
            if let Some(s) = socket {
                candidates.push(Candidate { socket: s.id, interface: s.interface.duplicate() });
                proof {
                    assert(candidates_of(candidates@) =~= seq![candidate(s@)]);
                }
            }
        },
        Endpoint::Other(_) => {},
    }
    WireSend::new(candidates, SendPolicy::FirstSuccess)
}

/// The send across the socket table, for a datagram without a remembered
/// socket.
pub fn slow_path(
    table: &SocketTable,
    endpoint: &Endpoint,
    local_interface: Option<&LocalInterface>,
    rn: u64,
) -> (send: WireSend)
    ensures
        send.wf(),
        send@.wf(),
        send@ == send_plan(table@, *endpoint, None, name_of(local_interface), rn),
{
    let mut candidates: Vec<Candidate> = Vec::new();
    proof {
        assert(candidates_of(candidates@) =~= Seq::empty());
    }
    match endpoint {
        Endpoint::IpUdp(_) => {
            let list = table.ports();
            let n = list.len();
            proof {
                assert(ports_of(list@).len() == n);
            }
            match local_interface {
                Some(_) => {
                    append_port_candidates(table, 0, n, local_interface, &mut candidates);
                    proof {
                        assert(table@.ports.subrange(0, n as int) =~= table@.ports);
                        assert(candidates_of(candidates@) =~= port_candidates(
                            table@.ports,
                            name_of(local_interface),
                        ));
                    }
                    WireSend::new(candidates, SendPolicy::FirstSuccess)
                },
                None => {
                    let start: usize = if n == 0 {
                        0
                    } else {
                        (rn % (n as u64)) as usize
                    };
                    assert(start == start_of(rn, table@.ports.len()));
                    append_port_candidates(table, start, n, None, &mut candidates);
                    append_port_candidates(table, 0, start, None, &mut candidates);
                    proof {
                        lemma_port_candidates_concat(
                            table@.ports.subrange(start as int, n as int),
                            table@.ports.subrange(0, start as int),
                            None,
                        );
                        assert(candidates_of(candidates@) =~= port_candidates(
                            rotated(table@.ports, start as int),
                            None,
                        ));
                    }
                    WireSend::new(candidates, SendPolicy::OncePerInterface)
                },
            }
        },
        Endpoint::Other(_) => WireSend::new(candidates, SendPolicy::FirstSuccess),
    }
}

/// Sets up the send of one datagram: through `local_socket` if a reference
/// is given, across the socket table otherwise. A reference whose socket is
/// gone leaves nothing to send from: the slow path is not taken in its
/// place.
pub fn wire_send(
    table: &SocketTable,
    endpoint: &Endpoint,
    local_socket: Option<&LocalSocket>,
    local_interface: Option<&LocalInterface>,
    rn: u64,
) -> (send: WireSend)
    requires
        table.wf(),
    ensures
        send.wf(),
        send@.wf(),
        send@ == send_plan(
            table@,
            *endpoint,
            match local_socket {
                Some(reference) => Some(reference.spec_target()),
                None => None,
            },
            name_of(local_interface),
            rn,
        ),
{
    match local_socket {
        Some(reference) => fast_path(endpoint, table.resolve(reference.target())),
        None => slow_path(table, endpoint, local_interface, rn),
    }
}

} // verus!

//! The transport service: the socket table, the counter that receive
//! workers and socket references take their identities from, the number of
//! receive workers per socket, and the state of the two loops.
//!
//! The service decides; its caller carries out. Binding sockets, starting
//! and cancelling workers and sending datagrams are the caller's work, and
//! every function here says exactly what the caller is to do.

use vstd::prelude::*;
use crate::address::Cidr;
use crate::address::Endpoint;
use crate::address::InetAddress;
use crate::background::binding_step;
use crate::background::maintenance_step;
use crate::background::spec_binding_step;
use crate::background::spec_maintenance_step;
use crate::background::BindingAction;
use crate::background::BindingEvent;
use crate::background::LoopState;
use crate::background::MaintenanceAction;
use crate::background::MaintenanceEvent;
use crate::binding::attempts_of;
use crate::binding::AttemptView;
use crate::binding::failure;
use crate::binding::BindAttempt;
use crate::binding::BindError;
use crate::binding::BindFailure;
use crate::binding::BindOutcome;
use crate::binding::bound_in;
use crate::binding::BoundUdpPort;
use crate::binding::by_id;
use crate::binding::by_key;
use crate::binding::failures_of;
use crate::binding::FailureView;
use crate::binding::keys_bound;
use crate::binding::lemma_bind_missing;
use crate::binding::lemma_every_pair_bound;
use crate::binding::lemma_one_socket_per_pair;
use crate::binding::missing;
use crate::binding::outcome_of;
use crate::binding::PortView;
use crate::binding::wanted;
use crate::interface::BindingKey;
use crate::interface::keys_of;
use crate::interface::LocalInterface;
use crate::interface::names_of;
use crate::interface::SystemAddress;
use crate::paths::name_of;
use crate::paths::send_plan;
use crate::send::WireSend;
use crate::sequences::distinct_by;
use crate::socket::BoundUdpSocket;
use crate::socket::identity_after;
use crate::socket::ids_of;
use crate::socket::lemma_identities_differ;
use crate::socket::lemma_identity_steps;
use crate::socket::LocalSocket;
use crate::socket::next_identity;
use crate::socket::sockets_of;
use crate::socket::SocketView;
use crate::table::ports_of;
use crate::table::SocketTable;
use crate::table::TableView;
use crate::workers::after_receive;
use crate::workers::ReceiveWorker;
use crate::workers::WorkerStep;
use crate::workers::socket_workers;
use crate::workers::staffed;
use crate::workers::workers_of;
use crate::workers::WorkerView;

verus! {

/// The receive workers of the sockets, socket after socket.
pub open spec fn tasks_of(sockets: Seq<SocketView>) -> Seq<u64>
    decreases sockets.len(),
{
    if sockets.len() == 0 {
        Seq::empty()
    } else {
        tasks_of(sockets.drop_last()) + sockets.last().tasks
    }
}

/// The receive workers of all the sockets of the ports, port after port.
pub open spec fn all_tasks(ports: Seq<PortView>) -> Seq<u64>
    decreases ports.len(),
{
    if ports.len() == 0 {
        Seq::empty()
    } else {
        all_tasks(ports.drop_last()) + tasks_of(ports.last().sockets)
    }
}

/// The identity of the first worker of the socket at position `i`, where
/// the sockets from position `from` on get `count` workers each and the
/// first of them all is `first`.
pub open spec fn first_worker(from: int, first: u64, count: nat, i: int) -> u64 {
    identity_after(first, ((i - from) * count) as nat)
}

/// The sockets with those from position `from` up to `upto` staffed with
/// `count` workers each.
pub open spec fn staffed_from(
    sockets: Seq<SocketView>,
    from: int,
    first: u64,
    count: nat,
    upto: int,
) -> Seq<SocketView> {
    Seq::new(
        sockets.len(),
        |i: int|
            if from <= i < upto {
                staffed(sockets[i], first_worker(from, first, count, i), count)
            } else {
                sockets[i]
            },
    )
}

/// The workers of the sockets from position `from` up to `upto`, socket
/// after socket.
pub open spec fn workers_from(
    sockets: Seq<SocketView>,
    from: int,
    first: u64,
    count: nat,
    upto: int,
) -> Seq<WorkerView>
    decreases upto - from,
{
    if upto <= from {
        Seq::empty()
    } else {
        workers_from(sockets, from, first, count, upto - 1) + socket_workers(
            sockets[upto - 1],
            first_worker(from, first, count, upto - 1),
            count,
        )
    }
}

/// The transport service as a mathematical value.
pub struct ServiceView {
    pub table: TableView,
    pub next_local_socket_id: u64,
    pub num_listeners_per_socket: nat,
    pub binding_loop: LoopState,
    pub maintenance_loop: LoopState,
}

/// What the caller is to do after a reconciliation, as a mathematical
/// value.
pub struct ReportView {
    pub errors: Seq<FailureView>,
    pub failed: bool,
    pub workers: Seq<WorkerView>,
    pub closed: Seq<u64>,
    pub cancelled: Seq<u64>,
}

impl ServiceView {
    /// The service after a reference to the socket `target` has been asked
    /// for: where the table can count one more reference to that socket,
    /// the reference is made and takes the next identity.
    pub open spec fn reference_made(self, target: u64) -> ServiceView {
        if self.table.alive(target) && self.table.socket(target).references < usize::MAX {
            ServiceView {
                table: self.table.retained(target),
                next_local_socket_id: identity_after(self.next_local_socket_id, 1),
                ..self
            }
        } else {
            self
        }
    }

    /// The service after it has been shut down: both loops are stopped, and
    /// all sockets are released.
    pub open spec fn shut_down(self) -> ServiceView {
        ServiceView {
            table: TableView { ports: Seq::empty(), next_socket_id: self.table.next_socket_id },
            binding_loop: LoopState::Stopped,
            maintenance_loop: LoopState::Stopped,
            ..self
        }
    }

    /// The service after the bindings of `port` have been reconciled with
    /// the system's list: the table is reconciled, and every new socket has
    /// its receive workers, which take their identities from the counter.
    pub open spec fn bindings_updated(
        self,
        port: u16,
        live: Seq<BindingKey>,
        prefixes: Seq<Seq<char>>,
        ranges: Seq<Cidr>,
        attempts: Seq<AttemptView>,
    ) -> ServiceView {
        let table = self.table.reconciled(port, live, prefixes, ranges, attempts);
        let r = self.table.reconciliation(port, live, prefixes, ranges, attempts);
        let p = self.table.with_port(port).index_of(port);
        let from = r.sockets.len() - r.created.len();
        ServiceView {
            table: TableView {
                ports: table.ports.update(
                    p,
                    PortView {
                        port,
                        sockets: staffed_from(
                            r.sockets,
                            from,
                            self.next_local_socket_id,
                            self.num_listeners_per_socket,
                            r.sockets.len() as int,
                        ),
                    },
                ),
                next_socket_id: table.next_socket_id,
            },
            next_local_socket_id: identity_after(
                self.next_local_socket_id,
                r.created.len() * self.num_listeners_per_socket,
            ),
            ..self
        }
    }

    /// What the caller is to do after that reconciliation. Every bind
    /// failure is reported, whether other binds succeeded or not. The port
    /// has failed if no socket at all is bound to it afterwards. The workers
    /// are to be started, the sockets released are to be closed, and their
    /// workers cancelled.
    pub open spec fn binding_report(
        self,
        port: u16,
        live: Seq<BindingKey>,
        prefixes: Seq<Seq<char>>,
        ranges: Seq<Cidr>,
        attempts: Seq<AttemptView>,
    ) -> ReportView {
        let r = self.table.reconciliation(port, live, prefixes, ranges, attempts);
        let from = r.sockets.len() - r.created.len();
        ReportView {
            errors: r.errors,
            failed: r.sockets.len() == 0,
            workers: workers_from(
                r.sockets,
                from,
                self.next_local_socket_id,
                self.num_listeners_per_socket,
                r.sockets.len() as int,
            ),
            closed: ids_of(r.released),
            cancelled: tasks_of(r.released),
        }
    }
}

impl ServiceView {
    /// Two references made one after the other to the same socket point at
    /// the same socket and have different identities.
    pub proof fn lemma_references_differ(self, target: u64)
        requires
            self.table.wf(),
            self.table.alive(target),
            self.table.socket(target).references + 2 <= usize::MAX,
        ensures
            ({
                let once = self.reference_made(target);
                let twice = once.reference_made(target);
                &&& self.next_local_socket_id != once.next_local_socket_id
                &&& twice.next_local_socket_id == identity_after(self.next_local_socket_id, 2)
                &&& twice.table.alive(target)
                &&& twice.table.socket(target).references == self.table.socket(target).references
                    + 2
            }),
    {
        let (p, i) = self.table.position(target);
        let s = self.table.socket(target);
        let s1 = SocketView { references: s.references + 1, ..s };
        let s2 = SocketView { references: s.references + 2, ..s };
        let once = self.reference_made(target);
        self.table.lemma_replaced(p, i, s1);
        assert(once.table == self.table.replaced(p, i, s1));
        assert(once.table.has(p, i) && once.table.at(p, i) == s1);
        once.table.lemma_socket(target, p, i);
        let twice = once.reference_made(target);
        once.table.lemma_replaced(p, i, s2);
        assert(twice.table == once.table.replaced(p, i, s2));
        assert(twice.table.has(p, i) && twice.table.at(p, i) == s2);
        twice.table.lemma_socket(target, p, i);
        lemma_identities_differ(self.next_local_socket_id, 0, 1);
        lemma_identity_steps(self.next_local_socket_id, 0, 0);
        lemma_identity_steps(self.next_local_socket_id, 1, 1);
    }

    /// After the bindings of a port have been reconciled, the table is in
    /// order, and of the sockets bound to that port the following holds. No
    /// interface/address pair has two sockets. A pair that the system does
    /// not report, or that a blacklist excludes, has none. Every other pair
    /// has one if it had one before, or if its bind succeeded and a socket
    /// identity was left for it.
    pub proof fn lemma_bindings_after_update(
        self,
        port: u16,
        live: Seq<BindingKey>,
        prefixes: Seq<Seq<char>>,
        ranges: Seq<Cidr>,
        attempts: Seq<AttemptView>,
    )
        requires
            self.table.wf(),
        ensures
            ({
                let after = self.bindings_updated(port, live, prefixes, ranges, attempts).table;
                let bound = after.port_sockets(port);
                &&& after.wf()
                &&& after.has_port(port)
                &&& distinct_by(bound, by_key())
                &&& forall|key: BindingKey| #[trigger]
                    bound_in(bound, key) ==> wanted(
                        key,
                        live,
                        prefixes,
                        ranges,
                    )
                &&& forall|key: BindingKey| #[trigger]
                    wanted(key, live, prefixes, ranges) && (
                    bound_in(self.table.port_sockets(port), key) || (
                    outcome_of(attempts, key) == Some(
                        BindOutcome::Bound,
                    ) && after.next_socket_id < u64::MAX)) ==> bound_in(bound, key)
            }),
    {
        let with_port = self.table.with_port(port);
        let table = self.table.reconciled(port, live, prefixes, ranges, attempts);
        let after = self.bindings_updated(port, live, prefixes, ranges, attempts).table;
        let r = self.table.reconciliation(port, live, prefixes, ranges, attempts);
        let p0 = with_port.index_of(port);
        let from = r.sockets.len() - r.created.len();
        let staffed_sockets = staffed_from(
            r.sockets,
            from,
            self.next_local_socket_id,
            self.num_listeners_per_socket,
            r.sockets.len() as int,
        );
        self.table.lemma_reconciled_wf(port, live, prefixes, ranges, attempts);
        assert(0 <= p0 < table.ports.len());
        assert(table.ports[p0] == (PortView { port, sockets: r.sockets }));
        assert(after.ports[p0] == (PortView { port, sockets: staffed_sockets }));
        assert forall|q: int, j: int| after.has(q, j) == table.has(q, j) by {}
        assert forall|q: int, j: int| table.has(q, j) implies (#[trigger] after.at(q, j)).id
            == table.at(q, j).id && after.at(q, j).key() == table.at(q, j).key() && after.at(
            q,
            j,
        ).address == table.at(q, j).address by {}
        assert forall|q: int| 0 <= q < after.ports.len() implies (#[trigger] after.ports[q]).wf()
            && after.ports[q].ids_below(after.next_socket_id) by {
            assert(table.ports[q].wf() && table.ports[q].ids_below(table.next_socket_id));
            if q == p0 {
                let now = after.ports[q].sockets;
                let was = table.ports[q].sockets;
                assert forall|j: int| 0 <= j < now.len() implies (#[trigger] now[j]).address.port
                    == after.ports[q].port && now[j].id < after.next_socket_id by {
                    assert(after.at(q, j).id == table.at(q, j).id);
                    assert(was[j].address.port == table.ports[q].port);
                    assert(was[j].id < table.next_socket_id);
                }
                assert forall|a: int, b: int| 0 <= a < b < now.len() implies by_key()(
                    #[trigger] now[a],
                ) != by_key()(#[trigger] now[b]) && by_id()(now[a])
                    != by_id()(now[b]) by {
                    assert(after.at(q, a).id == table.at(q, a).id);
                    assert(after.at(q, b).id == table.at(q, b).id);
                    assert(by_key()(was[a]) != by_key()(was[b]));
                    assert(by_id()(was[a]) != by_id()(was[b]));
                }
            } else {
                assert(after.ports[q] == table.ports[q]);
            }
        }
        assert forall|a: int, b: int| 0 <= a < b < after.ports.len() implies (
        #[trigger] after.ports[a]).port != (#[trigger] after.ports[b]).port by {
            assert(table.ports[a].port != table.ports[b].port);
        }
        assert forall|a: int, x: int, b: int, y: int|
            after.has(a, x) && after.has(b, y) && a != b implies (#[trigger] after.at(a, x)).id != (
        #[trigger] after.at(b, y)).id by {
            assert(table.at(a, x).id != table.at(b, y).id);
        }
        assert(after.wf());
        after.lemma_index_of(port, p0);
        let bound = after.port_sockets(port);
        assert(bound == staffed_sockets);
        let old_port = with_port.ports[p0];
        if self.table.has_port(port) {
            self.table.lemma_index_of(port, self.table.index_of(port));
        }
        assert(old_port.sockets =~= self.table.port_sockets(port));
        lemma_one_socket_per_pair(
            old_port,
            live,
            prefixes,
            ranges,
            attempts,
            self.table.next_socket_id,
        );
        assert forall|key: BindingKey|
            bound_in(bound, key) == bound_in(r.sockets, key) by {
            if bound_in(bound, key) {
                let i = choose|i: int| 0 <= i < bound.len() && (#[trigger] bound[i]).key() == key;
                assert(r.sockets[i].key() == key);
            }
            if bound_in(r.sockets, key) {
                let i = choose|i: int|
                    0 <= i < r.sockets.len() && (#[trigger] r.sockets[i]).key() == key;
                assert(bound[i].key() == key);
            }
        }
    }

    /// A refused bind reaches the caller, whatever becomes of the other
    /// pairs: where a pair is to have a socket on the port, has none yet,
    /// and the system refused its bind, the report of the reconciliation
    /// holds that pair with the system's error code.
    pub proof fn lemma_refused_bind_is_reported(
        self,
        port: u16,
        live: Seq<BindingKey>,
        prefixes: Seq<Seq<char>>,
        ranges: Seq<Cidr>,
        attempts: Seq<AttemptView>,
        key: BindingKey,
        code: i32,
    )
        requires
            self.table.wf(),
            wanted(key, live, prefixes, ranges),
            !bound_in(self.table.port_sockets(port), key),
            outcome_of(attempts, key) == Some(BindOutcome::Failed(code)),
        ensures
            self.binding_report(port, live, prefixes, ranges, attempts).errors.contains(
                failure(key, port, BindError::Os(code)),
            ),
    {
        let with_port = self.table.with_port(port);
        let p0 = with_port.index_of(port);
        let old_port = with_port.ports[p0];
        self.table.lemma_reconciled_wf(port, live, prefixes, ranges, attempts);
        if self.table.has_port(port) {
            self.table.lemma_index_of(port, self.table.index_of(port));
        }
        assert(old_port.sockets =~= self.table.port_sockets(port));
        assert(old_port.port == port);
        crate::binding::lemma_refused_bind_is_reported(
            old_port,
            live,
            prefixes,
            ranges,
            attempts,
            self.table.next_socket_id,
            key,
            code,
        );
    }

    /// Where the system bound every pair that is to have a socket on the
    /// port and had none, and the socket identities suffice, the port has
    /// afterwards exactly one socket for each such pair and no other
    /// socket.
    pub proof fn lemma_every_pair_bound_after_update(
        self,
        port: u16,
        live: Seq<BindingKey>,
        prefixes: Seq<Seq<char>>,
        ranges: Seq<Cidr>,
        attempts: Seq<AttemptView>,
    )
        requires
            self.table.wf(),
            self.table.next_socket_id + live.len() < u64::MAX,
            forall|key: BindingKey|
                wanted(key, live, prefixes, ranges) && !bound_in(
                    self.table.port_sockets(port),
                    key,
                ) ==> #[trigger] outcome_of(attempts, key) == Some(BindOutcome::Bound),
        ensures
            ({
                let after = self.bindings_updated(port, live, prefixes, ranges, attempts).table;
                let bound = after.port_sockets(port);
                let pairs = Set::new(|key: BindingKey| wanted(key, live, prefixes, ranges));
                &&& forall|key: BindingKey| #[trigger]
                    bound_in(bound, key) <==> wanted(key, live, prefixes, ranges)
                &&& keys_bound(bound).no_duplicates()
                &&& keys_bound(bound).to_set() == pairs
                &&& bound.len() == pairs.len()
                &&& self.binding_report(port, live, prefixes, ranges, attempts).errors.len() == 0
                &&& self.binding_report(port, live, prefixes, ranges, attempts).failed == (
                pairs.len() == 0)
            }),
    {
        let with_port = self.table.with_port(port);
        let after = self.bindings_updated(port, live, prefixes, ranges, attempts).table;
        let r = self.table.reconciliation(port, live, prefixes, ranges, attempts);
        let bound = after.port_sockets(port);
        let pairs = Set::new(|key: BindingKey| wanted(key, live, prefixes, ranges));
        let keys = keys_bound(bound);
        let p0 = with_port.index_of(port);
        let old_port = with_port.ports[p0];
        self.table.lemma_reconciled_wf(port, live, prefixes, ranges, attempts);
        self.lemma_bindings_after_update(port, live, prefixes, ranges, attempts);
        if self.table.has_port(port) {
            self.table.lemma_index_of(port, self.table.index_of(port));
        }
        assert(old_port.sockets =~= self.table.port_sockets(port));
        assert(old_port.wf() && old_port.ids_below(self.table.next_socket_id));
        lemma_every_pair_bound(
            old_port,
            live,
            prefixes,
            ranges,
            attempts,
            self.table.next_socket_id,
        );
        after.lemma_index_of(port, after.index_of(port));
        assert(bound.len() == r.sockets.len());
        assert forall|key: BindingKey| #[trigger] bound_in(bound, key) <==> wanted(
            key,
            live,
            prefixes,
            ranges,
        ) by {
            assert(bound_in(r.sockets, key) <==> wanted(key, live, prefixes, ranges));
            if bound_in(bound, key) {
                let i = choose|i: int| 0 <= i < bound.len() && (#[trigger] bound[i]).key() == key;
                assert(r.sockets[i].key() == key);
            }
            if bound_in(r.sockets, key) {
                let i = choose|i: int|
                    0 <= i < r.sockets.len() && (#[trigger] r.sockets[i]).key() == key;
                assert(bound[i].key() == key);
            }
        }
        assert(keys =~= keys_bound(r.sockets)) by {
            assert forall|i: int| 0 <= i < keys.len() implies keys[i] == keys_bound(r.sockets)[i] by {
                assert(bound[i].key() == r.sockets[i].key());
            }
        }
    }

    /// What a reconciliation of `port` does to a reference. If the socket
    /// that it points at was bound to that port and its pair is no longer
    /// to have a socket, the reference points at nothing afterwards. In
    /// every other case it points at the same socket as before.
    pub proof fn lemma_reference_after_update(
        self,
        port: u16,
        live: Seq<BindingKey>,
        prefixes: Seq<Seq<char>>,
        ranges: Seq<Cidr>,
        attempts: Seq<AttemptView>,
        target: u64,
    )
        requires
            self.table.wf(),
            self.table.alive(target),
        ensures
            ({
                let after = self.bindings_updated(port, live, prefixes, ranges, attempts).table;
                let released = self.table.bound_to_port(target, port) && !wanted(
                    self.table.socket(target).key(),
                    live,
                    prefixes,
                    ranges,
                );
                &&& released ==> !after.alive(target)
                &&& !released ==> after.alive(target) && after.socket(target) == self.table.socket(
                    target,
                )
            }),
    {
        let table = self.table.reconciled(port, live, prefixes, ranges, attempts);
        let after = self.bindings_updated(port, live, prefixes, ranges, attempts).table;
        let r = self.table.reconciliation(port, live, prefixes, ranges, attempts);
        let p0 = self.table.with_port(port).index_of(port);
        let from = r.sockets.len() - r.created.len();
        self.table.lemma_reconciled_wf(port, live, prefixes, ranges, attempts);
        self.table.lemma_released_socket_is_gone(port, live, prefixes, ranges, attempts, target);
        assert(0 <= p0 < table.ports.len());
        assert(table.ports[p0] == (PortView { port, sockets: r.sockets }));
        assert forall|q: int, j: int| after.has(q, j) == table.has(q, j) by {}
        assert forall|q: int, j: int| table.has(q, j) implies (#[trigger] after.at(q, j)).id
            == table.at(q, j).id && (table.at(q, j).id < self.table.next_socket_id ==> after.at(
            q,
            j,
        ) == table.at(q, j)) by {
            if q == p0 && j >= from {
                lemma_bind_missing(
                    self.table.with_port(port).ports[p0].sockets,
                    self.table.with_port(port).ports[p0].port,
                    live,
                    prefixes,
                    ranges,
                    attempts,
                    self.table.next_socket_id,
                    live.len(),
                );
                assert(r.sockets[j] == r.created[j - from]);
            }
        }
        if after.alive(target) {
            let (q, j) = after.position(target);
            assert(table.has(q, j) && table.at(q, j).id == target);
            table.lemma_socket(target, q, j);
        }
        if table.alive(target) {
            let (q, j) = table.position(target);
            assert(after.has(q, j) && after.at(q, j).id == target);
            assert(table.socket(target) == self.table.socket(target));
            let (a, b) = after.position(target);
            assert(table.has(a, b) && table.at(a, b).id == target);
            table.lemma_socket(target, a, b);
            let (p, i) = self.table.position(target);
            assert(self.table.ports[p].ids_below(self.table.next_socket_id));
            assert(self.table.at(p, i).id < self.table.next_socket_id);
        }
    }
}

/// What the caller is to do after a reconciliation.
#[derive(Debug)]
pub struct BindingReport {
    /// The pairs for which no socket could be created, each with the
    /// reason.
    pub errors: Vec<BindFailure>,
    /// Whether no socket at all is bound to the port: the port has failed
    /// as a whole, and is tried again at the next reconciliation.
    pub failed: bool,
    /// The receive workers to start.
    pub workers: Vec<ReceiveWorker>,
    /// The sockets to close, by their identities.
    pub closed: Vec<u64>,
    /// The receive workers to cancel, by their identities.
    pub cancelled: Vec<u64>,
}

impl View for BindingReport {
    type V = ReportView;

    open spec fn view(&self) -> ReportView {
        ReportView {
            errors: failures_of(self.errors@),
            failed: self.failed,
            workers: workers_of(self.workers@),
            closed: self.closed@,
            cancelled: self.cancelled@,
        }
    }
}

/// Adds the receive workers of the sockets to `out`.
fn append_tasks(sockets: &Vec<BoundUdpSocket>, out: &mut Vec<u64>)
    ensures
        final(out)@ == old(out)@ + tasks_of(sockets_of(sockets@)),
{
    let ghost start = out@;
    let ghost views = sockets_of(sockets@);
    let mut i: usize = 0;
    proof {
        assert(views.take(0) =~= Seq::empty());
        assert(out@ =~= start + tasks_of(views.take(0)));
    }
    while i < sockets.len()
        invariant
            0 <= i <= sockets.len(),
            views == sockets_of(sockets@),
            out@ == start + tasks_of(views.take(i as int)),
        decreases sockets.len() - i,
    {
        let tasks = &sockets[i].tasks;
        let ghost before = out@;
        let mut k: usize = 0;
        while k < tasks.len()
            invariant
                0 <= k <= tasks.len(),
                out@ == before + tasks@.take(k as int),
            decreases tasks.len() - k,
        {
            out.push(tasks[k]);
            proof {
                assert(tasks@.take(k + 1) =~= tasks@.take(k as int).push(tasks@[k as int]));
            }
            k = k + 1;
        }
        proof {
            assert(tasks@.take(k as int) =~= tasks@);
            assert(views.take(i + 1).drop_last() =~= views.take(i as int));
            assert(views.take(i + 1).last().tasks == tasks@);
            assert(out@ =~= start + tasks_of(views.take(i + 1)));
        }
        i = i + 1;
    }
    proof {
        assert(views.take(i as int) =~= views);
    }
}

/// The identities of the sockets.
fn socket_ids(sockets: &Vec<BoundUdpSocket>) -> (ids: Vec<u64>)
    ensures
        ids@ == ids_of(sockets_of(sockets@)),
{
    let mut ids: Vec<u64> = Vec::new();
    let mut i: usize = 0;
    while i < sockets.len()
        invariant
            0 <= i <= sockets.len(),
            ids@ == ids_of(sockets_of(sockets@)).take(i as int),
        decreases sockets.len() - i,
    {
        ids.push(sockets[i].id);
        proof {
            let all = ids_of(sockets_of(sockets@));
            assert(all.take(i + 1) =~= all.take(i as int).push(all[i as int]));
        }
        i = i + 1;
    }
    proof {
        let all = ids_of(sockets_of(sockets@));
        assert(all.take(i as int) =~= all);
    }
    ids
}

/// The transport service.
#[derive(Debug)]
pub struct Service {
    udp_sockets: SocketTable,
    local_socket_unique_id_counter: u64,
    num_listeners_per_socket: usize,
    udp_binding_task: LoopState,
    core_background_service_task: LoopState,
}

impl View for Service {
    type V = ServiceView;

    closed spec fn view(&self) -> ServiceView {
        ServiceView {
            table: self.udp_sockets@,
            next_local_socket_id: self.local_socket_unique_id_counter,
            num_listeners_per_socket: self.num_listeners_per_socket as nat,
            binding_loop: self.udp_binding_task,
            maintenance_loop: self.core_background_service_task,
        }
    }
}

impl Service {
    /// Whether the service's socket table is in order.
    pub open spec fn wf(&self) -> bool {
        self@.table.wf()
    }

    /// A service without sockets, which will start
    /// `num_listeners_per_socket` receive workers for every socket. The
    /// first socket reference will have the identity 1. Its two loops have
    /// not begun.
    pub fn new(num_listeners_per_socket: usize) -> (service: Self)
        ensures
            service.wf(),
            service@ == (ServiceView {
                table: TableView { ports: Seq::empty(), next_socket_id: 1 },
                next_local_socket_id: 1,
                num_listeners_per_socket: num_listeners_per_socket as nat,
                binding_loop: LoopState::Idle,
                maintenance_loop: LoopState::Idle,
            }),
    {
        Service {
            udp_sockets: SocketTable::new(),
            local_socket_unique_id_counter: 1,
            num_listeners_per_socket,
            udp_binding_task: LoopState::Idle,
            core_background_service_task: LoopState::Idle,
        }
    }

    /// Takes an event of the binding loop and says what the caller is to
    /// do next.
    pub fn udp_binding_task_step(&mut self, event: BindingEvent) -> (action: BindingAction)
        ensures
            final(self)@ == (ServiceView {
                binding_loop: spec_binding_step(old(self)@.binding_loop, event).0,
                ..old(self)@
            }),
            action == spec_binding_step(old(self)@.binding_loop, event).1,
    {
        let (state, action) = binding_step(self.udp_binding_task, event);
        self.udp_binding_task = state;
        action
    }

    /// Takes an event of the maintenance loop and says what the caller is
    /// to do next.
    pub fn core_background_service_task_step(&mut self, event: MaintenanceEvent) -> (action:
        MaintenanceAction)
        ensures
            final(self)@ == (ServiceView {
                maintenance_loop: spec_maintenance_step(old(self)@.maintenance_loop, event).0,
                ..old(self)@
            }),
            action == spec_maintenance_step(old(self)@.maintenance_loop, event).1,
    {
        let (state, action) = maintenance_step(self.core_background_service_task, event);
        self.core_background_service_task = state;
        action
    }

    /// The socket table.
    pub fn sockets(&self) -> (table: &SocketTable)
        ensures
            table@ == self@.table,
    {
        &self.udp_sockets
    }

    /// Reconciles the sockets bound to `port` with the system's list of
    /// interface/address pairs, and staffs every new socket with its
    /// receive workers.
    ///
    /// `live` is what the system reports, `attempts` the binds that the
    /// caller has carried out for the pairs that
    /// [`Service::missing_bindings`] named. Every refused bind is among the
    /// `errors` of the report, whether other binds succeeded or not;
    /// `failed` says whether the port is left without any socket.
    pub fn update_udp_bindings_for_port(
        &mut self,
        port: u16,
        interface_prefix_blacklist: &Vec<String>,
        cidr_blacklist: &Vec<Cidr>,
        live: &Vec<SystemAddress>,
        attempts: &Vec<BindAttempt>,
    ) -> (report: BindingReport)
        requires
            old(self).wf(),
        ensures
            final(self).wf(),
            final(self)@ == old(self)@.bindings_updated(
                port,
                keys_of(live@),
                names_of(interface_prefix_blacklist@),
                cidr_blacklist@,
                attempts_of(attempts@),
            ),
            report@ == old(self)@.binding_report(
                port,
                keys_of(live@),
                names_of(interface_prefix_blacklist@),
                cidr_blacklist@,
                attempts_of(attempts@),
            ),
    {
        let ghost before = self@;
        let ghost r = before.table.reconciliation(
            port,
            keys_of(live@),
            names_of(interface_prefix_blacklist@),
            cidr_blacklist@,
            attempts_of(attempts@),
        );
        let ghost table = before.table.reconciled(
            port,
            keys_of(live@),
            names_of(interface_prefix_blacklist@),
            cidr_blacklist@,
            attempts_of(attempts@),
        );
        let ghost first = self.local_socket_unique_id_counter;
        let ghost count = self.num_listeners_per_socket as nat;
        let changes = self.udp_sockets.update_bindings(
            port,
            interface_prefix_blacklist,
            cidr_blacklist,
            live,
            attempts,
        );
        let closed = socket_ids(&changes.released);
        let mut cancelled: Vec<u64> = Vec::new();
        append_tasks(&changes.released, &mut cancelled);
        let ghost with_port = before.table.with_port(port);
        proof {
            before.table.lemma_reconciled_wf(
                port,
                keys_of(live@),
                names_of(interface_prefix_blacklist@),
                cidr_blacklist@,
                attempts_of(attempts@),
            );
            assert(self.udp_sockets@ == table);
            let p0 = with_port.index_of(port);
            assert(table.ports == with_port.ports.update(
                p0,
                PortView { port, sockets: r.sockets },
            ));
            assert(table.ports[p0].port == port);
        }
        let p = match self.udp_sockets.port_index(port) {
            Some(p) => p,
            None => vstd::pervasive::unreached(),
        };
        let list = self.udp_sockets.ports();
        proof {
            table.lemma_index_of(port, with_port.index_of(port));
            table.lemma_index_of(port, p as int);
            assert(p == with_port.index_of(port));
            assert(ports_of(list@).len() == list@.len());
            assert(ports_of(list@)[p as int] == list@[p as int]@);
        }
        let bound = list[p].sockets();
        let total = bound.len();
        proof {
            assert(p < table.ports.len());
            assert(table.ports.len() == with_port.ports.len());
            assert(table.ports[p as int] == (PortView { port, sockets: r.sockets }));
            assert(sockets_of(bound@).len() == total);
            assert(total == r.sockets.len());
            assert(cancelled@ =~= tasks_of(r.released));
        }
        let failed = total == 0;
        let mut workers: Vec<ReceiveWorker> = Vec::new();
        proof {
            assert(ids_of(r.created).len() == r.created.len());
        }
        let from: usize = total - changes.new_sockets.len();
        let mut k: usize = from;
        proof {
            lemma_identity_steps(first, 0, 0);
            assert((k - from) * count == 0) by (nonlinear_arith)
                requires
                    k == from,
            ;
            assert(staffed_from(r.sockets, from as int, first, count, k as int) =~= r.sockets);
            assert(table.ports.update(p as int, PortView { port, sockets: r.sockets })
                =~= table.ports);
            assert(workers_of(workers@) =~= workers_from(
                r.sockets,
                from as int,
                first,
                count,
                k as int,
            ));
        }
        while k < total
            invariant
                from <= k <= total,
                total == r.sockets.len(),
                p < table.ports.len(),
                self.udp_sockets.wf(),
                self.num_listeners_per_socket == count,
                self.udp_binding_task == before.binding_loop,
                self.core_background_service_task == before.maintenance_loop,
                self.udp_sockets@ == (TableView {
                    ports: table.ports.update(
                        p as int,
                        PortView {
                            port,
                            sockets: staffed_from(r.sockets, from as int, first, count, k as int),
                        },
                    ),
                    next_socket_id: table.next_socket_id,
                }),
                self.local_socket_unique_id_counter == identity_after(
                    first,
                    ((k - from) * count) as nat,
                ),
                workers_of(workers@) == workers_from(r.sockets, from as int, first, count, k as int),
            decreases total - k,
        {
            let ghost current = self.udp_sockets@;
            let ghost made = workers_of(workers@);
            proof {
                assert(current.has(p as int, k as int));
                assert(current.at(p as int, k as int) == r.sockets[k as int]);
            }
            let next = self.udp_sockets.staff(
                p,
                k,
                self.local_socket_unique_id_counter,
                self.num_listeners_per_socket,
                &mut workers,
            );
            self.local_socket_unique_id_counter = next;
            proof {
                let here = first_worker(from as int, first, count, k as int);
                assert((k + 1 - from) * count == (k - from) * count + count) by (nonlinear_arith);
                lemma_identity_steps(first, ((k - from) * count) as nat, count);
                let expected = staffed_from(r.sockets, from as int, first, count, k + 1);
                assert(self.udp_sockets@.ports[p as int].sockets =~= expected);
                assert(self.udp_sockets@.ports =~= table.ports.update(
                    p as int,
                    PortView { port, sockets: expected },
                ));
                assert(workers_of(workers@) == made + socket_workers(
                    r.sockets[k as int],
                    here,
                    count,
                ));
            }
            k = k + 1;
        }
        proof {
            assert((total - from) * count == r.created.len() * count) by (nonlinear_arith)
                requires
                    total - from == r.created.len(),
            ;
        }
        BindingReport { errors: changes.errors, failed, workers, closed, cancelled }
    }

    /// The pairs of the system's list for which the caller has to bind a
    /// socket before `port` is reconciled next.
    pub fn missing_bindings(
        &self,
        port: u16,
        interface_prefix_blacklist: &Vec<String>,
        cidr_blacklist: &Vec<Cidr>,
        live: &Vec<SystemAddress>,
    ) -> (list: Vec<SystemAddress>)
        requires
            self.wf(),
        ensures
            keys_of(list@) == missing(
                self@.table.port_sockets(port),
                keys_of(live@),
                names_of(interface_prefix_blacklist@),
                cidr_blacklist@,
                live@.len(),
            ),
    {
        match self.udp_sockets.get(port) {
            Some(bound) => bound.missing_bindings(interface_prefix_blacklist, cidr_blacklist, live),
            None => {
                let unbound = BoundUdpPort::new(port);
                unbound.missing_bindings(interface_prefix_blacklist, cidr_blacklist, live)
            },
        }
    }

    /// Whether the socket that the reference points at still exists.
    pub fn local_socket_is_valid(&self, socket: &LocalSocket) -> (valid: bool)
        requires
            self.wf(),
        ensures
            valid == self@.table.alive(socket.spec_target()),
    {
        self.udp_sockets.resolve(socket.target()).is_some()
    }

    /// Sets up the send of one datagram to `endpoint`: through
    /// `local_socket` if the overlay core remembers one, else from the
    /// sockets of `local_interface` if it names one, else from one socket of
    /// every interface, beginning with the port that `rn` picks.
    pub fn wire_send(
        &self,
        endpoint: &Endpoint,
        local_socket: Option<&LocalSocket>,
        local_interface: Option<&LocalInterface>,
        rn: u64,
    ) -> (send: WireSend)
        requires
            self.wf(),
        ensures
            send.wf(),
            send@.wf(),
            send@ == send_plan(
                self@.table,
                *endpoint,
                match local_socket {
                    Some(reference) => Some(reference.spec_target()),
                    None => None,
                },
                name_of(local_interface),
                rn,
            ),
    {
        crate::paths::wire_send(&self.udp_sockets, endpoint, local_socket, local_interface, rn)
    }

    /// Makes a reference to the socket `target`, with an identity that no
    /// reference made before it has, and counts it. There is none to be had
    /// if the socket does not exist, or if its references cannot be counted
    /// any further.
    pub fn new_local_socket(&mut self, target: u64) -> (reference: Option<LocalSocket>)
        requires
            old(self).wf(),
        ensures
            final(self).wf(),
            final(self)@ == old(self)@.reference_made(target),
            reference is Some == (old(self)@.table.alive(target) && old(self)@.table.socket(
                target,
            ).references < usize::MAX),
            reference matches Some(r) ==> r.spec_target() == target && r.spec_unique_id() == old(
                self,
            )@.next_local_socket_id,
    {
        if self.udp_sockets.retain(target) {
            let reference = LocalSocket::new(target, self.local_socket_unique_id_counter);
            self.local_socket_unique_id_counter = next_identity(
                self.local_socket_unique_id_counter,
            );
            Some(reference)
        } else {
            None
        }
    }

    /// What a worker that reads from `socket` does after a receive has
    /// ended, as [`crate::workers::after_receive`] says it. The reference
    /// that comes with a packet takes its identity from the counter of the
    /// service, and is counted with its socket as long as the socket
    /// exists.
    pub fn after_receive(
        &mut self,
        socket: u64,
        received: Option<(usize, InetAddress)>,
        capacity: usize,
    ) -> (step: WorkerStep)
        requires
            old(self).wf(),
        ensures
            final(self).wf(),
            received is None ==> step is Stop && final(self)@ == old(self)@,
            received matches Some(packet) ==> {
                &&& step is Deliver
                &&& step->source == Endpoint::IpUdp(packet.1)
                &&& step->length == if packet.0 <= capacity {
                    packet.0
                } else {
                    capacity
                }
                &&& step->local_socket.spec_target() == socket
                &&& step->local_socket.spec_unique_id() == old(self)@.next_local_socket_id
                &&& final(self)@ == (ServiceView {
                    table: old(self)@.table.retained(socket),
                    next_local_socket_id: identity_after(old(self)@.next_local_socket_id, 1),
                    ..old(self)@
                })
            },
    {
        let step = after_receive(
            socket,
            &mut self.local_socket_unique_id_counter,
            received,
            capacity,
        );
        if received.is_some() {
            let _ = self.udp_sockets.retain(socket);
        }
        step
    }

    /// Makes a copy of a reference, with the same identity, and counts it.
    /// A reference whose socket is gone is copied without counting. There
    /// is no copy to be had if the references of the socket cannot be
    /// counted any further.
    pub fn clone_local_socket(&mut self, socket: &LocalSocket) -> (copy: Option<LocalSocket>)
        requires
            old(self).wf(),
        ensures
            final(self).wf(),
            final(self)@ == (ServiceView {
                table: old(self)@.table.retained(socket.spec_target()),
                ..old(self)@
            }),
            copy is Some == (old(self)@.table.alive(socket.spec_target()) ==> old(
                self,
            )@.table.socket(socket.spec_target()).references < usize::MAX),
            copy matches Some(c) ==> c.spec_target() == socket.spec_target() && c.spec_unique_id()
                == socket.spec_unique_id(),
    {
        let alive = self.udp_sockets.resolve(socket.target()).is_some();
        let counted = self.udp_sockets.retain(socket.target());
        if counted || !alive {
            Some(LocalSocket::new(socket.target(), socket.unique_id()))
        } else {
            None
        }
    }

    /// Gives a reference up: it is no longer counted.
    pub fn drop_local_socket(&mut self, socket: LocalSocket)
        requires
            old(self).wf(),
        ensures
            final(self).wf(),
            final(self)@ == (ServiceView {
                table: old(self)@.table.released(socket.spec_target()),
                ..old(self)@
            }),
    {
        self.udp_sockets.release(socket.target());
    }

    /// Shuts the service down: stops both loops, then releases every
    /// socket. Returns the receive workers that the caller is to cancel.
    /// The references that the overlay core still holds point at nothing
    /// from now on.
    pub fn shutdown(&mut self) -> (cancelled: Vec<u64>)
        requires
            old(self).wf(),
        ensures
            final(self).wf(),
            final(self)@ == old(self)@.shut_down(),
            cancelled@ == all_tasks(old(self)@.table.ports),
    {
        let mut cancelled: Vec<u64> = Vec::new();
        let ghost ports = self@.table.ports;
        let list = self.udp_sockets.ports();
        let mut p: usize = 0;
        proof {
            assert(ports.take(0) =~= Seq::empty());
        }
        while p < list.len()
            invariant
                0 <= p <= list.len(),
                ports_of(list@) == ports,
                cancelled@ == all_tasks(ports.take(p as int)),
            decreases list.len() - p,
        {
            proof {
                assert(ports[p as int] == list@[p as int]@);
                assert(ports.take(p + 1).drop_last() =~= ports.take(p as int));
                assert(ports.take(p + 1).last() == ports[p as int]);
            }
            append_tasks(list[p].sockets(), &mut cancelled);
            p = p + 1;
        }
        proof {
            assert(ports.take(p as int) =~= ports);
        }
        self.udp_binding_task = LoopState::Stopped;
        self.core_background_service_task = LoopState::Stopped;
        self.udp_sockets.clear();
        cancelled
    }
}

} // verus!

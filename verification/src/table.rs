//! The socket table: for each UDP port, the sockets bound to it. It is the
//! single source of truth for which sockets exist.

use vstd::prelude::*;
use vstd::string::StringExecFns;
use crate::address::Cidr;
use crate::binding::attempts_of;
use crate::binding::AttemptView;
use crate::binding::BindAttempt;
use crate::binding::BindingChanges;
use crate::binding::BoundUdpPort;
use crate::binding::by_id;
use crate::binding::by_key;
use crate::binding::failures_of;
use crate::binding::lemma_bind_missing;
use crate::binding::lemma_reconcile_parts;
use crate::binding::lemma_reconcile_wf;
use crate::binding::PortView;
use crate::binding::reconcile;
use crate::binding::Reconciliation;
use crate::binding::wanted;
use crate::binding::wanted_sockets;
use crate::interface::BindingKey;
use crate::interface::keys_of;
use crate::interface::names_of;
use crate::interface::SystemAddress;
use crate::socket::BoundUdpSocket;
use crate::socket::identity_after;
use crate::socket::ids_of;
use crate::socket::LocalSocket;
use crate::socket::sockets_of;
use crate::socket::SocketView;
use crate::workers::assign_workers;
use crate::workers::ReceiveWorker;
use crate::workers::socket_workers;
use crate::workers::staffed;
use crate::workers::workers_of;

verus! {

/// The socket table as a mathematical value: the ports in the order in
/// which they were first bound, and the next socket identity to give out.
pub struct TableView {
    pub ports: Seq<PortView>,
    pub next_socket_id: u64,
}

impl TableView {
    /// Whether the table holds a socket at position `i` of port `p`.
    pub open spec fn has(self, p: int, i: int) -> bool {
        0 <= p < self.ports.len() && 0 <= i < self.ports[p].sockets.len()
    }

    /// The socket at position `i` of port `p`.
    pub open spec fn at(self, p: int, i: int) -> SocketView {
        self.ports[p].sockets[i]
    }

    /// Each port number occurs once, the sockets of each port are in order,
    /// and no socket identity occurs twice or reaches the next one to give
    /// out.
    pub open spec fn wf(self) -> bool {
        &&& forall|p: int|
            0 <= p < self.ports.len() ==> (#[trigger] self.ports[p]).wf() && self.ports[p].ids_below(
                self.next_socket_id,
            )
        &&& forall|p: int, q: int|
            0 <= p < q < self.ports.len() ==> (#[trigger] self.ports[p]).port != (
            #[trigger] self.ports[q]).port
        &&& forall|p: int, i: int, q: int, j: int|
            self.has(p, i) && self.has(q, j) && p != q ==> (#[trigger] self.at(p, i)).id != (
            #[trigger] self.at(q, j)).id
    }

    /// Whether something is bound, or was tried to be bound, to the port.
    pub open spec fn has_port(self, port: u16) -> bool {
        exists|p: int| 0 <= p < self.ports.len() && (#[trigger] self.ports[p]).port == port
    }

    /// The position of the port in the table.
    pub open spec fn index_of(self, port: u16) -> int {
        choose|p: int| 0 <= p < self.ports.len() && (#[trigger] self.ports[p]).port == port
    }

    /// The table with an entry for the port: a port that the table does not
    /// hold yet is added at the end, with no socket.
    pub open spec fn with_port(self, port: u16) -> TableView {
        if self.has_port(port) {
            self
        } else {
            TableView {
                ports: self.ports.push(PortView { port, sockets: Seq::empty() }),
                next_socket_id: self.next_socket_id,
            }
        }
    }

    /// The sockets bound to the port; none if the table does not hold it.
    pub open spec fn port_sockets(self, port: u16) -> Seq<SocketView> {
        if self.has_port(port) {
            self.ports[self.index_of(port)].sockets
        } else {
            Seq::empty()
        }
    }

    /// Whether the table holds a socket of this identity.
    pub open spec fn alive(self, id: u64) -> bool {
        exists|p: int, i: int| self.has(p, i) && (#[trigger] self.at(p, i)).id == id
    }

    /// Where the socket of this identity stands: its port's position and
    /// its own position among the sockets of that port.
    pub open spec fn position(self, id: u64) -> (int, int) {
        choose|p: int, i: int| self.has(p, i) && (#[trigger] self.at(p, i)).id == id
    }

    /// The socket of this identity.
    pub open spec fn socket(self, id: u64) -> SocketView {
        self.at(self.position(id).0, self.position(id).1)
    }

    /// The table with `socket` in the place of the socket at position `i`
    /// of port `p`.
    pub open spec fn replaced(self, p: int, i: int, socket: SocketView) -> TableView {
        TableView {
            ports: self.ports.update(
                p,
                PortView {
                    port: self.ports[p].port,
                    sockets: self.ports[p].sockets.update(i, socket),
                },
            ),
            next_socket_id: self.next_socket_id,
        }
    }

    /// The table in which the socket of this identity has `references`
    /// references.
    pub open spec fn with_references(self, id: u64, references: nat) -> TableView {
        self.replaced(
            self.position(id).0,
            self.position(id).1,
            SocketView { references, ..self.socket(id) },
        )
    }

    /// The table after one more reference to the socket of this identity
    /// has been made. Nothing changes if there is no such socket, or if its
    /// references cannot be counted any further.
    pub open spec fn retained(self, id: u64) -> TableView {
        if self.alive(id) && self.socket(id).references < usize::MAX {
            self.with_references(id, self.socket(id).references + 1)
        } else {
            self
        }
    }

    /// The table after one reference to the socket of this identity has
    /// been given up. Nothing changes if there is no such socket, or if no
    /// reference to it is counted.
    pub open spec fn released(self, id: u64) -> TableView {
        if self.alive(id) && self.socket(id).references > 0 {
            self.with_references(id, (self.socket(id).references - 1) as nat)
        } else {
            self
        }
    }

    /// Whether the socket of this identity is bound to `port`.
    pub open spec fn bound_to_port(self, id: u64, port: u16) -> bool {
        self.alive(id) && self.ports[self.position(id).0].port == port
    }

    /// What a reconciliation of `port` does to a socket that the table
    /// holds: it is gone afterwards if it was bound to that port and its
    /// pair is no longer to have a socket; in every other case it is still
    /// there, unchanged. So a reference to a released socket stops
    /// resolving, while the references to all other sockets resolve as
    /// before.
    pub proof fn lemma_released_socket_is_gone(
        self,
        port: u16,
        live: Seq<BindingKey>,
        prefixes: Seq<Seq<char>>,
        ranges: Seq<Cidr>,
        attempts: Seq<AttemptView>,
        id: u64,
    )
        requires
            self.wf(),
            self.alive(id),
        ensures
            ({
                let after = self.reconciled(port, live, prefixes, ranges, attempts);
                let released = self.bound_to_port(id, port) && !wanted(
                    self.socket(id).key(),
                    live,
                    prefixes,
                    ranges,
                );
                &&& released ==> !after.alive(id)
                &&& !released ==> after.alive(id) && after.socket(id) == self.socket(id)
            }),
    {
        let table = self.with_port(port);
        let after = self.reconciled(port, live, prefixes, ranges, attempts);
        self.lemma_reconciled_wf(port, live, prefixes, ranges, attempts);
        let p0 = table.index_of(port);
        let old_port = table.ports[p0];
        let r = self.reconciliation(port, live, prefixes, ranges, attempts);
        let kept = old_port.sockets.filter(wanted_sockets(live, prefixes, ranges));
        let (p, i) = self.position(id);
        let s = self.socket(id);
        assert(table.has(p, i) && table.at(p, i) == s);
        table.lemma_socket(id, p, i);
        table.lemma_index_of(port, p0);
        if self.ports[p].port == port {
            table.lemma_index_of(port, p);
        }
        lemma_reconcile_parts(old_port, live, prefixes, ranges);
        lemma_reconcile_wf(old_port, live, prefixes, ranges, attempts, self.next_socket_id);
        lemma_bind_missing(
            old_port.sockets,
            old_port.port,
            live,
            prefixes,
            ranges,
            attempts,
            self.next_socket_id,
            live.len(),
        );
        let released = self.bound_to_port(id, port) && !wanted(s.key(), live, prefixes, ranges);
        if released {
            assert(p == p0);
            if after.alive(id) {
                let (q, j) = after.position(id);
                if q != p0 {
                    assert(after.at(q, j) == table.at(q, j));
                    table.lemma_socket(id, q, j);
                } else {
                    assert(after.at(q, j) == r.sockets[j]);
                    if j < kept.len() {
                        assert(r.sockets[j] == kept[j]);
                        assert(kept.contains(kept[j]));
                        assert(old_port.sockets.contains(kept[j]));
                        let k = choose|k: int|
                            0 <= k < old_port.sockets.len() && old_port.sockets[k] == kept[j];
                        table.lemma_socket(id, p0, k);
                    } else {
                        assert(r.sockets[j] == r.created[j - kept.len()]);
                        assert(table.ports[p].ids_below(table.next_socket_id));
                        assert(table.at(p, i).id < self.next_socket_id);
                    }
                }
            }
        } else {
            if p != p0 {
                assert(after.has(p, i) && after.at(p, i) == s);
                after.lemma_socket(id, p, i);
            } else {
                assert(old_port.sockets[i] == s);
                assert(old_port.sockets.contains(s));
                assert(kept.contains(s));
                let k = choose|k: int| 0 <= k < kept.len() && kept[k] == s;
                assert(r.sockets[k] == s);
                assert(after.has(p0, k) && after.at(p0, k) == s);
                after.lemma_socket(id, p0, k);
            }
        }
    }

    /// Replacing a socket by one of the same identity, bound to the same
    /// pair, leaves the table in order and every socket where it was.
    pub proof fn lemma_replaced(self, p: int, i: int, socket: SocketView)
        requires
            self.wf(),
            self.has(p, i),
            socket.id == self.at(p, i).id,
            socket.interface == self.at(p, i).interface,
            socket.address == self.at(p, i).address,
        ensures
            self.replaced(p, i, socket).wf(),
            self.replaced(p, i, socket).ports.len() == self.ports.len(),
            forall|q: int, j: int| self.replaced(p, i, socket).has(q, j) == self.has(q, j),
            forall|q: int, j: int|
                self.has(q, j) ==> #[trigger] self.replaced(p, i, socket).at(q, j) == if q == p && j
                    == i {
                    socket
                } else {
                    self.at(q, j)
                },
            forall|id: u64| self.replaced(p, i, socket).alive(id) == self.alive(id),
    {
        let after = self.replaced(p, i, socket);
        assert forall|q: int, j: int| after.has(q, j) == self.has(q, j) by {}
        assert forall|q: int, j: int| self.has(q, j) implies #[trigger] after.at(q, j) == if q == p
            && j == i {
            socket
        } else {
            self.at(q, j)
        } by {}
        assert forall|q: int| 0 <= q < after.ports.len() implies (#[trigger] after.ports[q]).wf()
            && after.ports[q].ids_below(after.next_socket_id) by {
            assert(self.ports[q].wf() && self.ports[q].ids_below(self.next_socket_id));
            if q == p {
                let before = self.ports[p].sockets;
                let now = after.ports[p].sockets;
                assert forall|j: int| 0 <= j < now.len() implies (#[trigger] now[j]).address.port
                    == after.ports[p].port && now[j].id < after.next_socket_id by {
                    assert(before[j].address.port == self.ports[p].port);
                    assert(before[j].id < self.next_socket_id);
                }
                assert forall|a: int, b: int| 0 <= a < b < now.len() implies by_key()(
                    #[trigger] now[a],
                ) != by_key()(#[trigger] now[b]) && by_id()(now[a])
                    != by_id()(now[b]) by {
                    assert(by_key()(before[a]) != by_key()(
                        before[b],
                    ));
                    assert(by_id()(before[a]) != by_id()(before[b]));
                }
            }
        }
        assert forall|a: int, b: int| 0 <= a < b < after.ports.len() implies (
        #[trigger] after.ports[a]).port != (#[trigger] after.ports[b]).port by {
            assert(self.ports[a].port != self.ports[b].port);
        }
        assert forall|a: int, x: int, b: int, y: int|
            after.has(a, x) && after.has(b, y) && a != b implies (#[trigger] after.at(a, x)).id != (
        #[trigger] after.at(b, y)).id by {
            assert(self.at(a, x).id != self.at(b, y).id);
        }
        assert forall|id: u64| after.alive(id) == self.alive(id) by {
            if self.alive(id) {
                let (q, j) = choose|q: int, j: int|
                    self.has(q, j) && (#[trigger] self.at(q, j)).id == id;
                assert(after.has(q, j) && after.at(q, j).id == id);
            }
            if after.alive(id) {
                let (q, j) = choose|q: int, j: int|
                    after.has(q, j) && (#[trigger] after.at(q, j)).id == id;
                assert(self.has(q, j) && self.at(q, j).id == id);
            }
        }
    }

    /// The reconciliation of the sockets of `port` with the system's list.
    pub open spec fn reconciliation(
        self,
        port: u16,
        live: Seq<BindingKey>,
        prefixes: Seq<Seq<char>>,
        ranges: Seq<Cidr>,
        attempts: Seq<AttemptView>,
    ) -> Reconciliation {
        let table = self.with_port(port);
        reconcile(
            table.ports[table.index_of(port)],
            live,
            prefixes,
            ranges,
            attempts,
            self.next_socket_id,
        )
    }

    /// The table after the sockets of `port` have been reconciled with the
    /// system's list.
    pub open spec fn reconciled(
        self,
        port: u16,
        live: Seq<BindingKey>,
        prefixes: Seq<Seq<char>>,
        ranges: Seq<Cidr>,
        attempts: Seq<AttemptView>,
    ) -> TableView {
        let table = self.with_port(port);
        let p = table.index_of(port);
        let r = self.reconciliation(port, live, prefixes, ranges, attempts);
        TableView {
            ports: table.ports.update(p, PortView { port, sockets: r.sockets }),
            next_socket_id: r.next_id,
        }
    }

    /// In a table that is in order, a port number is found at one position
    /// only.
    pub proof fn lemma_index_of(self, port: u16, p: int)
        requires
            self.wf(),
            0 <= p < self.ports.len(),
            self.ports[p].port == port,
        ensures
            self.has_port(port),
            self.index_of(port) == p,
    {
        let q = self.index_of(port);
        if q < p {
            assert(self.ports[q].port != self.ports[p].port);
        }
        if p < q {
            assert(self.ports[p].port != self.ports[q].port);
        }
    }

    /// In a table that is in order, a socket identity names one socket only.
    pub proof fn lemma_socket(self, id: u64, p: int, i: int)
        requires
            self.wf(),
            self.has(p, i),
            self.at(p, i).id == id,
        ensures
            self.alive(id),
            self.position(id) == (p, i),
            self.socket(id) == self.at(p, i),
    {
        let (q, j) = self.position(id);
        if q != p {
            assert(self.at(p, i).id != self.at(q, j).id);
        } else if i != j {
            assert(self.ports[p].wf());
            if i < j {
                assert(by_id()(self.ports[p].sockets[i]) != by_id()(
                    self.ports[p].sockets[j],
                ));
            } else {
                assert(by_id()(self.ports[p].sockets[j]) != by_id()(
                    self.ports[p].sockets[i],
                ));
            }
        }
    }

    /// Reconciling the sockets of one port leaves the table in order.
    pub proof fn lemma_reconciled_wf(
        self,
        port: u16,
        live: Seq<BindingKey>,
        prefixes: Seq<Seq<char>>,
        ranges: Seq<Cidr>,
        attempts: Seq<AttemptView>,
    )
        requires
            self.wf(),
        ensures
            self.with_port(port).wf(),
            self.with_port(port).has_port(port),
            self.reconciled(port, live, prefixes, ranges, attempts).wf(),
            self.next_socket_id <= self.reconciled(
                port,
                live,
                prefixes,
                ranges,
                attempts,
            ).next_socket_id,
    {
        let table = self.with_port(port);
        if !self.has_port(port) {
            let fresh = PortView { port, sockets: Seq::empty() };
            assert(table.ports[self.ports.len() as int] == fresh);
            assert forall|p: int| 0 <= p < table.ports.len() implies (#[trigger] table.ports[p]).wf()
                && table.ports[p].ids_below(table.next_socket_id) by {
                if p < self.ports.len() {
                    assert(table.ports[p] == self.ports[p]);
                }
            }
            assert forall|p: int, q: int| 0 <= p < q < table.ports.len() implies (
            #[trigger] table.ports[p]).port != (#[trigger] table.ports[q]).port by {
                assert(table.ports[p] == self.ports[p]);
                if q < self.ports.len() {
                    assert(table.ports[q] == self.ports[q]);
                }
            }
            assert forall|p: int, i: int, q: int, j: int|
                table.has(p, i) && table.has(q, j) && p != q implies (#[trigger] table.at(p, i)).id
                != (#[trigger] table.at(q, j)).id by {
                assert(self.has(p, i) && self.has(q, j));
                assert(table.at(p, i) == self.at(p, i));
                assert(table.at(q, j) == self.at(q, j));
            }
        }
        assert(table.wf());
        let p0 = table.index_of(port);
        let old_port = table.ports[p0];
        let r = reconcile(old_port, live, prefixes, ranges, attempts, self.next_socket_id);
        let after = self.reconciled(port, live, prefixes, ranges, attempts);
        lemma_reconcile_wf(old_port, live, prefixes, ranges, attempts, self.next_socket_id);
        lemma_reconcile_parts(old_port, live, prefixes, ranges);
        lemma_bind_missing(
            old_port.sockets,
            old_port.port,
            live,
            prefixes,
            ranges,
            attempts,
            self.next_socket_id,
            live.len(),
        );
        let kept = old_port.sockets.filter(wanted_sockets(live, prefixes, ranges));
        assert forall|p: int| 0 <= p < after.ports.len() implies (#[trigger] after.ports[p]).wf()
            && after.ports[p].ids_below(after.next_socket_id) by {
            if p != p0 {
                assert(after.ports[p] == table.ports[p]);
            }
        }
        assert forall|p: int, q: int| 0 <= p < q < after.ports.len() implies (
        #[trigger] after.ports[p]).port != (#[trigger] after.ports[q]).port by {
            assert(after.ports[p].port == table.ports[p].port);
            assert(after.ports[q].port == table.ports[q].port);
        }
        assert forall|p: int, i: int, q: int, j: int|
            after.has(p, i) && after.has(q, j) && p != q implies (#[trigger] after.at(p, i)).id != (
        #[trigger] after.at(q, j)).id by {
            if p != p0 && q != p0 {
                assert(after.at(p, i) == table.at(p, i));
                assert(after.at(q, j) == table.at(q, j));
            } else {
                let (a, x, b, y) = if p == p0 {
                    (p, i, q, j)
                } else {
                    (q, j, p, i)
                };
                assert(after.at(b, y) == table.at(b, y));
                assert(table.ports[b].ids_below(table.next_socket_id));
                assert(table.at(b, y).id < self.next_socket_id);
                let s = after.at(a, x);
                assert(s == r.sockets[x]);
                if x < kept.len() {
                    assert(s == kept[x]);
                    assert(kept.contains(s));
                    assert(old_port.sockets.contains(s));
                    let k = choose|k: int| 0 <= k < old_port.sockets.len() && old_port.sockets[k] == s;
                    assert(table.at(a, k) == s);
                    assert(table.at(a, k).id != table.at(b, y).id);
                } else {
                    assert(s == r.created[x - kept.len()]);
                    assert(s.id >= self.next_socket_id);
                }
            }
        }
    }
}

/// The socket table: for each UDP port in use, the sockets bound to it.
#[derive(Debug)]
pub struct SocketTable {
    pub(crate) ports: Vec<BoundUdpPort>,
    pub(crate) next_socket_id: u64,
}

/// The ports that a list stands for.
pub open spec fn ports_of(list: Seq<BoundUdpPort>) -> Seq<PortView> {
    list.map_values(|p: BoundUdpPort| p@)
}

impl View for SocketTable {
    type V = TableView;

    closed spec fn view(&self) -> TableView {
        TableView { ports: ports_of(self.ports@), next_socket_id: self.next_socket_id }
    }
}

impl SocketTable {
    /// Whether the table is in order.
    pub open spec fn wf(&self) -> bool {
        self@.wf()
    }

    /// A table without ports. The first socket will be socket 1.
    pub fn new() -> (table: Self)
        ensures
            table.wf(),
            table@ == (TableView { ports: Seq::empty(), next_socket_id: 1 }),
    {
        let table = SocketTable { ports: Vec::new(), next_socket_id: 1 };
        proof {
            assert(table@.ports =~= Seq::empty());
        }
        table
    }

    /// Whether the table holds no port at all.
    pub fn is_empty(&self) -> (empty: bool)
        ensures
            empty == (self@.ports.len() == 0),
    {
        self.ports.len() == 0
    }

    /// The ports of the table.
    pub fn ports(&self) -> (ports: &Vec<BoundUdpPort>)
        ensures
            ports_of(ports@) == self@.ports,
    {
        &self.ports
    }

    /// The position of the port in the table, if the table holds it.
    pub fn port_index(&self, port: u16) -> (found: Option<usize>)
        ensures
            found is Some == self@.has_port(port),
            found matches Some(p) ==> p < self@.ports.len() && self@.ports[p as int].port == port
                && forall|q: int| 0 <= q < p ==> (#[trigger] self@.ports[q]).port != port,
    {
        let mut p: usize = 0;
        while p < self.ports.len()
            invariant
                0 <= p <= self.ports.len(),
                forall|q: int| 0 <= q < p ==> (#[trigger] self@.ports[q]).port != port,
            decreases self.ports.len() - p,
        {
            proof {
                assert(self@.ports[p as int] == self.ports@[p as int]@);
            }
            if self.ports[p].port() == port {
                return Some(p);
            }
            p = p + 1;
        }
        None
    }

    /// The sockets bound to the port, if the table holds it.
    pub fn get(&self, port: u16) -> (bound: Option<&BoundUdpPort>)
        requires
            self.wf(),
        ensures
            bound is Some == self@.has_port(port),
            bound matches Some(b) ==> b@ == self@.ports[self@.index_of(port)],
    {
        match self.port_index(port) {
            Some(p) => {
                proof {
                    self@.lemma_index_of(port, p as int);
                    assert(self@.ports[p as int] == self.ports@[p as int]@);
                }
                Some(&self.ports[p])
            },
            None => None,
        }
    }

    /// Removes every port and every socket.
    pub fn clear(&mut self)
        ensures
            final(self)@ == (TableView {
                ports: Seq::empty(),
                next_socket_id: old(self)@.next_socket_id,
            }),
            final(self).wf(),
    {
        self.ports.clear();
        proof {
            assert(self@.ports =~= Seq::empty());
        }
    }

    /// Reconciles the sockets of `port` with the system's list of
    /// interface/address pairs, as [`BoundUdpPort::update_bindings`] does. A
    /// port that the table does not hold yet is added first.
    pub fn update_bindings(
        &mut self,
        port: u16,
        interface_prefix_blacklist: &Vec<String>,
        cidr_blacklist: &Vec<Cidr>,
        live: &Vec<SystemAddress>,
        attempts: &Vec<BindAttempt>,
    ) -> (changes: BindingChanges)
        requires
            old(self).wf(),
        ensures
            final(self).wf(),
            final(self)@ == old(self)@.reconciled(
                port,
                keys_of(live@),
                names_of(interface_prefix_blacklist@),
                cidr_blacklist@,
                attempts_of(attempts@),
            ),
            ({
                let r = old(self)@.reconciliation(
                    port,
                    keys_of(live@),
                    names_of(interface_prefix_blacklist@),
                    cidr_blacklist@,
                    attempts_of(attempts@),
                );
                &&& failures_of(changes.errors@) == r.errors
                &&& sockets_of(changes.released@) == r.released
                &&& changes.new_sockets@ == ids_of(r.created)
            }),
    {
        let ghost before = self@;
        let ghost table = before.with_port(port);
        proof {
            before.lemma_reconciled_wf(
                port,
                keys_of(live@),
                names_of(interface_prefix_blacklist@),
                cidr_blacklist@,
                attempts_of(attempts@),
            );
        }
        let p = match self.port_index(port) {
            Some(p) => p,
            None => {
                self.ports.push(BoundUdpPort::new(port));
                proof {
                    assert(self@.ports =~= table.ports);
                    assert(self@.ports[self.ports.len() - 1].port == port);
                }
                self.ports.len() - 1
            },
        };
        proof {
            assert(self@ == table);
            table.lemma_index_of(port, p as int);
            assert(table.ports[p as int] == self.ports@[p as int]@);
        }
        let changes = self.ports[p].update_bindings(
            interface_prefix_blacklist,
            cidr_blacklist,
            live,
            attempts,
            &mut self.next_socket_id,
        );
        proof {
            let after = before.reconciled(
                port,
                keys_of(live@),
                names_of(interface_prefix_blacklist@),
                cidr_blacklist@,
                attempts_of(attempts@),
            );
            assert(self@.ports =~= after.ports);
        }
        changes
    }

    /// Where the socket of this identity stands, if the table holds it.
    pub fn find_socket(&self, id: u64) -> (found: Option<(usize, usize)>)
        requires
            self.wf(),
        ensures
            found is Some == self@.alive(id),
            found matches Some(at) ==> self@.has(at.0 as int, at.1 as int) && self@.position(id) == (
                at.0 as int,
                at.1 as int,
            ),
    {
        let mut p: usize = 0;
        while p < self.ports.len()
            invariant
                0 <= p <= self.ports.len(),
                self.wf(),
                forall|q: int, j: int|
                    self@.has(q, j) && q < p ==> (#[trigger] self@.at(q, j)).id != id,
            decreases self.ports.len() - p,
        {
            let sockets = self.ports[p].sockets();
            proof {
                assert(self@.ports[p as int] == self.ports@[p as int]@);
            }
            let mut i: usize = 0;
            while i < sockets.len()
                invariant
                    0 <= i <= sockets.len(),
                    p < self.ports.len(),
                    self.wf(),
                    sockets_of(sockets@) == self@.ports[p as int].sockets,
                    forall|q: int, j: int|
                        self@.has(q, j) && q < p ==> (#[trigger] self@.at(q, j)).id != id,
                    forall|j: int| 0 <= j < i ==> (#[trigger] self@.at(p as int, j)).id != id,
                decreases sockets.len() - i,
            {
                proof {
                    assert(sockets_of(sockets@)[i as int] == sockets@[i as int]@);
                    assert(self@.at(p as int, i as int) == sockets@[i as int]@);
                }
                if sockets[i].id == id {
                    proof {
                        self@.lemma_socket(id, p as int, i as int);
                    }
                    return Some((p, i));
                }
                i = i + 1;
            }
            p = p + 1;
        }
        None
    }

    /// The socket of this identity, if the table holds it.
    pub fn resolve(&self, id: u64) -> (socket: Option<&BoundUdpSocket>)
        requires
            self.wf(),
        ensures
            socket is Some == self@.alive(id),
            socket matches Some(s) ==> s@ == self@.socket(id),
    {
        match self.find_socket(id) {
            Some((p, i)) => {
                let sockets = self.ports[p].sockets();
                proof {
                    assert(self@.ports[p as int] == self.ports@[p as int]@);
                    assert(sockets_of(sockets@)[i as int] == sockets@[i as int]@);
                }
                Some(&sockets[i])
            },
            None => None,
        }
    }

    /// Counts one more reference to the socket of this identity, and says
    /// whether it did.
    pub fn retain(&mut self, id: u64) -> (counted: bool)
        requires
            old(self).wf(),
        ensures
            final(self).wf(),
            final(self)@ == old(self)@.retained(id),
            counted == (old(self)@.alive(id) && old(self)@.socket(id).references < usize::MAX),
    {
        match self.find_socket(id) {
            Some((p, i)) => {
                let ghost before = self@;
                proof {
                    assert(before.ports[p as int] == self.ports@[p as int]@);
                }
                let sockets = self.ports[p].sockets();
                proof {
                    assert(sockets_of(sockets@)[i as int] == sockets@[i as int]@);
                }
                let references = sockets[i].references;
                if references < usize::MAX {
                    self.ports[p].set_references(i, references + 1);
                    proof {
                        let s = SocketView {
                            references: (references + 1) as nat,
                            ..before.socket(id)
                        };
                        before.lemma_replaced(p as int, i as int, s);
                        assert(self@.ports =~= before.replaced(p as int, i as int, s).ports);
                    }
                    true
                } else {
                    false
                }
            },
            None => false,
        }
    }

    /// Gives up one reference to the socket of this identity.
    pub fn release(&mut self, id: u64)
        requires
            old(self).wf(),
        ensures
            final(self).wf(),
            final(self)@ == old(self)@.released(id),
    {
        match self.find_socket(id) {
            Some((p, i)) => {
                let ghost before = self@;
                proof {
                    assert(before.ports[p as int] == self.ports@[p as int]@);
                }
                let sockets = self.ports[p].sockets();
                proof {
                    assert(sockets_of(sockets@)[i as int] == sockets@[i as int]@);
                }
                let references = sockets[i].references;
                if references > 0 {
                    self.ports[p].set_references(i, references - 1);
                    proof {
                        let s = SocketView {
                            references: (references - 1) as nat,
                            ..before.socket(id)
                        };
                        before.lemma_replaced(p as int, i as int, s);
                        assert(self@.ports =~= before.replaced(p as int, i as int, s).ports);
                    }
                }
            },
            None => {},
        }
    }

    /// Makes the `count` receive workers of the socket at position `i` of
    /// port `p`, records them with the socket and adds them to `workers`.
    /// Returns the identity to give out next.
    pub(crate) fn staff(
        &mut self,
        p: usize,
        i: usize,
        first: u64,
        count: usize,
        workers: &mut Vec<ReceiveWorker>,
    ) -> (next: u64)
        requires
            old(self).wf(),
            old(self)@.has(p as int, i as int),
        ensures
            final(self).wf(),
            final(self)@ == old(self)@.replaced(
                p as int,
                i as int,
                staffed(old(self)@.at(p as int, i as int), first, count as nat),
            ),
            workers_of(final(workers)@) == workers_of(old(workers)@) + socket_workers(
                old(self)@.at(p as int, i as int),
                first,
                count as nat,
            ),
            next == identity_after(first, count as nat),
    {
        let ghost before = self@;
        proof {
            assert(before.ports[p as int] == self.ports@[p as int]@);
        }
        let sockets = self.ports[p].sockets();
        proof {
            assert(sockets_of(sockets@)[i as int] == sockets@[i as int]@);
        }
        let (tasks, next) = assign_workers(&sockets[i], first, count, workers);
        self.ports[p].set_tasks(i, tasks);
        proof {
            let s = staffed(before.at(p as int, i as int), first, count as nat);
            before.lemma_replaced(p as int, i as int, s);
            assert(self@.ports =~= before.replaced(p as int, i as int, s).ports);
        }
        next
    }
}

impl LocalSocket {
    /// The socket that the reference points at, or `None` once that socket
    /// has been released.
    pub fn socket<'a>(&self, table: &'a SocketTable) -> (socket: Option<&'a BoundUdpSocket>)
        requires
            table.wf(),
        ensures
            socket is Some == table@.alive(self.spec_target()),
            socket matches Some(s) ==> s@ == table@.socket(self.spec_target()),
    {
        table.resolve(self.target())
    }

    /// The reference as text: the address that its socket is bound to, or
    /// `(closed socket)` once the socket is gone.
    pub fn to_string(&self, table: &SocketTable) -> (text: String)
        requires
            table.wf(),
        ensures
            text@ == if table@.alive(self.spec_target()) {
                crate::text::inet_text(table@.socket(self.spec_target()).address)
            } else {
                "(closed socket)"@
            },
    {
        match table.resolve(self.target()) {
            Some(socket) => socket.address.to_string(),
            None => String::from_str("(closed socket)"),
        }
    }

    /// Returns true if the wrapped socket appears to be in use by the
    /// overlay core: the socket exists, and besides this reference at least
    /// one other reference to it is counted.
    pub fn in_use(&self, table: &SocketTable) -> (used: bool)
        requires
            table.wf(),
        ensures
            used == (table@.alive(self.spec_target()) && table@.socket(
                self.spec_target(),
            ).references > 1),
    {
        match table.resolve(self.target()) {
            Some(socket) => socket.references > 1,
            None => false,
        }
    }
}

} // verus!

//! The sockets bound to one UDP port, and their reconciliation with the
//! interfaces that the system reports.
//!
//! Reconciliation keeps the sockets whose interface/address pair is still
//! reported and not blacklisted, releases the others, and creates a socket
//! for every remaining pair whose bind the caller has carried out.

use vstd::prelude::*;
use crate::address::Cidr;
use crate::address::InetAddress;
use crate::address::IpAddress;
use crate::interface::keys_of;
use crate::interface::names_of;
use crate::interface::qualifies;
use crate::interface::BindingKey;
use crate::interface::LocalInterface;
use crate::interface::SystemAddress;
use crate::sequences::distinct_by;
use crate::sequences::lemma_filter_distinct;
use crate::sequences::lemma_filter_holds;
use crate::sequences::lemma_filter_push;
use crate::socket::ids_of;
use crate::socket::sockets_of;
use crate::socket::BoundUdpSocket;
use crate::socket::SocketView;

verus! {

/// How an attempt to bind a socket ended.
#[derive(Clone, Copy, Debug, PartialEq, Eq, Structural)]
pub enum BindOutcome {
    /// The system bound the socket.
    Bound,
    /// The system refused, with this error code.
    Failed(i32),
}

/// One attempt to bind a socket to an address of an interface, with its
/// outcome.
#[derive(Debug)]
pub struct BindAttempt {
    pub interface: LocalInterface,
    pub address: IpAddress,
    pub outcome: BindOutcome,
}

/// A bind attempt as a mathematical value.
pub struct AttemptView {
    pub key: BindingKey,
    pub outcome: BindOutcome,
}

impl View for BindAttempt {
    type V = AttemptView;

    open spec fn view(&self) -> AttemptView {
        AttemptView {
            key: BindingKey { interface: self.interface@, address: self.address },
            outcome: self.outcome,
        }
    }
}

/// The attempts that a list stands for.
pub open spec fn attempts_of(list: Seq<BindAttempt>) -> Seq<AttemptView> {
    list.map_values(|a: BindAttempt| a@)
}

/// Why no socket was created for a pair.
#[derive(Clone, Copy, Debug, PartialEq, Eq, Structural)]
pub enum BindError {
    /// The system refused the bind, with this error code.
    Os(i32),
    /// The system bound the socket, but no socket identity is left to name
    /// it by.
    SocketIdsExhausted,
}

/// A pair for which no socket could be created.
#[derive(Debug)]
pub struct BindFailure {
    pub interface: LocalInterface,
    pub address: InetAddress,
    pub error: BindError,
}

/// A bind failure as a mathematical value.
pub struct FailureView {
    pub interface: Seq<char>,
    pub address: InetAddress,
    pub error: BindError,
}

impl FailureView {
    /// The pair that could not be bound.
    pub open spec fn key(self) -> BindingKey {
        BindingKey { interface: self.interface, address: self.address.ip }
    }
}

impl View for BindFailure {
    type V = FailureView;

    open spec fn view(&self) -> FailureView {
        FailureView { interface: self.interface@, address: self.address, error: self.error }
    }
}

/// The failures that a list stands for.
pub open spec fn failures_of(list: Seq<BindFailure>) -> Seq<FailureView> {
    list.map_values(|f: BindFailure| f@)
}

/// The pair that a socket is bound to.
pub open spec fn by_key() -> spec_fn(SocketView) -> BindingKey {
    |s: SocketView| s.key()
}

/// The identity of a socket.
pub open spec fn by_id() -> spec_fn(SocketView) -> u64 {
    |s: SocketView| s.id
}

/// Whether a pair is to have a socket: the system reports it and no
/// blacklist excludes it.
pub open spec fn wanted(
    key: BindingKey,
    live: Seq<BindingKey>,
    prefixes: Seq<Seq<char>>,
    ranges: Seq<Cidr>,
) -> bool {
    live.contains(key) && qualifies(key, prefixes, ranges)
}

/// The sockets whose pair is to have a socket.
pub open spec fn wanted_sockets(
    live: Seq<BindingKey>,
    prefixes: Seq<Seq<char>>,
    ranges: Seq<Cidr>,
) -> spec_fn(SocketView) -> bool {
    |s: SocketView| wanted(s.key(), live, prefixes, ranges)
}

/// The sockets whose pair is to have none.
pub open spec fn unwanted_sockets(
    live: Seq<BindingKey>,
    prefixes: Seq<Seq<char>>,
    ranges: Seq<Cidr>,
) -> spec_fn(SocketView) -> bool {
    |s: SocketView| !wanted(s.key(), live, prefixes, ranges)
}

/// Whether one of the sockets is bound to the pair.
pub open spec fn bound_in(sockets: Seq<SocketView>, key: BindingKey) -> bool {
    exists|i: int| 0 <= i < sockets.len() && (#[trigger] sockets[i]).key() == key
}

/// Whether one of the failures is about the pair.
pub open spec fn reported(errors: Seq<FailureView>, key: BindingKey) -> bool {
    exists|i: int| 0 <= i < errors.len() && (#[trigger] errors[i]).key() == key
}

/// The outcome of the first attempt for the pair from position `k` on.
pub open spec fn outcome_from(attempts: Seq<AttemptView>, key: BindingKey, k: int) -> Option<
    BindOutcome,
>
    decreases attempts.len() - k,
{
    if k < 0 || k >= attempts.len() {
        None
    } else if attempts[k].key == key {
        Some(attempts[k].outcome)
    } else {
        outcome_from(attempts, key, k + 1)
    }
}

/// The outcome of the first attempt for the pair, if there was any.
pub open spec fn outcome_of(attempts: Seq<AttemptView>, key: BindingKey) -> Option<BindOutcome> {
    outcome_from(attempts, key, 0)
}

/// Whether the pair at position `i` of the system's list needs a new
/// socket: it may be bound, no socket is bound to it yet, and the list does
/// not hold it at an earlier position.
pub open spec fn is_missing_at(
    sockets: Seq<SocketView>,
    live: Seq<BindingKey>,
    prefixes: Seq<Seq<char>>,
    ranges: Seq<Cidr>,
    i: int,
) -> bool {
    &&& 0 <= i < live.len()
    &&& qualifies(live[i], prefixes, ranges)
    &&& !bound_in(sockets, live[i])
    &&& !live.take(i).contains(live[i])
}

/// The pairs among the first `n` of the system's list that need a new
/// socket, in the order of the list.
pub open spec fn missing(
    sockets: Seq<SocketView>,
    live: Seq<BindingKey>,
    prefixes: Seq<Seq<char>>,
    ranges: Seq<Cidr>,
    n: nat,
) -> Seq<BindingKey>
    decreases n,
{
    if n == 0 {
        Seq::empty()
    } else {
        let before = missing(sockets, live, prefixes, ranges, (n - 1) as nat);
        if is_missing_at(sockets, live, prefixes, ranges, n - 1) {
            before.push(live[n - 1])
        } else {
            before
        }
    }
}

/// What binding has produced so far: the sockets created, the failures, and
/// the next socket identity to give out.
pub struct BindProgress {
    pub created: Seq<SocketView>,
    pub errors: Seq<FailureView>,
    pub next_id: u64,
}

/// A socket that has just been bound: no worker reads from it yet and no
/// reference points at it.
pub open spec fn fresh_socket(id: u64, key: BindingKey, port: u16) -> SocketView {
    SocketView {
        id,
        interface: key.interface,
        address: InetAddress { ip: key.address, port },
        tasks: Seq::empty(),
        references: 0,
    }
}

/// The failure to bind a pair.
pub open spec fn failure(key: BindingKey, port: u16, error: BindError) -> FailureView {
    FailureView {
        interface: key.interface,
        address: InetAddress { ip: key.address, port },
        error,
    }
}

/// Progress after one missing pair has been dealt with, given the outcome
/// of its bind attempt. Without an attempt nothing changes.
pub open spec fn bind_step(
    progress: BindProgress,
    key: BindingKey,
    port: u16,
    outcome: Option<BindOutcome>,
) -> BindProgress {
    match outcome {
        None => progress,
        Some(BindOutcome::Failed(code)) => BindProgress {
            created: progress.created,
            errors: progress.errors.push(failure(key, port, BindError::Os(code))),
            next_id: progress.next_id,
        },
        Some(BindOutcome::Bound) => if progress.next_id < u64::MAX {
            BindProgress {
                created: progress.created.push(fresh_socket(progress.next_id, key, port)),
                errors: progress.errors,
                next_id: (progress.next_id + 1) as u64,
            }
        } else {
            BindProgress {
                created: progress.created,
                errors: progress.errors.push(failure(key, port, BindError::SocketIdsExhausted)),
                next_id: progress.next_id,
            }
        },
    }
}

/// Progress after the first `n` pairs of the system's list have been dealt
/// with.
pub open spec fn bind_missing(
    sockets: Seq<SocketView>,
    port: u16,
    live: Seq<BindingKey>,
    prefixes: Seq<Seq<char>>,
    ranges: Seq<Cidr>,
    attempts: Seq<AttemptView>,
    next_id: u64,
    n: nat,
) -> BindProgress
    decreases n,
{
    if n == 0 {
        BindProgress { created: Seq::empty(), errors: Seq::empty(), next_id }
    } else {
        let before = bind_missing(
            sockets,
            port,
            live,
            prefixes,
            ranges,
            attempts,
            next_id,
            (n - 1) as nat,
        );
        if is_missing_at(sockets, live, prefixes, ranges, n - 1) {
            bind_step(before, live[n - 1], port, outcome_of(attempts, live[n - 1]))
        } else {
            before
        }
    }
}

/// All the sockets bound to one port, as a mathematical value.
pub struct PortView {
    pub port: u16,
    pub sockets: Seq<SocketView>,
}

impl PortView {
    /// Every socket is bound to this port, no two sockets are bound to the
    /// same interface/address pair, and no two have the same identity.
    pub open spec fn wf(self) -> bool {
        &&& forall|i: int|
            0 <= i < self.sockets.len() ==> (#[trigger] self.sockets[i]).address.port == self.port
        &&& distinct_by(self.sockets, by_key())
        &&& distinct_by(self.sockets, by_id())
    }

    /// Whether every socket's identity is below `bound`.
    pub open spec fn ids_below(self, bound: u64) -> bool {
        forall|i: int| 0 <= i < self.sockets.len() ==> (#[trigger] self.sockets[i]).id < bound
    }
}

/// The result of a reconciliation.
pub struct Reconciliation {
    /// The sockets bound to the port afterwards: those kept, in their old
    /// order, then those created.
    pub sockets: Seq<SocketView>,
    /// The sockets created.
    pub created: Seq<SocketView>,
    /// The sockets released.
    pub released: Seq<SocketView>,
    /// The pairs for which no socket could be created.
    pub errors: Seq<FailureView>,
    /// The next socket identity to give out.
    pub next_id: u64,
}

/// Reconciliation of the sockets of a port with the system's list of
/// interface/address pairs, under two blacklists, given the bind attempts
/// that were carried out.
pub open spec fn reconcile(
    old: PortView,
    live: Seq<BindingKey>,
    prefixes: Seq<Seq<char>>,
    ranges: Seq<Cidr>,
    attempts: Seq<AttemptView>,
    next_id: u64,
) -> Reconciliation {
    let progress = bind_missing(
        old.sockets,
        old.port,
        live,
        prefixes,
        ranges,
        attempts,
        next_id,
        live.len(),
    );
    Reconciliation {
        sockets: old.sockets.filter(wanted_sockets(live, prefixes, ranges)) + progress.created,
        created: progress.created,
        released: old.sockets.filter(unwanted_sockets(live, prefixes, ranges)),
        errors: progress.errors,
        next_id: progress.next_id,
    }
}

/// What holds of the sockets created and the failures collected while the
/// first `n` pairs of the system's list are dealt with.
pub proof fn lemma_bind_missing(
    sockets: Seq<SocketView>,
    port: u16,
    live: Seq<BindingKey>,
    prefixes: Seq<Seq<char>>,
    ranges: Seq<Cidr>,
    attempts: Seq<AttemptView>,
    next_id: u64,
    n: nat,
)
    requires
        n <= live.len(),
    ensures
        ({
            let p = bind_missing(sockets, port, live, prefixes, ranges, attempts, next_id, n);
            &&& p.next_id == next_id + p.created.len()
            &&& forall|a: int|
                0 <= a < p.created.len() ==> {
                    let s = #[trigger] p.created[a];
                    &&& s == fresh_socket((next_id + a) as u64, s.key(), port)
                    &&& live.take(n as int).contains(s.key())
                    &&& qualifies(s.key(), prefixes, ranges)
                    &&& !bound_in(sockets, s.key())
                    &&& outcome_of(attempts, s.key()) == Some(BindOutcome::Bound)
                }
            &&& distinct_by(p.created, by_key())
            &&& forall|e: int|
                0 <= e < p.errors.len() ==> {
                    let f = #[trigger] p.errors[e];
                    &&& f.address.port == port
                    &&& live.take(n as int).contains(f.key())
                    &&& qualifies(f.key(), prefixes, ranges)
                    &&& !bound_in(sockets, f.key())
                    &&& !bound_in(p.created, f.key())
                    &&& match f.error {
                        BindError::Os(code) => outcome_of(attempts, f.key()) == Some(
                            BindOutcome::Failed(code),
                        ),
                        BindError::SocketIdsExhausted => outcome_of(attempts, f.key()) == Some(
                            BindOutcome::Bound,
                        ) && p.next_id == u64::MAX,
                    }
                }
            &&& forall|k: int|
                0 <= k < n && #[trigger] is_missing_at(sockets, live, prefixes, ranges, k)
                    ==> bound_in(p.created, live[k]) || reported(p.errors, live[k]) || outcome_of(
                    attempts,
                    live[k],
                ) is None
        }),
    decreases n,
{
    if n > 0 {
        let m = (n - 1) as nat;
        lemma_bind_missing(sockets, port, live, prefixes, ranges, attempts, next_id, m);
        let before = bind_missing(sockets, port, live, prefixes, ranges, attempts, next_id, m);
        let p = bind_missing(sockets, port, live, prefixes, ranges, attempts, next_id, n);
        let key = live[n - 1];
        assert(live.take(n as int) =~= live.take(m as int).push(key));
        assert forall|x: BindingKey| live.take(m as int).contains(x) implies live.take(
            n as int,
        ).contains(x) by {
            let i = choose|i: int| 0 <= i < m && live.take(m as int)[i] == x;
            assert(live.take(n as int)[i] == x);
        }
        assert(live.take(n as int)[n - 1] == key);
        assert forall|x: BindingKey| bound_in(before.created, x) implies bound_in(
            p.created,
            x,
        ) by {
            let i = choose|i: int|
                0 <= i < before.created.len() && (#[trigger] before.created[i]).key() == x;
            assert(p.created[i].key() == x);
        }
        assert forall|x: BindingKey| reported(before.errors, x) implies reported(p.errors, x) by {
            let i = choose|i: int|
                0 <= i < before.errors.len() && (#[trigger] before.errors[i]).key() == x;
            assert(p.errors[i].key() == x);
        }
        if is_missing_at(sockets, live, prefixes, ranges, n - 1) {
            assert(!bound_in(before.created, key)) by {
                if bound_in(before.created, key) {
                    let i = choose|i: int|
                        0 <= i < before.created.len() && (#[trigger] before.created[i]).key()
                            == key;
                    assert(live.take(m as int).contains(before.created[i].key()));
                }
            }
            match outcome_of(attempts, key) {
                None => {},
                Some(BindOutcome::Failed(code)) => {
                    let f = failure(key, port, BindError::Os(code));
                    assert(p.errors[before.errors.len() as int] == f);
                    assert(f.key() == key);
                    assert(reported(p.errors, key));
                },
                Some(BindOutcome::Bound) => {
                    if before.next_id < u64::MAX {
                        let s = fresh_socket(before.next_id, key, port);
                        assert(p.created[before.created.len() as int] == s);
                        assert(s.key() == key);
                        assert(bound_in(p.created, key));
                        assert forall|i: int, j: int|
                            0 <= i < j < p.created.len() implies by_key()(#[trigger] p.created[i])
                            != by_key()(#[trigger] p.created[j]) by {
                            if j == before.created.len() {
                                assert(p.created[i] == before.created[i]);
                                assert(before.created[i].key() != key);
                            } else {
                                assert(p.created[i] == before.created[i]);
                                assert(p.created[j] == before.created[j]);
                            }
                        }
                        assert forall|e: int| 0 <= e < p.errors.len() implies !bound_in(
                            p.created,
                            (#[trigger] p.errors[e]).key(),
                        ) by {
                            let fk = p.errors[e].key();
                            assert(live.take(m as int).contains(fk));
                            if bound_in(p.created, fk) {
                                let i = choose|i: int|
                                    0 <= i < p.created.len() && (#[trigger] p.created[i]).key()
                                        == fk;
                                if i < before.created.len() {
                                    assert(before.created[i].key() == fk);
                                    assert(bound_in(before.created, fk));
                                }
                            }
                        }
                    } else {
                        let f = failure(key, port, BindError::SocketIdsExhausted);
                        assert(p.errors[before.errors.len() as int] == f);
                        assert(f.key() == key);
                        assert(reported(p.errors, key));
                    }
                },
            }
        }
    }
}

/// The sockets kept are among the old ones, and so are the sockets released.
pub proof fn lemma_reconcile_parts(
    old: PortView,
    live: Seq<BindingKey>,
    prefixes: Seq<Seq<char>>,
    ranges: Seq<Cidr>,
)
    ensures
        forall|s: SocketView| #[trigger]
            old.sockets.filter(wanted_sockets(live, prefixes, ranges)).contains(s)
                <==> old.sockets.contains(s) && wanted(s.key(), live, prefixes, ranges),
        forall|s: SocketView| #[trigger]
            old.sockets.filter(unwanted_sockets(live, prefixes, ranges)).contains(s)
                <==> old.sockets.contains(s) && !wanted(s.key(), live, prefixes, ranges),
{
    lemma_filter_holds(old.sockets, wanted_sockets(live, prefixes, ranges));
    lemma_filter_holds(old.sockets, unwanted_sockets(live, prefixes, ranges));
}

/// Reconciliation leaves the sockets of a port in order: all bound to the
/// port, no pair bound twice, no identity used twice, every identity below
/// the next one to give out.
pub proof fn lemma_reconcile_wf(
    old: PortView,
    live: Seq<BindingKey>,
    prefixes: Seq<Seq<char>>,
    ranges: Seq<Cidr>,
    attempts: Seq<AttemptView>,
    next_id: u64,
)
    requires
        old.wf(),
        old.ids_below(next_id),
    ensures
        ({
            let r = reconcile(old, live, prefixes, ranges, attempts, next_id);
            let after = PortView { port: old.port, sockets: r.sockets };
            &&& after.wf()
            &&& after.ids_below(r.next_id)
            &&& next_id <= r.next_id
        }),
{
    let r = reconcile(old, live, prefixes, ranges, attempts, next_id);
    let kept = old.sockets.filter(wanted_sockets(live, prefixes, ranges));
    lemma_bind_missing(old.sockets, old.port, live, prefixes, ranges, attempts, next_id, live.len());
    lemma_reconcile_parts(old, live, prefixes, ranges);
    lemma_filter_distinct(old.sockets, wanted_sockets(live, prefixes, ranges), by_key());
    lemma_filter_distinct(old.sockets, wanted_sockets(live, prefixes, ranges), by_id());
    assert forall|i: int| 0 <= i < kept.len() implies old.sockets.contains(#[trigger] kept[i]) by {
        assert(kept.contains(kept[i]));
    }
    assert forall|i: int| 0 <= i < kept.len() implies (#[trigger] kept[i]).id < next_id
        && kept[i].address.port == old.port && bound_in(old.sockets, kept[i].key()) by {
        assert(old.sockets.contains(kept[i]));
        let k = choose|k: int| 0 <= k < old.sockets.len() && old.sockets[k] == kept[i];
        assert(old.sockets[k].id < next_id);
    }
    assert forall|i: int| 0 <= i < r.sockets.len() implies (#[trigger] r.sockets[i]).address.port
        == old.port && r.sockets[i].id < r.next_id by {
        if i >= kept.len() {
            assert(r.sockets[i] == r.created[i - kept.len()]);
        } else {
            assert(r.sockets[i] == kept[i]);
        }
    }
    assert forall|i: int, j: int| 0 <= i < j < r.sockets.len() implies by_key()(
        #[trigger] r.sockets[i],
    ) != by_key()(#[trigger] r.sockets[j]) && by_id()(r.sockets[i]) != by_id()(r.sockets[j]) by {
        if j < kept.len() {
            assert(r.sockets[i] == kept[i] && r.sockets[j] == kept[j]);
        } else if i >= kept.len() {
            assert(r.sockets[i] == r.created[i - kept.len()]);
            assert(r.sockets[j] == r.created[j - kept.len()]);
        } else {
            assert(r.sockets[i] == kept[i]);
            assert(r.sockets[j] == r.created[j - kept.len()]);
        }
    }
}

/// A pair that a sequence holds has a first position in it.
pub proof fn lemma_first_position(live: Seq<BindingKey>, key: BindingKey) -> (k: int)
    requires
        live.contains(key),
    ensures
        0 <= k < live.len(),
        live[k] == key,
        !live.take(k).contains(key),
    decreases live.len(),
{
    let i = choose|i: int| 0 <= i < live.len() && live[i] == key;
    if live.take(i).contains(key) {
        let k = lemma_first_position(live.take(i), key);
        assert(live.take(i).take(k) =~= live.take(k));
        k
    } else {
        i
    }
}

/// The pairs for which a socket has to be bound are those that are to have
/// a socket and have none yet, each of them once.
pub proof fn lemma_missing(
    sockets: Seq<SocketView>,
    live: Seq<BindingKey>,
    prefixes: Seq<Seq<char>>,
    ranges: Seq<Cidr>,
    n: nat,
)
    requires
        n <= live.len(),
    ensures
        forall|key: BindingKey| #[trigger]
            missing(sockets, live, prefixes, ranges, n).contains(key) <==> wanted(
                key,
                live.take(n as int),
                prefixes,
                ranges,
            ) && !bound_in(sockets, key),
        missing(sockets, live, prefixes, ranges, n).no_duplicates(),
    decreases n,
{
    let now = missing(sockets, live, prefixes, ranges, n);
    if n == 0 {
        assert(live.take(0) =~= Seq::empty());
    } else {
        let m = (n - 1) as nat;
        let before = missing(sockets, live, prefixes, ranges, m);
        let key = live[n - 1];
        lemma_missing(sockets, live, prefixes, ranges, m);
        assert(live.take(n as int) =~= live.take(m as int).push(key));
        assert(live.take(n as int)[n - 1] == key);
        assert forall|x: BindingKey| #[trigger] now.contains(x) <==> wanted(
            x,
            live.take(n as int),
            prefixes,
            ranges,
        ) && !bound_in(sockets, x) by {
            if now.contains(x) {
                let i = choose|i: int| 0 <= i < now.len() && now[i] == x;
                if i < before.len() {
                    assert(before[i] == x);
                    assert(before.contains(x));
                    let k = choose|k: int| 0 <= k < m && live.take(m as int)[k] == x;
                    assert(live.take(n as int)[k] == x);
                }
            }
            if wanted(x, live.take(n as int), prefixes, ranges) && !bound_in(sockets, x) {
                let k = choose|k: int| 0 <= k < n && live.take(n as int)[k] == x;
                if k < m {
                    assert(live.take(m as int)[k] == x);
                    assert(before.contains(x));
                    let i = choose|i: int| 0 <= i < before.len() && before[i] == x;
                    assert(now[i] == x);
                } else if live.take(m as int).contains(x) {
                    assert(before.contains(x));
                    let i = choose|i: int| 0 <= i < before.len() && before[i] == x;
                    assert(now[i] == x);
                } else {
                    assert(is_missing_at(sockets, live, prefixes, ranges, n - 1));
                    assert(now[before.len() as int] == x);
                }
            }
        }
        if is_missing_at(sockets, live, prefixes, ranges, n - 1) {
            assert(!before.contains(key));
            assert forall|i: int, j: int| 0 <= i < now.len() && 0 <= j < now.len() && i
                != j implies now[i] != now[j] by {
                if i < before.len() && j < before.len() {
                    assert(before[i] != before[j]);
                } else if i < before.len() {
                    assert(before.contains(before[i]));
                } else {
                    assert(before.contains(before[j]));
                }
            }
        }
    }
}

/// After a reconciliation no pair has two sockets and no pair that the
/// system does not report, or that a blacklist excludes, has any. Every
/// other pair has its socket, unless a failure is reported for it or no
/// bind was attempted for it; it has its socket for certain if it had one
/// before, or if its bind succeeded and a socket identity was left.
pub proof fn lemma_one_socket_per_pair(
    old: PortView,
    live: Seq<BindingKey>,
    prefixes: Seq<Seq<char>>,
    ranges: Seq<Cidr>,
    attempts: Seq<AttemptView>,
    next_id: u64,
)
    requires
        old.wf(),
        old.ids_below(next_id),
    ensures
        ({
            let r = reconcile(old, live, prefixes, ranges, attempts, next_id);
            &&& distinct_by(r.sockets, by_key())
            &&& forall|key: BindingKey| #[trigger]
                bound_in(r.sockets, key) ==> wanted(key, live, prefixes, ranges)
            &&& forall|key: BindingKey| #[trigger]
                wanted(key, live, prefixes, ranges) ==> bound_in(r.sockets, key) || reported(
                    r.errors,
                    key,
                ) || outcome_of(attempts, key) is None
            &&& forall|key: BindingKey| #[trigger]
                wanted(key, live, prefixes, ranges) && (bound_in(old.sockets, key) || (outcome_of(
                    attempts,
                    key,
                ) == Some(BindOutcome::Bound) && r.next_id < u64::MAX)) ==> bound_in(
                    r.sockets,
                    key,
                )
            &&& forall|key: BindingKey| #[trigger]
                reported(r.errors, key) ==> wanted(key, live, prefixes, ranges) && !bound_in(
                    r.sockets,
                    key,
                )
        }),
{
    let r = reconcile(old, live, prefixes, ranges, attempts, next_id);
    let kept = old.sockets.filter(wanted_sockets(live, prefixes, ranges));
    lemma_reconcile_wf(old, live, prefixes, ranges, attempts, next_id);
    lemma_reconcile_parts(old, live, prefixes, ranges);
    lemma_bind_missing(old.sockets, old.port, live, prefixes, ranges, attempts, next_id, live.len());
    assert(live.take(live.len() as int) =~= live);
    assert forall|key: BindingKey| #[trigger] bound_in(r.sockets, key) implies wanted(
        key,
        live,
        prefixes,
        ranges,
    ) by {
        let i = choose|i: int| 0 <= i < r.sockets.len() && (#[trigger] r.sockets[i]).key() == key;
        if i < kept.len() {
            assert(r.sockets[i] == kept[i]);
            assert(kept.contains(kept[i]));
        } else {
            assert(r.sockets[i] == r.created[i - kept.len()]);
        }
    }
    assert forall|key: BindingKey| bound_in(kept, key) || bound_in(r.created, key) implies bound_in(
        r.sockets,
        key,
    ) by {
        if bound_in(kept, key) {
            let i = choose|i: int| 0 <= i < kept.len() && (#[trigger] kept[i]).key() == key;
            assert(r.sockets[i].key() == key);
        } else {
            let i = choose|i: int|
                0 <= i < r.created.len() && (#[trigger] r.created[i]).key() == key;
            assert(r.sockets[kept.len() + i].key() == key);
        }
    }
    assert forall|key: BindingKey| #[trigger] wanted(key, live, prefixes, ranges) implies (bound_in(
        r.sockets,
        key,
    ) || reported(r.errors, key) || outcome_of(attempts, key) is None) && ((bound_in(
        old.sockets,
        key,
    ) || (outcome_of(attempts, key) == Some(BindOutcome::Bound) && r.next_id < u64::MAX))
        ==> bound_in(r.sockets, key)) by {
        lemma_kept_bound(old.sockets, live, prefixes, ranges, key);
        if !bound_in(old.sockets, key) {
            let k = lemma_first_position(live, key);
            assert(is_missing_at(old.sockets, live, prefixes, ranges, k));
            if reported(r.errors, key) {
                let e = choose|e: int|
                    0 <= e < r.errors.len() && (#[trigger] r.errors[e]).key() == key;
                assert(r.errors[e].key() == key);
            }
        }
    }
    assert forall|key: BindingKey| #[trigger] reported(r.errors, key) implies wanted(
        key,
        live,
        prefixes,
        ranges,
    ) && !bound_in(r.sockets, key) by {
        let e = choose|e: int| 0 <= e < r.errors.len() && (#[trigger] r.errors[e]).key() == key;
        let f = r.errors[e];
        lemma_kept_bound(old.sockets, live, prefixes, ranges, key);
        if bound_in(r.sockets, key) {
            let i = choose|i: int|
                0 <= i < r.sockets.len() && (#[trigger] r.sockets[i]).key() == key;
            if i < kept.len() {
                assert(kept[i].key() == key);
                assert(bound_in(kept, key));
            } else {
                assert(r.created[i - kept.len()].key() == key);
                assert(bound_in(r.created, key));
            }
        }
    }
}

/// While the socket identities from `next_id` on suffice for every pair of
/// the system's list, no bind is turned down for want of an identity.
pub proof fn lemma_identities_suffice(
    sockets: Seq<SocketView>,
    port: u16,
    live: Seq<BindingKey>,
    prefixes: Seq<Seq<char>>,
    ranges: Seq<Cidr>,
    attempts: Seq<AttemptView>,
    next_id: u64,
    n: nat,
)
    requires
        n <= live.len(),
        next_id + live.len() <= u64::MAX,
    ensures
        ({
            let p = bind_missing(sockets, port, live, prefixes, ranges, attempts, next_id, n);
            &&& p.created.len() <= n
            &&& forall|e: int|
                0 <= e < p.errors.len() ==> (#[trigger] p.errors[e]).error
                    != BindError::SocketIdsExhausted
        }),
    decreases n,
{
    if n > 0 {
        let m = (n - 1) as nat;
        lemma_identities_suffice(sockets, port, live, prefixes, ranges, attempts, next_id, m);
        lemma_bind_missing(sockets, port, live, prefixes, ranges, attempts, next_id, m);
        let before = bind_missing(sockets, port, live, prefixes, ranges, attempts, next_id, m);
        let p = bind_missing(sockets, port, live, prefixes, ranges, attempts, next_id, n);
        assert(before.next_id < u64::MAX);
        assert forall|e: int| 0 <= e < p.errors.len() implies (#[trigger] p.errors[e]).error
            != BindError::SocketIdsExhausted by {
            if e < before.errors.len() {
                assert(p.errors[e] == before.errors[e]);
            }
        }
    }
}

/// The pairs that the sockets are bound to, in order.
pub open spec fn keys_bound(sockets: Seq<SocketView>) -> Seq<BindingKey> {
    sockets.map_values(by_key())
}

/// Where the system bound every pair that is to have a socket and had
/// none, and the socket identities suffice, the port has afterwards exactly
/// one socket for each pair that is to have one, and no other socket: the
/// pairs bound are those pairs, none of them twice, so that there are as
/// many sockets as such pairs. No failure is reported.
pub proof fn lemma_every_pair_bound(
    old: PortView,
    live: Seq<BindingKey>,
    prefixes: Seq<Seq<char>>,
    ranges: Seq<Cidr>,
    attempts: Seq<AttemptView>,
    next_id: u64,
)
    requires
        old.wf(),
        old.ids_below(next_id),
        next_id + live.len() <= u64::MAX,
        forall|key: BindingKey|
            wanted(key, live, prefixes, ranges) && !bound_in(old.sockets, key) ==> #[trigger] outcome_of(
                attempts,
                key,
            ) == Some(BindOutcome::Bound),
    ensures
        ({
            let r = reconcile(old, live, prefixes, ranges, attempts, next_id);
            let pairs = Set::new(|key: BindingKey| wanted(key, live, prefixes, ranges));
            &&& forall|key: BindingKey| #[trigger]
                bound_in(r.sockets, key) <==> wanted(key, live, prefixes, ranges)
            &&& keys_bound(r.sockets).no_duplicates()
            &&& keys_bound(r.sockets).to_set() == pairs
            &&& r.sockets.len() == pairs.len()
            &&& r.errors.len() == 0
        }),
{
    let r = reconcile(old, live, prefixes, ranges, attempts, next_id);
    let pairs = Set::new(|key: BindingKey| wanted(key, live, prefixes, ranges));
    let keys = keys_bound(r.sockets);
    lemma_one_socket_per_pair(old, live, prefixes, ranges, attempts, next_id);
    lemma_bind_missing(old.sockets, old.port, live, prefixes, ranges, attempts, next_id, live.len());
    lemma_identities_suffice(
        old.sockets,
        old.port,
        live,
        prefixes,
        ranges,
        attempts,
        next_id,
        live.len(),
    );
    assert(live.take(live.len() as int) =~= live);
    if r.errors.len() > 0 {
        let f = r.errors[0];
        assert(wanted(f.key(), live, prefixes, ranges));
        assert(outcome_of(attempts, f.key()) == Some(BindOutcome::Bound));
        assert(f.error != BindError::SocketIdsExhausted);
    }
    assert forall|key: BindingKey| #[trigger] bound_in(r.sockets, key) <==> wanted(
        key,
        live,
        prefixes,
        ranges,
    ) by {
        if wanted(key, live, prefixes, ranges) && !bound_in(r.sockets, key) {
            assert(!bound_in(old.sockets, key));
            assert(outcome_of(attempts, key) == Some(BindOutcome::Bound));
            assert(reported(r.errors, key));
        }
    }
    assert forall|i: int, j: int| 0 <= i < keys.len() && 0 <= j < keys.len() && i
        != j implies keys[i] != keys[j] by {
        if i < j {
            assert(by_key()(r.sockets[i]) != by_key()(r.sockets[j]));
        } else {
            assert(by_key()(r.sockets[j]) != by_key()(r.sockets[i]));
        }
    }
    assert forall|key: BindingKey| keys.to_set().contains(key) <==> pairs.contains(key) by {
        if keys.contains(key) {
            let i = choose|i: int| 0 <= i < keys.len() && keys[i] == key;
            assert(r.sockets[i].key() == key);
            assert(bound_in(r.sockets, key));
        }
        if bound_in(r.sockets, key) {
            let i = choose|i: int|
                0 <= i < r.sockets.len() && (#[trigger] r.sockets[i]).key() == key;
            assert(keys[i] == key);
        }
    }
    assert(keys.to_set() =~= pairs);
    keys.unique_seq_to_set();
}

/// A refused bind is reported, whatever becomes of the other pairs: where a
/// pair is to have a socket, has none yet, and the system refused its bind,
/// the failures of the reconciliation hold that pair with the system's error
/// code, and the pair has no socket afterwards.
pub proof fn lemma_refused_bind_is_reported(
    old: PortView,
    live: Seq<BindingKey>,
    prefixes: Seq<Seq<char>>,
    ranges: Seq<Cidr>,
    attempts: Seq<AttemptView>,
    next_id: u64,
    key: BindingKey,
    code: i32,
)
    requires
        old.wf(),
        old.ids_below(next_id),
        wanted(key, live, prefixes, ranges),
        !bound_in(old.sockets, key),
        outcome_of(attempts, key) == Some(BindOutcome::Failed(code)),
    ensures
        ({
            let r = reconcile(old, live, prefixes, ranges, attempts, next_id);
            &&& r.errors.contains(failure(key, old.port, BindError::Os(code)))
            &&& !bound_in(r.sockets, key)
        }),
{
    let r = reconcile(old, live, prefixes, ranges, attempts, next_id);
    let kept = old.sockets.filter(wanted_sockets(live, prefixes, ranges));
    lemma_one_socket_per_pair(old, live, prefixes, ranges, attempts, next_id);
    lemma_kept_bound(old.sockets, live, prefixes, ranges, key);
    lemma_bind_missing(old.sockets, old.port, live, prefixes, ranges, attempts, next_id, live.len());
    if bound_in(r.sockets, key) {
        let i = choose|i: int| 0 <= i < r.sockets.len() && (#[trigger] r.sockets[i]).key() == key;
        if i < kept.len() {
            assert(kept[i].key() == key);
            assert(bound_in(kept, key));
        } else {
            assert(r.created[i - kept.len()].key() == key);
        }
    }
    assert(reported(r.errors, key));
    let e = choose|e: int| 0 <= e < r.errors.len() && (#[trigger] r.errors[e]).key() == key;
    let f = r.errors[e];
    assert(f.key() == key && f.address.port == old.port);
    assert(f == failure(key, old.port, BindError::Os(code)));
}

/// A reconciliation releases exactly the sockets whose pair the system no
/// longer reports or a blacklist now excludes, and leaves every other
/// socket as it was, with its workers.
pub proof fn lemma_released_exactly(
    old: PortView,
    live: Seq<BindingKey>,
    prefixes: Seq<Seq<char>>,
    ranges: Seq<Cidr>,
    attempts: Seq<AttemptView>,
    next_id: u64,
)
    ensures
        ({
            let r = reconcile(old, live, prefixes, ranges, attempts, next_id);
            &&& forall|s: SocketView| #[trigger]
                r.released.contains(s) <==> old.sockets.contains(s) && !wanted(
                    s.key(),
                    live,
                    prefixes,
                    ranges,
                )
            &&& forall|s: SocketView|
                old.sockets.contains(s) && wanted(s.key(), live, prefixes, ranges)
                    ==> #[trigger] r.sockets.contains(s)
            &&& forall|s: SocketView| #[trigger]
                r.sockets.contains(s) ==> r.created.contains(s) || (old.sockets.contains(s)
                    && wanted(s.key(), live, prefixes, ranges))
        }),
{
    let r = reconcile(old, live, prefixes, ranges, attempts, next_id);
    let kept = old.sockets.filter(wanted_sockets(live, prefixes, ranges));
    lemma_reconcile_parts(old, live, prefixes, ranges);
    assert forall|s: SocketView|
        old.sockets.contains(s) && wanted(s.key(), live, prefixes, ranges) implies #[trigger] r.sockets.contains(
        s,
    ) by {
        assert(kept.contains(s));
        let i = choose|i: int| 0 <= i < kept.len() && kept[i] == s;
        assert(r.sockets[i] == s);
    }
    assert forall|s: SocketView| #[trigger] r.sockets.contains(s) implies r.created.contains(s) || (
    old.sockets.contains(s) && wanted(s.key(), live, prefixes, ranges)) by {
        let i = choose|i: int| 0 <= i < r.sockets.len() && r.sockets[i] == s;
        if i < kept.len() {
            assert(kept[i] == s);
            assert(kept.contains(s));
        } else {
            assert(r.created[i - kept.len()] == s);
        }
    }
}

/// The pairs of other interfaces than `gone`.
pub open spec fn other_interfaces(gone: Seq<char>) -> spec_fn(BindingKey) -> bool {
    |key: BindingKey| key.interface != gone
}

/// When an interface disappears from the system's list, the next
/// reconciliation releases exactly the sockets that were bound to it: every
/// socket of that interface goes, and every socket of another interface
/// stays as it was.
pub proof fn lemma_interface_removed(
    old: PortView,
    live: Seq<BindingKey>,
    prefixes: Seq<Seq<char>>,
    ranges: Seq<Cidr>,
    attempts: Seq<AttemptView>,
    next_id: u64,
    later_attempts: Seq<AttemptView>,
    gone: Seq<char>,
)
    requires
        old.wf(),
        old.ids_below(next_id),
    ensures
        ({
            let first = reconcile(old, live, prefixes, ranges, attempts, next_id);
            let second = reconcile(
                PortView { port: old.port, sockets: first.sockets },
                live.filter(other_interfaces(gone)),
                prefixes,
                ranges,
                later_attempts,
                first.next_id,
            );
            &&& forall|s: SocketView| #[trigger]
                second.released.contains(s) <==> first.sockets.contains(s) && s.interface == gone
            &&& forall|s: SocketView|
                first.sockets.contains(s) && s.interface != gone ==> #[trigger] second.sockets.contains(
                    s,
                )
            &&& forall|s: SocketView| #[trigger]
                second.sockets.contains(s) ==> s.interface != gone
        }),
{
    let first = reconcile(old, live, prefixes, ranges, attempts, next_id);
    let port = PortView { port: old.port, sockets: first.sockets };
    let rest = live.filter(other_interfaces(gone));
    let second = reconcile(port, rest, prefixes, ranges, later_attempts, first.next_id);
    lemma_one_socket_per_pair(old, live, prefixes, ranges, attempts, next_id);
    lemma_reconcile_wf(old, live, prefixes, ranges, attempts, next_id);
    lemma_released_exactly(port, rest, prefixes, ranges, later_attempts, first.next_id);
    lemma_one_socket_per_pair(port, rest, prefixes, ranges, later_attempts, first.next_id);
    lemma_filter_holds(live, other_interfaces(gone));
    assert forall|s: SocketView| first.sockets.contains(s) implies (wanted(
        s.key(),
        rest,
        prefixes,
        ranges,
    ) <==> s.interface != gone) by {
        let i = choose|i: int| 0 <= i < first.sockets.len() && first.sockets[i] == s;
        assert(bound_in(first.sockets, s.key()));
        assert(wanted(s.key(), live, prefixes, ranges));
        assert(rest.contains(s.key()) <==> live.contains(s.key()) && other_interfaces(gone)(
            s.key(),
        ));
    }
    assert forall|s: SocketView| #[trigger] second.sockets.contains(s) implies s.interface
        != gone by {
        let i = choose|i: int| 0 <= i < second.sockets.len() && second.sockets[i] == s;
        assert(bound_in(second.sockets, s.key()));
        assert(wanted(s.key(), rest, prefixes, ranges));
        assert(rest.contains(s.key()));
    }
}

/// A pair that is to have a socket is bound among the sockets kept exactly
/// when it was bound before.
pub proof fn lemma_kept_bound(
    sockets: Seq<SocketView>,
    live: Seq<BindingKey>,
    prefixes: Seq<Seq<char>>,
    ranges: Seq<Cidr>,
    key: BindingKey,
)
    requires
        wanted(key, live, prefixes, ranges),
    ensures
        bound_in(sockets.filter(wanted_sockets(live, prefixes, ranges)), key) == bound_in(
            sockets,
            key,
        ),
{
    let kept = sockets.filter(wanted_sockets(live, prefixes, ranges));
    lemma_filter_holds(sockets, wanted_sockets(live, prefixes, ranges));
    if bound_in(sockets, key) {
        let i = choose|i: int| 0 <= i < sockets.len() && (#[trigger] sockets[i]).key() == key;
        assert(sockets.contains(sockets[i]));
        assert(kept.contains(sockets[i]));
        let k = choose|k: int| 0 <= k < kept.len() && kept[k] == sockets[i];
        assert(kept[k].key() == key);
    }
    if bound_in(kept, key) {
        let k = choose|k: int| 0 <= k < kept.len() && (#[trigger] kept[k]).key() == key;
        assert(kept.contains(kept[k]));
        assert(sockets.contains(kept[k]));
        let i = choose|i: int| 0 <= i < sockets.len() && sockets[i] == kept[k];
        assert(sockets[i].key() == key);
    }
}

/// All the sockets bound to one UDP port, at most one per interface/address
/// pair.
#[derive(Debug)]
pub struct BoundUdpPort {
    pub(crate) port: u16,
    pub(crate) sockets: Vec<BoundUdpSocket>,
}

impl View for BoundUdpPort {
    type V = PortView;

    closed spec fn view(&self) -> PortView {
        PortView { port: self.port, sockets: sockets_of(self.sockets@) }
    }
}

/// What a reconciliation changed.
#[derive(Debug)]
pub struct BindingChanges {
    /// The pairs for which no socket could be created.
    pub errors: Vec<BindFailure>,
    /// The sockets that were created, by their identities; they are the
    /// last ones of the port.
    pub new_sockets: Vec<u64>,
    /// The sockets that were released.
    pub released: Vec<BoundUdpSocket>,
}

/// The position of the first of the first `limit` entries of the system's
/// list that holds the pair.
fn first_listed(
    live: &Vec<SystemAddress>,
    interface: &LocalInterface,
    address: &IpAddress,
    limit: usize,
) -> (found: Option<usize>)
    requires
        limit <= live.len(),
    ensures
        ({
            let key = BindingKey { interface: interface@, address: *address };
            match found {
                Some(k) => k < limit && keys_of(live@)[k as int] == key,
                None => !keys_of(live@).take(limit as int).contains(key),
            }
        }),
{
    let mut k: usize = 0;
    while k < limit
        invariant
            0 <= k <= limit <= live.len(),
            forall|j: int|
                0 <= j < k ==> keys_of(live@)[j] != (BindingKey {
                    interface: interface@,
                    address: *address,
                }),
        decreases limit - k,
    {
        if live[k].address == *address && live[k].interface.same(interface) {
            return Some(k);
        }
        k = k + 1;
    }
    None
}

/// Whether the socket's pair is to have a socket.
fn is_wanted(
    socket: &BoundUdpSocket,
    live: &Vec<SystemAddress>,
    prefixes: &Vec<String>,
    ranges: &Vec<Cidr>,
) -> (keep: bool)
    ensures
        keep == wanted(socket@.key(), keys_of(live@), names_of(prefixes@), ranges@),
{
    match first_listed(live, &socket.interface, &socket.address.ip, live.len()) {
        Some(k) => {
            proof {
                assert(keys_of(live@)[k as int] == socket@.key());
                assert(keys_of(live@).contains(socket@.key()));
            }
            live[k].qualifies(prefixes, ranges)
        },
        None => {
            proof {
                assert(keys_of(live@).take(live@.len() as int) =~= keys_of(live@));
            }
            false
        },
    }
}

/// Whether one of the first `limit` sockets is bound to the pair.
fn bound_among(
    sockets: &Vec<BoundUdpSocket>,
    interface: &LocalInterface,
    address: &IpAddress,
    limit: usize,
) -> (found: bool)
    requires
        limit <= sockets.len(),
    ensures
        found == bound_in(
            sockets_of(sockets@).take(limit as int),
            BindingKey { interface: interface@, address: *address },
        ),
{
    let ghost key = BindingKey { interface: interface@, address: *address };
    let ghost views = sockets_of(sockets@).take(limit as int);
    let mut i: usize = 0;
    while i < limit
        invariant
            0 <= i <= limit <= sockets.len(),
            views == sockets_of(sockets@).take(limit as int),
            key == (BindingKey { interface: interface@, address: *address }),
            forall|j: int| 0 <= j < i ==> (#[trigger] views[j]).key() != key,
        decreases limit - i,
    {
        if sockets[i].is_bound_to(interface, address) {
            proof {
                assert(views[i as int] == sockets@[i as int]@);
            }
            return true;
        }
        i = i + 1;
    }
    false
}

/// The outcome of the first attempt for the pair, if there was any.
fn find_attempt(
    attempts: &Vec<BindAttempt>,
    interface: &LocalInterface,
    address: &IpAddress,
) -> (outcome: Option<BindOutcome>)
    ensures
        outcome == outcome_of(
            attempts_of(attempts@),
            BindingKey { interface: interface@, address: *address },
        ),
{
    let ghost key = BindingKey { interface: interface@, address: *address };
    let ghost views = attempts_of(attempts@);
    let mut i: usize = 0;
    while i < attempts.len()
        invariant
            0 <= i <= attempts.len(),
            views == attempts_of(attempts@),
            key == (BindingKey { interface: interface@, address: *address }),
            outcome_of(views, key) == outcome_from(views, key, i as int),
        decreases attempts.len() - i,
    {
        proof {
            assert(views[i as int] == attempts@[i as int]@);
        }
        if attempts[i].address == *address && attempts[i].interface.same(interface) {
            return Some(attempts[i].outcome);
        }
        i = i + 1;
    }
    None
}

impl BoundUdpPort {
    /// The port, with no socket bound yet.
    pub fn new(port: u16) -> (bound: Self)
        ensures
            bound@ == (PortView { port, sockets: Seq::empty() }),
            bound@.wf(),
    {
        let bound = BoundUdpPort { port, sockets: Vec::new() };
        proof {
            assert(bound@.sockets =~= Seq::empty());
        }
        bound
    }

    /// The port number.
    pub fn port(&self) -> (port: u16)
        ensures
            port == self@.port,
    {
        self.port
    }

    /// The sockets bound to the port.
    pub fn sockets(&self) -> (sockets: &Vec<BoundUdpSocket>)
        ensures
            sockets_of(sockets@) == self@.sockets,
    {
        &self.sockets
    }

    /// Sets the number of references to the socket at position `i`.
    pub(crate) fn set_references(&mut self, i: usize, references: usize)
        requires
            i < old(self)@.sockets.len(),
        ensures
            final(self)@ == (PortView {
                port: old(self)@.port,
                sockets: old(self)@.sockets.update(
                    i as int,
                    SocketView { references: references as nat, ..old(self)@.sockets[i as int] },
                ),
            }),
    {
        let ghost before = self@;
        self.sockets[i].references = references;
        proof {
            assert(self@.sockets =~= before.sockets.update(
                i as int,
                SocketView { references: references as nat, ..before.sockets[i as int] },
            ));
        }
    }

    /// Gives the socket at position `i` its receive workers.
    pub(crate) fn set_tasks(&mut self, i: usize, tasks: Vec<u64>)
        requires
            i < old(self)@.sockets.len(),
        ensures
            final(self)@ == (PortView {
                port: old(self)@.port,
                sockets: old(self)@.sockets.update(
                    i as int,
                    SocketView { tasks: tasks@, ..old(self)@.sockets[i as int] },
                ),
            }),
    {
        let ghost before = self@;
        self.sockets[i].tasks = tasks;
        proof {
            assert(self@.sockets =~= before.sockets.update(
                i as int,
                SocketView { tasks: tasks@, ..before.sockets[i as int] },
            ));
        }
    }

    /// Whether no socket is bound to the port.
    pub fn is_empty(&self) -> (empty: bool)
        ensures
            empty == (self@.sockets.len() == 0),
    {
        self.sockets.len() == 0
    }

    /// The pairs of the system's list for which a socket has to be bound
    /// before the next reconciliation: each pair that may be bound and has
    /// no socket yet, once, in the order of the list.
    pub fn missing_bindings(
        &self,
        interface_prefix_blacklist: &Vec<String>,
        cidr_blacklist: &Vec<Cidr>,
        live: &Vec<SystemAddress>,
    ) -> (list: Vec<SystemAddress>)
        ensures
            keys_of(list@) == missing(
                self@.sockets,
                keys_of(live@),
                names_of(interface_prefix_blacklist@),
                cidr_blacklist@,
                live@.len(),
            ),
    {
        let ghost keys = keys_of(live@);
        let ghost prefixes = names_of(interface_prefix_blacklist@);
        let mut list: Vec<SystemAddress> = Vec::new();
        let mut i: usize = 0;
        proof {
            assert(keys_of(list@) =~= Seq::empty());
        }
        while i < live.len()
            invariant
                0 <= i <= live.len(),
                keys == keys_of(live@),
                prefixes == names_of(interface_prefix_blacklist@),
                keys_of(list@) == missing(
                    self@.sockets,
                    keys,
                    prefixes,
                    cidr_blacklist@,
                    i as nat,
                ),
            decreases live.len() - i,
        {
            let entry = &live[i];
            let ghost key = keys[i as int];
            proof {
                assert(key == entry@);
                assert(sockets_of(self.sockets@).take(self.sockets@.len() as int) =~= sockets_of(
                    self.sockets@,
                ));
            }
            let earlier = first_listed(live, &entry.interface, &entry.address, i);
            proof {
                if let Some(k) = earlier {
                    assert(keys.take(i as int)[k as int] == key);
                }
            }
            if earlier.is_none() && entry.qualifies(interface_prefix_blacklist, cidr_blacklist)
                && !bound_among(
                &self.sockets,
                &entry.interface,
                &entry.address,
                self.sockets.len(),
            ) {
                let ghost before = keys_of(list@);
                list.push(
                    SystemAddress { interface: entry.interface.duplicate(), address: entry.address },
                );
                proof {
                    assert(keys_of(list@) =~= before.push(key));
                }
            }
            i = i + 1;
        }
        list
    }

    /// Reconciles the sockets of the port with the system's list of
    /// interface/address pairs.
    ///
    /// A socket stays if its pair is in `live` and neither blacklist
    /// excludes it; every other socket is released. For each remaining pair
    /// of `live` that may be bound, the first entry of `attempts` for it
    /// decides: a socket is created if the bind succeeded, a failure is
    /// reported if it did not, and without an attempt the pair is left for
    /// the next reconciliation. New sockets take their identities from
    /// `next_id`.
    pub fn update_bindings(
        &mut self,
        interface_prefix_blacklist: &Vec<String>,
        cidr_blacklist: &Vec<Cidr>,
        live: &Vec<SystemAddress>,
        attempts: &Vec<BindAttempt>,
        next_id: &mut u64,
    ) -> (changes: BindingChanges)
        requires
            old(self)@.wf(),
            old(self)@.ids_below(*old(next_id)),
        ensures
            final(self)@.wf(),
            final(self)@.ids_below(*final(next_id)),
            *old(next_id) <= *final(next_id),
            ({
                let r = reconcile(
                    old(self)@,
                    keys_of(live@),
                    names_of(interface_prefix_blacklist@),
                    cidr_blacklist@,
                    attempts_of(attempts@),
                    *old(next_id),
                );
                &&& final(self)@ == (PortView { port: old(self)@.port, sockets: r.sockets })
                &&& failures_of(changes.errors@) == r.errors
                &&& sockets_of(changes.released@) == r.released
                &&& changes.new_sockets@ == ids_of(r.created)
                &&& *final(next_id) == r.next_id
            }),
    {
        let ghost before = self@;
        let ghost keys = keys_of(live@);
        let ghost prefixes = names_of(interface_prefix_blacklist@);
        let ghost ranges = cidr_blacklist@;
        let ghost tries = attempts_of(attempts@);
        let ghost start_id = *next_id;
        let ghost keep = wanted_sockets(keys, prefixes, ranges);
        let ghost discard = unwanted_sockets(keys, prefixes, ranges);
        let mut released: Vec<BoundUdpSocket> = Vec::new();
        let mut i: usize = 0;
        let ghost mut j: int = 0;
        proof {
            assert(sockets_of(self.sockets@).take(0) =~= before.sockets.take(0).filter(keep));
            assert(sockets_of(released@) =~= before.sockets.take(0).filter(discard));
            assert(sockets_of(self.sockets@).skip(0) =~= before.sockets.skip(0));
        }
        while i < self.sockets.len()
            invariant
                self.port == before.port,
                keys == keys_of(live@),
                prefixes == names_of(interface_prefix_blacklist@),
                ranges == cidr_blacklist@,
                keep == wanted_sockets(keys, prefixes, ranges),
                discard == unwanted_sockets(keys, prefixes, ranges),
                0 <= i <= self.sockets.len(),
                j == i + released.len(),
                j <= before.sockets.len(),
                sockets_of(self.sockets@).take(i as int) == before.sockets.take(j).filter(keep),
                sockets_of(self.sockets@).skip(i as int) == before.sockets.skip(j),
                sockets_of(released@) == before.sockets.take(j).filter(discard),
            decreases self.sockets.len() - i,
        {
            let ghost current = sockets_of(self.sockets@);
            let ghost gone = sockets_of(released@);
            proof {
                assert(current.skip(i as int).len() == before.sockets.skip(j).len());
                assert(current[i as int] == current.skip(i as int)[0]);
                assert(before.sockets[j] == before.sockets.skip(j)[0]);
                assert(before.sockets.take(j + 1) =~= before.sockets.take(j).push(
                    before.sockets[j],
                ));
                lemma_filter_push(before.sockets.take(j), before.sockets[j], keep);
                lemma_filter_push(before.sockets.take(j), before.sockets[j], discard);
                assert(current[i as int] == self.sockets@[i as int]@);
            }
            if is_wanted(&self.sockets[i], live, interface_prefix_blacklist, cidr_blacklist) {
                proof {
                    assert(current.take(i + 1) =~= current.take(i as int).push(current[i as int]));
                    assert(current.skip(i + 1) =~= current.skip(i as int).skip(1));
                    assert(before.sockets.skip(j + 1) =~= before.sockets.skip(j).skip(1));
                }
                i = i + 1;
            } else {
                let socket = self.sockets.remove(i);
                released.push(socket);
                proof {
                    let now = sockets_of(self.sockets@);
                    assert(now =~= current.remove(i as int));
                    assert(now.take(i as int) =~= current.take(i as int));
                    assert(now.skip(i as int) =~= current.skip(i as int).skip(1));
                    assert(before.sockets.skip(j + 1) =~= before.sockets.skip(j).skip(1));
                    assert(sockets_of(released@) =~= gone.push(current[i as int]));
                }
            }
            proof {
                j = j + 1;
            }
        }
        let kept_len = self.sockets.len();
        let ghost kept = sockets_of(self.sockets@);
        proof {
            assert(before.sockets.skip(j).len() == 0);
            assert(before.sockets.take(j) =~= before.sockets);
            assert(kept =~= kept.take(i as int));
            assert(kept == before.sockets.filter(keep));
        }
        let mut errors: Vec<BindFailure> = Vec::new();
        let mut new_sockets: Vec<u64> = Vec::new();
        let mut n: usize = 0;
        proof {
            assert(sockets_of(self.sockets@) =~= kept + Seq::<SocketView>::empty());
            assert(failures_of(errors@) =~= Seq::<FailureView>::empty());
            assert(new_sockets@ =~= ids_of(Seq::<SocketView>::empty()));
        }
        while n < live.len()
            invariant
                self.port == before.port,
                keys == keys_of(live@),
                prefixes == names_of(interface_prefix_blacklist@),
                ranges == cidr_blacklist@,
                tries == attempts_of(attempts@),
                keep == wanted_sockets(keys, prefixes, ranges),
                kept == before.sockets.filter(keep),
                kept_len == kept.len(),
                0 <= n <= live.len(),
                ({
                    let p = bind_missing(
                        before.sockets,
                        before.port,
                        keys,
                        prefixes,
                        ranges,
                        tries,
                        start_id,
                        n as nat,
                    );
                    &&& sockets_of(self.sockets@) == kept + p.created
                    &&& failures_of(errors@) == p.errors
                    &&& *next_id == p.next_id
                    &&& new_sockets@ == ids_of(p.created)
                }),
            decreases live.len() - n,
        {
            let entry = &live[n];
            let ghost key = keys[n as int];
            let ghost p = bind_missing(
                before.sockets,
                before.port,
                keys,
                prefixes,
                ranges,
                tries,
                start_id,
                n as nat,
            );
            let earlier = first_listed(live, &entry.interface, &entry.address, n);
            proof {
                assert(key == entry@);
                if let Some(k) = earlier {
                    assert(keys.take(n as int)[k as int] == key);
                }
                assert(sockets_of(self.sockets@).len() == self.sockets@.len());
                assert(sockets_of(self.sockets@).take(kept_len as int) =~= kept);
                assert(keys.contains(key));
                if qualifies(key, prefixes, ranges) {
                    lemma_kept_bound(before.sockets, keys, prefixes, ranges, key);
                }
            }
            if earlier.is_none() && entry.qualifies(interface_prefix_blacklist, cidr_blacklist)
                && !bound_among(&self.sockets, &entry.interface, &entry.address, kept_len) {
                assert(is_missing_at(before.sockets, keys, prefixes, ranges, n as int));
                match find_attempt(attempts, &entry.interface, &entry.address) {
                    None => {},
                    Some(BindOutcome::Failed(code)) => {
                        let ghost reported_before = failures_of(errors@);
                        errors.push(
                            BindFailure {
                                interface: entry.interface.duplicate(),
                                address: InetAddress { ip: entry.address, port: self.port },
                                error: BindError::Os(code),
                            },
                        );
                        proof {
                            assert(failures_of(errors@) =~= reported_before.push(
                                failure(key, before.port, BindError::Os(code)),
                            ));
                        }
                    },
                    Some(BindOutcome::Bound) => {
                        if *next_id < u64::MAX {
                            let ghost bound_before = sockets_of(self.sockets@);
                            self.sockets.push(
                                BoundUdpSocket {
                                    id: *next_id,
                                    interface: entry.interface.duplicate(),
                                    address: InetAddress { ip: entry.address, port: self.port },
                                    tasks: Vec::new(),
                                    references: 0,
                                },
                            );
                            proof {
                                let s = fresh_socket(*next_id, key, before.port);
                                assert(self.sockets@[bound_before.len() as int]@ == s);
                                assert(sockets_of(self.sockets@) =~= bound_before.push(s));
                                assert(bound_before.push(s) =~= kept + p.created.push(s));
                                assert(ids_of(p.created.push(s)) =~= ids_of(p.created).push(s.id));
                            }
                            new_sockets.push(*next_id);
                            *next_id = *next_id + 1;
                        } else {
                            let ghost reported_before = failures_of(errors@);
                            errors.push(
                                BindFailure {
                                    interface: entry.interface.duplicate(),
                                    address: InetAddress { ip: entry.address, port: self.port },
                                    error: BindError::SocketIdsExhausted,
                                },
                            );
                            proof {
                                assert(failures_of(errors@) =~= reported_before.push(
                                    failure(key, before.port, BindError::SocketIdsExhausted),
                                ));
                            }
                        }
                    },
                }
            } else {
                assert(!is_missing_at(before.sockets, keys, prefixes, ranges, n as int));
            }
            n = n + 1;
        }
        proof {
            lemma_reconcile_wf(before, keys, prefixes, ranges, tries, start_id);
        }
        BindingChanges { errors, new_sockets, released }
    }
}

} // verus!

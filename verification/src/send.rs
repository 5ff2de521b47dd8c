//! Outbound path selection: which bound sockets one logical datagram is sent
//! from, in which order, and when the selector stops.
//!
//! A [`WireSend`] is one send in progress. It hands out one socket at a time;
//! the caller performs the send and reports whether the system accepted it.

use vstd::prelude::*;
use crate::interface::LocalInterface;

verus! {

/// A socket that a datagram may be sent from, with the interface it is
/// bound to.
#[derive(Debug)]
pub struct Candidate {
    pub socket: u64,
    pub interface: LocalInterface,
}

/// A candidate as a mathematical value.
pub struct CandidateView {
    pub socket: u64,
    pub interface: Seq<char>,
}

impl View for Candidate {
    type V = CandidateView;

    open spec fn view(&self) -> CandidateView {
        CandidateView { socket: self.socket, interface: self.interface@ }
    }
}

/// The candidates that a list stands for.
pub open spec fn candidates_of(list: Seq<Candidate>) -> Seq<CandidateView> {
    list.map_values(|c: Candidate| c@)
}

/// The interface names that a list stands for.
pub open spec fn interface_names(list: Seq<LocalInterface>) -> Seq<Seq<char>> {
    list.map_values(|i: LocalInterface| i@)
}

/// When a selector stops sending.
#[derive(Clone, Copy, Debug, PartialEq, Eq, Structural)]
pub enum SendPolicy {
    /// Try the candidates in order and stop at the first accepted send.
    FirstSuccess,
    /// Try every candidate whose interface has not accepted a send yet.
    OncePerInterface,
}

/// One send in progress, as a mathematical value.
///
/// `outcomes[i]` tells what became of candidate `i`: `None` if it was passed
/// over, `Some(accepted)` if a send was attempted on it. Candidates from
/// `outcomes.len()` on have not been looked at yet. While `awaiting` holds,
/// the candidate at `outcomes.len()` has been handed out and its outcome is
/// still owed.
pub struct SendView {
    pub candidates: Seq<CandidateView>,
    pub policy: SendPolicy,
    pub outcomes: Seq<Option<bool>>,
    pub awaiting: bool,
}

impl SendView {
    /// A send on which nothing has been attempted yet.
    pub open spec fn fresh(candidates: Seq<CandidateView>, policy: SendPolicy) -> SendView {
        SendView { candidates, policy, outcomes: Seq::empty(), awaiting: false }
    }

    /// Whether a send was attempted on candidate `j` and accepted.
    pub open spec fn accepted(self, j: int) -> bool {
        0 <= j < self.outcomes.len() && self.outcomes[j] == Some(true)
    }

    /// Whether the accepted send on candidate `j` rules candidate `i` out.
    pub open spec fn blocks(self, j: int, i: int) -> bool {
        self.accepted(j) && match self.policy {
            SendPolicy::FirstSuccess => true,
            SendPolicy::OncePerInterface => self.candidates[j].interface
                == self.candidates[i].interface,
        }
    }

    /// Whether candidate `i` is to be attempted, given what became of the
    /// candidates before it.
    pub open spec fn eligible(self, i: int) -> bool {
        forall|j: int| 0 <= j < i ==> !#[trigger] self.blocks(j, i)
    }

    /// Whether some accepted send went out of the interface `name`.
    pub open spec fn sent_on(self, name: Seq<char>) -> bool {
        exists|j: int| #[trigger] self.accepted(j) && self.candidates[j].interface == name
    }

    /// Whether the datagram has left on at least one socket.
    pub open spec fn delivered(self) -> bool {
        exists|j: int| #[trigger] self.accepted(j)
    }

    /// Whether every candidate has been dealt with.
    pub open spec fn finished(self) -> bool {
        !self.awaiting && self.outcomes.len() == self.candidates.len()
    }

    /// The states that a selector can be in: exactly the eligible candidates
    /// among those dealt with were attempted.
    pub open spec fn wf(self) -> bool {
        &&& self.outcomes.len() <= self.candidates.len()
        &&& self.awaiting ==> self.outcomes.len() < self.candidates.len() && self.eligible(
            self.outcomes.len() as int,
        )
        &&& forall|i: int|
            0 <= i < self.outcomes.len() ==> ((#[trigger] self.outcomes[i]) is Some
                <==> self.eligible(i))
    }

    /// The first eligible candidate from `k` on, or the number of candidates
    /// if there is none.
    pub open spec fn seek(self, k: int) -> int
        decreases self.candidates.len() - k,
    {
        if k >= self.candidates.len() {
            self.candidates.len() as int
        } else if self.eligible(k) {
            k
        } else {
            self.seek(k + 1)
        }
    }

    /// The socket whose outcome is owed, if any.
    pub open spec fn pending(self) -> Option<u64> {
        if self.awaiting {
            Some(self.candidates[self.outcomes.len() as int].socket)
        } else {
            None
        }
    }

    /// The state after moving on to the next candidate to attempt: the
    /// candidates before it are passed over. A state that awaits an outcome
    /// stays as it is.
    pub open spec fn advanced(self) -> SendView {
        if self.awaiting {
            self
        } else {
            let n = self.seek(self.outcomes.len() as int);
            SendView {
                candidates: self.candidates,
                policy: self.policy,
                outcomes: self.outcomes + Seq::new(
                    (n - self.outcomes.len()) as nat,
                    |k: int| None::<bool>,
                ),
                awaiting: n < self.candidates.len(),
            }
        }
    }

    /// The state after the outcome of the pending attempt is known. A state
    /// that awaits no outcome stays as it is.
    pub open spec fn recorded(self, accepted: bool) -> SendView {
        if self.awaiting {
            SendView {
                candidates: self.candidates,
                policy: self.policy,
                outcomes: self.outcomes.push(Some(accepted)),
                awaiting: false,
            }
        } else {
            self
        }
    }

    /// Under `OncePerInterface`, once a send has been accepted on an
    /// interface, no later send is attempted on that interface: of all the
    /// sockets bound to one interface, at most one carries the datagram.
    pub proof fn lemma_at_most_once_per_interface(self, j: int, i: int)
        requires
            self.wf(),
            self.policy == SendPolicy::OncePerInterface,
            0 <= j < i < self.outcomes.len(),
            self.accepted(j),
            self.outcomes[i] is Some,
        ensures
            self.candidates[j].interface != self.candidates[i].interface,
    {
        assert(self.eligible(i));
        assert(!self.blocks(j, i));
    }

    /// Under `OncePerInterface`, a finished send on which the system
    /// refused nothing has gone out of the interface of every candidate;
    /// so it was delivered if there was any candidate at all.
    pub proof fn lemma_every_interface_served(self)
        requires
            self.wf(),
            self.policy == SendPolicy::OncePerInterface,
            self.finished(),
            forall|i: int| 0 <= i < self.outcomes.len() ==> self.outcomes[i] != Some(false),
        ensures
            forall|i: int|
                0 <= i < self.candidates.len() ==> self.sent_on(
                    #[trigger] self.candidates[i].interface,
                ),
            self.candidates.len() > 0 ==> self.delivered(),
    {
        assert forall|i: int| 0 <= i < self.candidates.len() implies self.sent_on(
            #[trigger] self.candidates[i].interface,
        ) by {
            if self.outcomes[i] is Some {
                let accepted = self.outcomes[i]->0;
                assert(self.outcomes[i] == Some(accepted));
                assert(self.accepted(i));
            } else {
                assert(!self.eligible(i));
                let j = choose|j: int| 0 <= j < i && #[trigger] self.blocks(j, i);
                assert(self.accepted(j));
            }
        }
        if self.candidates.len() > 0 {
            assert(self.sent_on(self.candidates[0].interface));
            let j = choose|j: int|
                #[trigger] self.accepted(j) && self.candidates[j].interface
                    == self.candidates[0].interface;
            assert(self.accepted(j));
        }
    }

    /// Under `FirstSuccess`, nothing is attempted after an accepted send.
    pub proof fn lemma_first_success_stops(self, j: int, i: int)
        requires
            self.wf(),
            self.policy == SendPolicy::FirstSuccess,
            0 <= j < i < self.outcomes.len(),
            self.accepted(j),
        ensures
            self.outcomes[i] is None,
    {
        assert(self.blocks(j, i));
        assert(!self.eligible(i));
    }

    /// A finished send on which the system accepted nothing was attempted on
    /// every candidate, and was not delivered.
    pub proof fn lemma_all_refused(self)
        requires
            self.wf(),
            self.finished(),
            forall|i: int| 0 <= i < self.outcomes.len() ==> self.outcomes[i] != Some(true),
        ensures
            forall|i: int| 0 <= i < self.candidates.len() ==> self.outcomes[i] == Some(false),
            !self.delivered(),
    {
        assert forall|i: int| 0 <= i < self.candidates.len() implies self.outcomes[i] == Some(
            false,
        ) by {
            assert forall|j: int| 0 <= j < i implies !#[trigger] self.blocks(j, i) by {
                assert(!self.accepted(j));
            }
            assert(self.eligible(i));
        }
        if self.delivered() {
            let j = choose|j: int| self.accepted(j);
            assert(self.outcomes[j] == Some(true));
        }
    }

    /// `seek` finds `n` when nothing from `k` up to `n` is eligible and `n`
    /// is eligible or the end.
    pub proof fn lemma_seek(self, k: int, n: int)
        requires
            0 <= k <= n <= self.candidates.len(),
            forall|i: int| k <= i < n ==> !self.eligible(i),
            n < self.candidates.len() ==> self.eligible(n),
        ensures
            self.seek(k) == n,
        decreases n - k,
    {
        if k < n {
            self.lemma_seek(k + 1, n);
        }
    }

    /// Two states over the same candidates with the same accepted sends
    /// agree on everything that is derived from them.
    pub proof fn lemma_same_sends(self, other: SendView)
        requires
            other.candidates == self.candidates,
            other.policy == self.policy,
            forall|j: int| other.accepted(j) == self.accepted(j),
        ensures
            forall|j: int, i: int| other.blocks(j, i) == self.blocks(j, i),
            forall|i: int| other.eligible(i) == self.eligible(i),
            forall|name: Seq<char>| other.sent_on(name) == self.sent_on(name),
            other.delivered() == self.delivered(),
    {
        assert forall|j: int, i: int| other.blocks(j, i) == self.blocks(j, i) by {
            assert(other.accepted(j) == self.accepted(j));
        }
        assert forall|i: int| other.eligible(i) == self.eligible(i) by {
            if self.eligible(i) {
                assert forall|j: int| 0 <= j < i implies !#[trigger] other.blocks(j, i) by {
                    assert(!self.blocks(j, i));
                }
            }
            if other.eligible(i) {
                assert forall|j: int| 0 <= j < i implies !#[trigger] self.blocks(j, i) by {
                    assert(!other.blocks(j, i));
                }
            }
        }
        assert forall|name: Seq<char>| other.sent_on(name) == self.sent_on(name) by {
            if self.sent_on(name) {
                let j = choose|j: int|
                    #[trigger] self.accepted(j) && self.candidates[j].interface == name;
                assert(other.accepted(j));
            }
            if other.sent_on(name) {
                let j = choose|j: int|
                    #[trigger] other.accepted(j) && other.candidates[j].interface == name;
                assert(self.accepted(j));
            }
        }
        if self.delivered() {
            let j = choose|j: int| self.accepted(j);
            assert(other.accepted(j));
        }
        if other.delivered() {
            let j = choose|j: int| other.accepted(j);
            assert(self.accepted(j));
        }
    }

    /// Passing candidates over changes nothing about which candidates are
    /// eligible.
    pub proof fn lemma_passing_over(self, later: SendView, i: int)
        requires
            later.candidates == self.candidates,
            later.policy == self.policy,
            self.outcomes.len() <= later.outcomes.len(),
            forall|j: int| 0 <= j < self.outcomes.len() ==> later.outcomes[j] == self.outcomes[j],
            forall|j: int|
                self.outcomes.len() <= j < later.outcomes.len() ==> later.outcomes[j] is None,
        ensures
            later.eligible(i) == self.eligible(i),
    {
        assert forall|j: int| later.blocks(j, i) == self.blocks(j, i) by {}
        if self.eligible(i) {
            assert forall|j: int| 0 <= j < i implies !#[trigger] later.blocks(j, i) by {
                assert(!self.blocks(j, i));
            }
        }
        if later.eligible(i) {
            assert forall|j: int| 0 <= j < i implies !#[trigger] self.blocks(j, i) by {
                assert(!later.blocks(j, i));
            }
        }
    }
}

/// Whether `name` is one of the interfaces of the list.
pub fn contains_interface(list: &Vec<LocalInterface>, name: &LocalInterface) -> (found: bool)
    ensures
        found == interface_names(list@).contains(name@),
{
    let mut i: usize = 0;
    while i < list.len()
        invariant
            0 <= i <= list.len(),
            forall|j: int| 0 <= j < i ==> interface_names(list@)[j] != name@,
        decreases list.len() - i,
    {
        if list[i].same(name) {
            proof {
                assert(interface_names(list@)[i as int] == name@);
            }
            return true;
        }
        i = i + 1;
    }
    false
}

/// One outbound send in progress.
///
/// The caller alternates [`WireSend::next_socket`], which names the socket
/// to send from, and [`WireSend::record`], which takes the outcome of that
/// send, until `next_socket` returns `None`. [`WireSend::delivered`] is then
/// the result of the whole send.
pub struct WireSend {
    candidates: Vec<Candidate>,
    policy: SendPolicy,
    cursor: usize,
    awaiting: bool,
    sent_on_interfaces: Vec<LocalInterface>,
    delivered: bool,
    outcomes: Ghost<Seq<Option<bool>>>,
}

impl View for WireSend {
    type V = SendView;

    closed spec fn view(&self) -> SendView {
        SendView {
            candidates: candidates_of(self.candidates@),
            policy: self.policy,
            outcomes: self.outcomes@,
            awaiting: self.awaiting,
        }
    }
}

impl WireSend {
    /// The selector's state is one that it can be in, and its bookkeeping
    /// agrees with it. Every function that makes or changes a selector
    /// leaves it so, and says of its view that it is one of the states of
    /// [`SendView::wf`], to which the laws of this module apply.
    pub closed spec fn wf(&self) -> bool {
        &&& self@.wf()
        &&& self.cursor == self.outcomes@.len()
        &&& self.delivered == self@.delivered()
        &&& forall|k: int|
            0 <= k < self.sent_on_interfaces@.len() ==> self@.sent_on(
                #[trigger] interface_names(self.sent_on_interfaces@)[k],
            )
        &&& forall|j: int| #[trigger]
            self@.accepted(j) ==> interface_names(self.sent_on_interfaces@).contains(
                self@.candidates[j].interface,
            )
    }

    /// A send over `candidates`, on which nothing has been attempted yet.
    pub fn new(candidates: Vec<Candidate>, policy: SendPolicy) -> (send: Self)
        ensures
            send.wf(),
            send@.wf(),
            send@ == SendView::fresh(candidates_of(candidates@), policy),
    {
        WireSend {
            candidates,
            policy,
            cursor: 0,
            awaiting: false,
            sent_on_interfaces: Vec::new(),
            delivered: false,
            outcomes: Ghost(Seq::empty()),
        }
    }

    /// The candidates of this send, in the order in which they are looked at.
    pub fn candidates(&self) -> (list: &Vec<Candidate>)
        ensures
            candidates_of(list@) == self@.candidates,
    {
        &self.candidates
    }

    /// The policy of this send.
    pub fn policy(&self) -> (policy: SendPolicy)
        ensures
            policy == self@.policy,
    {
        self.policy
    }

    /// Whether at least one send has been accepted so far.
    pub fn delivered(&self) -> (delivered: bool)
        requires
            self.wf(),
        ensures
            delivered == self@.delivered(),
    {
        self.delivered
    }

    /// Whether the candidate at the cursor is to be attempted.
    fn eligible_here(&self) -> (eligible: bool)
        requires
            self.wf(),
            !self.awaiting,
            self.cursor < self.candidates.len(),
        ensures
            eligible == self@.eligible(self.cursor as int),
    {
        let ghost v = self@;
        let ghost i = self.cursor as int;
        match self.policy {
            SendPolicy::FirstSuccess => {
                proof {
                    if self.delivered {
                        let j = choose|j: int| v.accepted(j);
                        assert(v.blocks(j, i));
                    } else {
                        assert forall|j: int| 0 <= j < i implies !#[trigger] v.blocks(j, i) by {
                            assert(!v.accepted(j));
                        }
                    }
                }
                !self.delivered
            },
            SendPolicy::OncePerInterface => {
                let used = contains_interface(
                    &self.sent_on_interfaces,
                    &self.candidates[self.cursor].interface,
                );
                proof {
                    let name = v.candidates[i].interface;
                    assert(name == self.candidates@[i]@.interface);
                    let names = interface_names(self.sent_on_interfaces@);
                    if used {
                        let k = choose|k: int| 0 <= k < names.len() && names[k] == name;
                        assert(v.sent_on(names[k]));
                        let j = choose|j: int|
                            #[trigger] v.accepted(j) && v.candidates[j].interface == name;
                        assert(v.blocks(j, i));
                    } else {
                        assert forall|j: int| 0 <= j < i implies !#[trigger] v.blocks(j, i) by {
                            if v.accepted(j) {
                                assert(names.contains(v.candidates[j].interface));
                            }
                        }
                    }
                }
                !used
            },
        }
    }

    /// Moves on to the next socket to send from and returns its `id`, or
    /// `None` when the send is over. Called again before the outcome is
    /// recorded, it names the same socket again.
    pub fn next_socket(&mut self) -> (socket: Option<u64>)
        requires
            old(self).wf(),
        ensures
            final(self).wf(),
            final(self)@.wf(),
            final(self)@ == old(self)@.advanced(),
            socket == final(self)@.pending(),
    {
        assert(self@.candidates.len() == self.candidates@.len());
        if self.awaiting {
            return Some(self.candidates[self.cursor].socket);
        }
        let ghost start = self@;
        while self.cursor < self.candidates.len()
            invariant
                self.wf(),
                !self.awaiting,
                !start.awaiting,
                start == old(self)@,
                self@.candidates == start.candidates,
                self@.policy == start.policy,
                start.outcomes.len() <= self.cursor <= self.candidates.len(),
                self@.outcomes =~= start.outcomes + Seq::new(
                    (self.cursor - start.outcomes.len()) as nat,
                    |k: int| None::<bool>,
                ),
                forall|i: int| start.outcomes.len() <= i < self.cursor ==> !start.eligible(i),
            decreases self.candidates.len() - self.cursor,
        {
            let ghost before = self@;
            let ghost i = self.cursor as int;
            proof {
                start.lemma_passing_over(before, i);
            }
            if self.eligible_here() {
                self.awaiting = true;
                proof {
                    start.lemma_seek(start.outcomes.len() as int, i);
                    assert(self@.outcomes == before.outcomes);
                    assert forall|j: int| self@.accepted(j) == before.accepted(j) by {}
                    before.lemma_same_sends(self@);
                    assert(self@.outcomes =~= start.advanced().outcomes);
                    assert(self@ == start.advanced());
                    assert(self@.eligible(i));
                    assert forall|k: int| 0 <= k < self@.outcomes.len() implies ((
                    #[trigger] self@.outcomes[k]) is Some <==> self@.eligible(k)) by {
                        assert(before.outcomes[k] is Some <==> before.eligible(k));
                    }
                    assert(self@.wf());
                    assert(self.delivered == self@.delivered());
                    let names = interface_names(self.sent_on_interfaces@);
                    assert forall|k: int| 0 <= k < names.len() implies self@.sent_on(
                        #[trigger] names[k],
                    ) by {
                        assert(before.sent_on(names[k]));
                    }
                    assert forall|j: int| #[trigger] self@.accepted(j) implies names.contains(
                        self@.candidates[j].interface,
                    ) by {
                        assert(before.accepted(j));
                    }
                }
                return Some(self.candidates[self.cursor].socket);
            }
            proof {
                self.outcomes@ = self.outcomes@.push(None);
            }
            self.cursor = self.cursor + 1;
            proof {
                let after = self@;
                assert forall|j: int| after.accepted(j) == before.accepted(j) by {}
                before.lemma_same_sends(after);
                assert forall|k: int| 0 <= k < after.outcomes.len() implies ((
                #[trigger] after.outcomes[k]) is Some <==> after.eligible(k)) by {
                    if k < before.outcomes.len() {
                        assert(after.outcomes[k] == before.outcomes[k]);
                    }
                }
            }
        }
        proof {
            start.lemma_seek(start.outcomes.len() as int, self.cursor as int);
            assert(self@.outcomes =~= start.advanced().outcomes);
            assert(self@ == start.advanced());
        }
        None
    }

    /// Takes the outcome of the send on the socket that `next_socket` named
    /// last. Without such a socket nothing changes.
    pub fn record(&mut self, accepted: bool)
        requires
            old(self).wf(),
        ensures
            final(self).wf(),
            final(self)@.wf(),
            final(self)@ == old(self)@.recorded(accepted),
    {
        if !self.awaiting {
            return ;
        }
        assert(self@.candidates.len() == self.candidates@.len());
        assert(self.cursor < self.candidates.len());
        let ghost before = self@;
        let ghost i = self.cursor as int;
        let ghost used_before = interface_names(self.sent_on_interfaces@);
        if accepted {
            let name = self.candidates[self.cursor].interface.duplicate();
            self.sent_on_interfaces.push(name);
            self.delivered = true;
        }
        proof {
            self.outcomes@ = self.outcomes@.push(Some(accepted));
        }
        self.cursor = self.cursor + 1;
        self.awaiting = false;
        proof {
            let after = self@;
            let used = interface_names(self.sent_on_interfaces@);
            assert(after == before.recorded(accepted));
            assert forall|j: int| 0 <= j < i implies after.accepted(j) == before.accepted(j) by {}
            assert forall|j: int| j != i implies after.accepted(j) == before.accepted(j) by {}
            assert(after.accepted(i) == accepted);
            assert forall|j: int, k: int| 0 <= j < k <= i implies after.blocks(j, k)
                == before.blocks(j, k) by {}
            assert forall|k: int| 0 <= k <= i implies after.eligible(k) == before.eligible(k) by {
                if before.eligible(k) {
                    assert forall|j: int| 0 <= j < k implies !#[trigger] after.blocks(j, k) by {
                        assert(!before.blocks(j, k));
                    }
                }
                if after.eligible(k) {
                    assert forall|j: int| 0 <= j < k implies !#[trigger] before.blocks(j, k) by {
                        assert(!after.blocks(j, k));
                    }
                }
            }
            assert forall|k: int| 0 <= k < after.outcomes.len() implies ((
            #[trigger] after.outcomes[k]) is Some <==> after.eligible(k)) by {
                if k < i {
                    assert(after.outcomes[k] == before.outcomes[k]);
                }
            }
            assert(after.wf());
            if accepted {
                assert(after.accepted(i));
                assert(after.delivered());
                assert(used =~= used_before.push(after.candidates[i].interface));
                assert forall|k: int| 0 <= k < used.len() implies after.sent_on(
                    #[trigger] used[k],
                ) by {
                    if k < used_before.len() {
                        assert(before.sent_on(used_before[k]));
                        let j = choose|j: int|
                            #[trigger] before.accepted(j) && before.candidates[j].interface
                                == used_before[k];
                        assert(after.accepted(j));
                    } else {
                        assert(after.accepted(i));
                    }
                }
                assert forall|j: int| #[trigger] after.accepted(j) implies used.contains(
                    after.candidates[j].interface,
                ) by {
                    if j == i {
                        assert(used[used_before.len() as int] == after.candidates[i].interface);
                    } else {
                        assert(before.accepted(j));
                        let k = choose|k: int|
                            0 <= k < used_before.len() && used_before[k]
                                == before.candidates[j].interface;
                        assert(used[k] == used_before[k]);
                    }
                }
            } else {
                assert forall|j: int| after.accepted(j) == before.accepted(j) by {}
                before.lemma_same_sends(after);
                assert forall|k: int| 0 <= k < used.len() implies after.sent_on(
                    #[trigger] used[k],
                ) by {
                    assert(before.sent_on(used_before[k]));
                }
                assert forall|j: int| #[trigger] after.accepted(j) implies used.contains(
                    after.candidates[j].interface,
                ) by {
                    assert(before.accepted(j));
                }
            }
        }
    }
}

} // verus!

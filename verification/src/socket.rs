//! Bound sockets and the non-owning references that the overlay core keeps
//! to them.

use vstd::prelude::*;
use vstd::std_specs::cmp::PartialEqSpecImpl;
use crate::address::InetAddress;
use crate::address::IpAddress;
use crate::interface::BindingKey;
use crate::interface::LocalInterface;

verus! {

/// One UDP socket bound to one address of one local interface.
///
/// `id` names the socket for its whole life and is never given to another
/// socket; `tasks` are the receive workers that read from it; `references`
/// counts the live [`LocalSocket`] values that point at it.
#[derive(Debug)]
pub struct BoundUdpSocket {
    pub id: u64,
    pub interface: LocalInterface,
    pub address: InetAddress,
    pub tasks: Vec<u64>,
    pub references: usize,
}

/// A bound socket as a mathematical value.
pub struct SocketView {
    pub id: u64,
    pub interface: Seq<char>,
    pub address: InetAddress,
    pub tasks: Seq<u64>,
    pub references: nat,
}

impl SocketView {
    /// The interface/address pair that the socket is bound to.
    pub open spec fn key(self) -> BindingKey {
        BindingKey { interface: self.interface, address: self.address.ip }
    }
}

impl View for BoundUdpSocket {
    type V = SocketView;

    open spec fn view(&self) -> SocketView {
        SocketView {
            id: self.id,
            interface: self.interface@,
            address: self.address,
            tasks: self.tasks@,
            references: self.references as nat,
        }
    }
}

/// The sockets that a list of bound sockets stands for.
pub open spec fn sockets_of(list: Seq<BoundUdpSocket>) -> Seq<SocketView> {
    list.map_values(|s: BoundUdpSocket| s@)
}

/// The identities of the sockets, in order.
pub open spec fn ids_of(sockets: Seq<SocketView>) -> Seq<u64> {
    sockets.map_values(|s: SocketView| s.id)
}

/// A copy of a list of worker identities.
pub fn duplicate_tasks(tasks: &Vec<u64>) -> (copy: Vec<u64>)
    ensures
        copy@ == tasks@,
{
    let mut copy: Vec<u64> = Vec::new();
    let mut i: usize = 0;
    while i < tasks.len()
        invariant
            0 <= i <= tasks.len(),
            copy@ == tasks@.take(i as int),
        decreases tasks.len() - i,
    {
        copy.push(tasks[i]);
        proof {
            assert(tasks@.take(i + 1) =~= tasks@.take(i as int).push(tasks@[i as int]));
        }
        i = i + 1;
    }
    proof {
        assert(tasks@.take(i as int) =~= tasks@);
    }
    copy
}

impl BoundUdpSocket {
    /// A second value describing the same socket.
    pub fn duplicate(&self) -> (copy: Self)
        ensures
            copy@ == self@,
    {
        BoundUdpSocket {
            id: self.id,
            interface: self.interface.duplicate(),
            address: self.address,
            tasks: duplicate_tasks(&self.tasks),
            references: self.references,
        }
    }

    /// Whether the socket is bound to this address of this interface.
    pub fn is_bound_to(&self, interface: &LocalInterface, address: &IpAddress) -> (bound: bool)
        ensures
            bound == (self@.key() == BindingKey { interface: interface@, address: *address }),
    {
        self.address.ip == *address && self.interface.same(interface)
    }
}

/// The identity that is given out `count` identities after `first`. The
/// counter wraps around after the largest identity.
pub open spec fn identity_after(first: u64, count: nat) -> u64 {
    ((first + count) % 0x1_0000_0000_0000_0000) as u64
}

/// The identity given out after `id`.
pub fn next_identity(id: u64) -> (next: u64)
    ensures
        next == identity_after(id, 1),
{
    if id == u64::MAX {
        0
    } else {
        id + 1
    }
}

/// Counting on from an identity that was itself counted to.
pub proof fn lemma_identity_steps(first: u64, a: nat, b: nat)
    ensures
        identity_after(identity_after(first, a), b) == identity_after(first, a + b),
        identity_after(first, 0) == first,
{
    let m = 0x1_0000_0000_0000_0000int;
    let x = first + a;
    assert(((x % m) + b) % m == (x + b) % m) by {
        vstd::arithmetic::div_mod::lemma_add_mod_noop(x, b as int, m);
        vstd::arithmetic::div_mod::lemma_mod_twice(x, m);
        vstd::arithmetic::div_mod::lemma_add_mod_noop(x % m, b as int, m);
    }
}

/// Identities given out fewer than 2^64 steps apart differ.
pub proof fn lemma_identities_differ(first: u64, a: nat, b: nat)
    requires
        a < b,
        b - a < 0x1_0000_0000_0000_0000,
    ensures
        identity_after(first, a) != identity_after(first, b),
{
    let m = 0x1_0000_0000_0000_0000int;
    let x = first + a;
    let y = first + b;
    if x % m == y % m {
        vstd::arithmetic::div_mod::lemma_fundamental_div_mod(x, m);
        vstd::arithmetic::div_mod::lemma_fundamental_div_mod(y, m);
        let d = y / m - x / m;
        assert(y - x == m * (y / m) - m * (x / m));
        assert(m * (y / m) - m * (x / m) == m * d) by (nonlinear_arith)
            requires
                d == y / m - x / m,
        ;
        assert(0 < m * d < m);
        assert(false) by (nonlinear_arith)
            requires
                0 < m * d < m,
                m > 0,
        ;
    }
}

/// Local socket wrapper to provide to the overlay core.
///
/// It points at a bound socket without owning it, and carries an identity
/// of its own that is assigned once, when it is made. Equality goes by that
/// identity alone, never by the socket pointed at.
#[derive(Debug)]
pub struct LocalSocket {
    target: u64,
    unique_id: u64,
}

impl LocalSocket {
    /// The socket that the reference points at, by its `id`.
    pub closed spec fn spec_target(&self) -> u64 {
        self.target
    }

    /// The identity assigned to the reference when it was made.
    pub closed spec fn spec_unique_id(&self) -> u64 {
        self.unique_id
    }

    /// A reference to the socket `target`, with the given identity.
    pub(crate) fn new(target: u64, unique_id: u64) -> (reference: Self)
        ensures
            reference.spec_target() == target,
            reference.spec_unique_id() == unique_id,
    {
        LocalSocket { target, unique_id }
    }

    /// The `id` of the socket that the reference points at.
    pub fn target(&self) -> (id: u64)
        ensures
            id == self.spec_target(),
    {
        self.target
    }

    /// The identity of the reference: what it is compared and hashed by.
    pub fn unique_id(&self) -> (id: u64)
        ensures
            id == self.spec_unique_id(),
    {
        self.unique_id
    }
}

impl PartialEq for LocalSocket {
    fn eq(&self, other: &Self) -> (equal: bool) {
        self.unique_id == other.unique_id
    }
}

impl Eq for LocalSocket {

}

impl PartialEqSpecImpl for LocalSocket {
    open spec fn obeys_eq_spec() -> bool {
        true
    }

    open spec fn eq_spec(&self, other: &Self) -> bool {
        self.spec_unique_id() == other.spec_unique_id()
    }
}

} // verus!

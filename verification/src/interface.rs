//! Local network interfaces: their identity, the prefix blacklist on their
//! names, and the interface/address pairs that the system reports.

use vstd::prelude::*;
use vstd::utf8::encode_utf8;
use crate::address::IpAddress;
use crate::address::Cidr;
use crate::address::cidr_blacklisted;
use crate::address::is_cidr_blacklisted;

verus! {

/// The identity of a local network interface: its system name.
#[derive(Debug)]
pub struct LocalInterface {
    pub name: String,
}

impl View for LocalInterface {
    type V = Seq<char>;

    open spec fn view(&self) -> Seq<char> {
        self.name@
    }
}

/// Whether `name` begins with `prefix`, byte for byte in UTF-8.
pub open spec fn name_has_prefix(name: Seq<char>, prefix: Seq<char>) -> bool {
    encode_utf8(prefix).is_prefix_of(encode_utf8(name))
}

/// The names that a list of strings stands for.
pub open spec fn names_of(list: Seq<String>) -> Seq<Seq<char>> {
    list.map_values(|s: String| s@)
}

/// Whether `name` begins with any prefix of the list.
pub open spec fn prefix_blacklisted(name: Seq<char>, prefixes: Seq<Seq<char>>) -> bool {
    exists|i: int| 0 <= i < prefixes.len() && name_has_prefix(name, #[trigger] prefixes[i])
}

impl LocalInterface {
    /// The interface of the given name.
    pub fn new(name: String) -> (interface: Self)
        ensures
            interface@ == name@,
    {
        LocalInterface { name }
    }

    /// A second value for the same interface.
    pub fn duplicate(&self) -> (copy: Self)
        ensures
            copy@ == self@,
    {
        LocalInterface { name: self.name.clone() }
    }

    /// Whether both values name the same interface.
    pub fn same(&self, other: &LocalInterface) -> (equal: bool)
        ensures
            equal == (self@ == other@),
    {
        self.name == other.name
    }

    /// Whether the interface's name begins with `prefix`.
    pub fn has_prefix(&self, prefix: &String) -> (starts: bool)
        ensures
            starts == name_has_prefix(self@, prefix@),
    {
        let name = self.name.as_str().as_bytes();
        let head = prefix.as_str().as_bytes();
        if head.len() > name.len() {
            return false;
        }
        let mut i: usize = 0;
        while i < head.len()
            invariant
                0 <= i <= head.len() <= name.len(),
                name@ == encode_utf8(self@),
                head@ == encode_utf8(prefix@),
                forall|j: int| 0 <= j < i ==> name@[j] == head@[j],
            decreases head.len() - i,
        {
            if name[i] != head[i] {
                proof {
                    assert(name@.subrange(0, head@.len() as int)[i as int] == name@[i as int]);
                }
                return false;
            }
            i = i + 1;
        }
        proof {
            assert(head@ =~= name@.subrange(0, head@.len() as int));
        }
        true
    }

    /// Whether the interface's name begins with one of the blacklisted
    /// prefixes.
    pub fn is_blacklisted(&self, prefixes: &Vec<String>) -> (hit: bool)
        ensures
            hit == prefix_blacklisted(self@, names_of(prefixes@)),
    {
        let mut i: usize = 0;
        while i < prefixes.len()
            invariant
                0 <= i <= prefixes.len(),
                forall|j: int|
                    0 <= j < i ==> !name_has_prefix(self@, #[trigger] names_of(prefixes@)[j]),
            decreases prefixes.len() - i,
        {
            if self.has_prefix(&prefixes[i]) {
                proof {
                    assert(names_of(prefixes@)[i as int] == prefixes@[i as int]@);
                }
                return true;
            }
            i = i + 1;
        }
        false
    }
}

/// One address of one interface, as the system reports it.
#[derive(Debug)]
pub struct SystemAddress {
    pub interface: LocalInterface,
    pub address: IpAddress,
}

/// What a socket is bound to, as a mathematical value: the interface's name
/// and the local IP address.
pub struct BindingKey {
    pub interface: Seq<char>,
    pub address: IpAddress,
}

impl View for SystemAddress {
    type V = BindingKey;

    open spec fn view(&self) -> BindingKey {
        BindingKey { interface: self.interface@, address: self.address }
    }
}

/// The pairs that a list of system addresses stands for.
pub open spec fn keys_of(list: Seq<SystemAddress>) -> Seq<BindingKey> {
    list.map_values(|a: SystemAddress| a@)
}

/// Whether a pair may be bound: neither its interface's name nor its address
/// is blacklisted.
pub open spec fn qualifies(key: BindingKey, prefixes: Seq<Seq<char>>, ranges: Seq<Cidr>) -> bool {
    !prefix_blacklisted(key.interface, prefixes) && !cidr_blacklisted(key.address, ranges)
}

impl SystemAddress {
    /// Whether this pair may be bound under the two blacklists.
    pub fn qualifies(&self, prefixes: &Vec<String>, ranges: &Vec<Cidr>) -> (ok: bool)
        ensures
            ok == qualifies(self@, names_of(prefixes@), ranges@),
    {
        !self.interface.is_blacklisted(prefixes) && !is_cidr_blacklisted(&self.address, ranges)
    }
}

} // verus!

//! What the configuration says about paths: which endpoints may be used,
//! and where a known peer is to be looked for first.

use std::collections::HashMap;
use vstd::prelude::*;
use crate::address::Endpoint;
use crate::interface::LocalInterface;
use crate::socket::LocalSocket;

verus! {

/// The settings of one physical endpoint.
#[derive(Clone, Copy, Debug, PartialEq, Eq, Structural)]
pub struct PhysicalPathSettings {
    /// Whether the endpoint must not be used.
    pub blacklist: bool,
}

/// The settings of one peer.
#[derive(Debug)]
pub struct VirtualPathSettings {
    /// The endpoints at which the peer is to be tried first.
    pub try_: Vec<Endpoint>,
}

/// The part of the configuration that the transport consults: the settings
/// of endpoints, of which the first entry for an endpoint counts, and the
/// settings of peers by their addresses.
#[derive(Debug)]
pub struct Config {
    pub physical: Vec<(Endpoint, PhysicalPathSettings)>,
    pub virtual_: HashMap<u64, VirtualPathSettings>,
}

/// The settings of the endpoint in the entries from position `k` on.
pub open spec fn physical_from(
    entries: Seq<(Endpoint, PhysicalPathSettings)>,
    endpoint: Endpoint,
    k: int,
) -> Option<PhysicalPathSettings>
    decreases entries.len() - k,
{
    if k < 0 || k >= entries.len() {
        None
    } else if entries[k].0 == endpoint {
        Some(entries[k].1)
    } else {
        physical_from(entries, endpoint, k + 1)
    }
}

/// The endpoints to try for the peer `address`, if the configuration lists
/// the peer.
pub open spec fn path_hints(peers: Map<u64, VirtualPathSettings>, address: u64) -> Option<
    Seq<Endpoint>,
> {
    if peers.contains_key(address) {
        Some(peers[address].try_@)
    } else {
        None
    }
}

/// Whether the configuration allows the endpoint: an endpoint without
/// settings is allowed, one with settings unless they blacklist it.
pub open spec fn path_allowed(
    entries: Seq<(Endpoint, PhysicalPathSettings)>,
    endpoint: Endpoint,
) -> bool {
    match physical_from(entries, endpoint, 0) {
        Some(settings) => !settings.blacklist,
        None => true,
    }
}

impl Config {
    /// A configuration without settings for any endpoint or peer.
    pub fn new() -> (config: Self)
        ensures
            config.physical@.len() == 0,
            config.virtual_@ == Map::<u64, VirtualPathSettings>::empty(),
    {
        Config { physical: Vec::new(), virtual_: HashMap::new() }
    }

    /// Whether the path to `endpoint` may be used. The peer, the socket
    /// and the interface have no say in it.
    pub fn check_path(
        &self,
        _address: u64,
        endpoint: &Endpoint,
        _local_socket: Option<&LocalSocket>,
        _local_interface: Option<&LocalInterface>,
    ) -> (allowed: bool)
        ensures
            allowed == path_allowed(self.physical@, *endpoint),
    {
        let mut k: usize = 0;
        while k < self.physical.len()
            invariant
                0 <= k <= self.physical.len(),
                physical_from(self.physical@, *endpoint, 0) == physical_from(
                    self.physical@,
                    *endpoint,
                    k as int,
                ),
            decreases self.physical.len() - k,
        {
            if self.physical[k].0 == *endpoint {
                return !self.physical[k].1.blacklist;
            }
            k = k + 1;
        }
        true
    }

    /// The endpoints at which the peer `address` is to be tried first, each
    /// without a socket or an interface to use; `None` if the configuration
    /// does not list the peer.
    pub fn get_path_hints(&self, address: u64) -> (hints: Option<
        Vec<(Endpoint, Option<LocalSocket>, Option<LocalInterface>)>,
    >)
        ensures
            hints is Some == path_hints(self.virtual_@, address) is Some,
            hints matches Some(list) ==> {
                let endpoints = path_hints(self.virtual_@, address)->0;
                &&& list@.len() == endpoints.len()
                &&& forall|i: int|
                    0 <= i < list@.len() ==> (#[trigger] list@[i]).0 == endpoints[i] && list@[i].1
                        is None && list@[i].2 is None
            },
    {
        broadcast use vstd::std_specs::hash::group_hash_axioms;

        match self.virtual_.get(&address) {
            Some(settings) => {
                let endpoints = &settings.try_;
                let mut list: Vec<(Endpoint, Option<LocalSocket>, Option<LocalInterface>)> =
                    Vec::new();
                let mut i: usize = 0;
                while i < endpoints.len()
                    invariant
                        0 <= i <= endpoints.len(),
                        list@.len() == i,
                        forall|j: int|
                            0 <= j < i ==> (#[trigger] list@[j]).0 == endpoints@[j] && list@[j].1
                                is None && list@[j].2 is None,
                    decreases endpoints.len() - i,
                {
                    list.push((endpoints[i], None, None));
                    i = i + 1;
                }
                Some(list)
            },
            None => None,
        }
    }
}

} // verus!

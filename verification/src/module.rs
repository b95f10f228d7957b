//! A module: a single-letter logical channel within the reflector, holding
//! the peers attached to it and its traffic counters. Peers are kept in a
//! vector keyed by their address; a well-formed module holds at most one
//! peer per address.

use vstd::prelude::*;
use crate::peer::Peer;

verus! {

/// Per-module traffic counters.
pub struct ModuleStats {
    pub total_streams: u64,
    pub total_frames: u64,
}

/// A single-letter channel and its attached peers.
pub struct Module {
    pub name: char,
    pub peers: Vec<Peer>,
    pub stats: ModuleStats,
}

impl Module {
    /// Addresses are unique within the module.
    pub open spec fn wf(self) -> bool {
        forall|i: int, j: int|
            0 <= i < j < self.peers@.len() ==> #[trigger] self.peers@[i].address != #[trigger] self.peers@[j].address
    }

    /// Whether some peer in the module has this address.
    pub open spec fn has_addr(self, addr: u64) -> bool {
        exists|i: int| 0 <= i < self.peers@.len() && #[trigger] self.peers@[i].address == addr
    }

    /// An empty module of the given name.
    pub fn new(name: char) -> (m: Self)
        ensures
            m.name == name,
            m.peers@ =~= Seq::<Peer>::empty(),
            m.stats.total_streams == 0,
            m.stats.total_frames == 0,
            m.wf(),
    {
        Module { name, peers: Vec::new(), stats: ModuleStats { total_streams: 0, total_frames: 0 } }
    }
}

} // verus!

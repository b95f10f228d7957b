//! The reflector registry: modules with their peers, the active and recent
//! streams, and the derived user index mapping base callsigns to the
//! addresses that transmitted under them.
//!
//! Well-formedness ([`Reflector::wf`]) pins the registry invariants: a peer
//! address lives in at most one module, user-map keys and their address sets
//! hold no duplicates, stream ids are unique among active streams, at most
//! one active broadcast stream per module, and at most fifty recent streams.

use vstd::prelude::*;
use vstd::string::StrSliceExecFns;
use crate::callsign::{base_callsign, spec_base_callsign};
use crate::counter::{sat_add32, sat_add64, spec_sat_add32, spec_sat_add64};
use crate::module::Module;
use crate::peer::{spec_apply_update, Peer, PeerRole, PeerUpdate};
use crate::strutil::push_char;

verus! {

/// One record of an active or completed stream.
pub struct StreamInfo {
    pub stream_id: u16,
    pub callsign: String,
    pub destination: String,
    pub module: char,
    pub start_time: u64,
    pub last_frame_time: u64,
    pub peer_callsign: String,
    pub peer: u64,
    pub frames: u32,
    pub is_broadcast: bool,
    pub end_time: Option<u64>,
}

/// One user-index entry: the addresses seen transmitting under one base
/// callsign.
pub struct UserEntry {
    pub base: String,
    pub addrs: Vec<u64>,
}

/// Whether the entry's address set holds `a`.
pub open spec fn entry_has(e: UserEntry, a: u64) -> bool {
    exists|k: int| 0 <= k < e.addrs@.len() && e.addrs@[k] == a
}

/// Whether some entry keyed `b` holds `a`.
pub open spec fn seq_user_has(s: Seq<UserEntry>, b: Seq<char>, a: u64) -> bool {
    exists|i: int| 0 <= i < s.len() && (#[trigger] s[i]).base@ == b && entry_has(s[i], a)
}

/// Whether some entry is keyed `b`.
pub open spec fn seq_has_user(s: Seq<UserEntry>, b: Seq<char>) -> bool {
    exists|i: int| 0 <= i < s.len() && (#[trigger] s[i]).base@ == b
}

/// Whether `e` is one of the entries of `sup`.
pub open spec fn entry_from(e: UserEntry, sup: Seq<UserEntry>) -> bool {
    exists|j2: int| 0 <= j2 < sup.len() && #[trigger] sup[j2] == e
}

/// Whether `s` is one of the records of `sup`.
pub open spec fn stream_from(s: StreamInfo, sup: Seq<StreamInfo>) -> bool {
    exists|j: int| 0 <= j < sup.len() && #[trigger] sup[j] == s
}

/// Every entry of `sub` occurs in `sup`.
pub open spec fn entries_from(sub: Seq<UserEntry>, sup: Seq<UserEntry>) -> bool {
    forall|j: int| 0 <= j < sub.len() ==> entry_from(#[trigger] sub[j], sup)
}

/// The user-index keys after purging `addr`: a key survives exactly when
/// its set held some other address.
pub open spec fn user_keys_shrunk(pst: Seq<UserEntry>, pre: Seq<UserEntry>, addr: u64) -> bool {
    forall|b: Seq<char>|
        #![trigger seq_has_user(pst, b)]
        #![trigger seq_has_user(pre, b)]
        seq_has_user(pst, b) <==> (seq_has_user(pre, b) && exists|a: u64|
            a != addr && #[trigger] seq_user_has(pre, b, a))
}

/// Every nonempty entry of `sup` occurs in `sub`.
pub open spec fn nonempty_entries_kept(sup: Seq<UserEntry>, sub: Seq<UserEntry>) -> bool {
    forall|j2: int|
        0 <= j2 < sup.len() && (#[trigger] sup[j2]).addrs@.len() > 0 ==> entry_from(sup[j2], sub)
}

/// The reflector's whole registry.
pub struct Reflector {
    pub name: String,
    pub modules: Vec<Module>,
    pub active_streams: Vec<StreamInfo>,
    pub recent_streams: Vec<StreamInfo>,
    pub start_time: u64,
    pub user_map: Vec<UserEntry>,
}

impl Reflector {
    pub open spec fn valid_mi(self, mi: int) -> bool {
        0 <= mi < self.modules@.len()
    }

    pub open spec fn valid_peer_idx(self, mi: int, pi: int) -> bool {
        self.valid_mi(mi) && 0 <= pi < self.modules@[mi].peers@.len()
    }

    pub open spec fn peer_at(self, mi: int, pi: int) -> Peer {
        self.modules@[mi].peers@[pi]
    }

    /// Whether any module holds a peer with this address.
    pub open spec fn has_peer(self, addr: u64) -> bool {
        exists|mi: int, pi: int|
            self.valid_peer_idx(mi, pi) && (#[trigger] self.peer_at(mi, pi)).address == addr
    }

    /// Whether the peer record `p`, keyed by `addr`, is in some module.
    pub open spec fn peer_with(self, addr: u64, p: Peer) -> bool {
        exists|mi: int, pi: int|
            self.valid_peer_idx(mi, pi) && #[trigger] self.peer_at(mi, pi) == p && p.address
                == addr
    }

    /// Whether module `mi` holds the peer record `p` keyed by `addr`.
    pub open spec fn module_peer_with(self, mi: int, addr: u64, p: Peer) -> bool {
        self.valid_mi(mi) && exists|pi: int|
            0 <= pi < self.modules@[mi].peers@.len() && #[trigger] self.peer_at(mi, pi) == p
                && p.address == addr
    }

    /// Whether a module of this name exists.
    pub open spec fn has_module(self, name: char) -> bool {
        exists|mi: int| self.valid_mi(mi) && (#[trigger] self.modules@[mi]).name == name
    }

    /// Every address lives at exactly one (module, slot).
    pub open spec fn addr_unique(self) -> bool {
        forall|mi: int, pi: int, mj: int, pj: int|
            self.valid_peer_idx(mi, pi) && self.valid_peer_idx(mj, pj) && (mi != mj || pi != pj)
                ==> (#[trigger] self.peer_at(mi, pi)).address != (#[trigger] self.peer_at(
                mj,
                pj,
            )).address
    }

    /// Whether some entry of the user index keyed `b` holds `a`.
    pub open spec fn user_has_addr(self, b: Seq<char>, a: u64) -> bool {
        seq_user_has(self.user_map@, b, a)
    }

    /// Whether the user index has a key `b`.
    pub open spec fn has_user(self, b: Seq<char>) -> bool {
        seq_has_user(self.user_map@, b)
    }

    /// Whether an active stream with this id exists.
    pub open spec fn active_has(self, stream_id: u16) -> bool {
        exists|i: int|
            0 <= i < self.active_streams@.len() && (#[trigger] self.active_streams@[i]).stream_id
                == stream_id
    }

    /// Whether some active stream is broadcasting on this module.
    pub open spec fn has_broadcast_on(self, module: char) -> bool {
        exists|i: int|
            0 <= i < self.active_streams@.len() && (#[trigger] self.active_streams@[i]).module
                == module && self.active_streams@[i].is_broadcast
    }

    /// The registry invariants.
    pub open spec fn wf(self) -> bool {
        &&& forall|i: int, j: int|
            0 <= i < j < self.modules@.len() ==> (#[trigger] self.modules@[i]).name != (
            #[trigger] self.modules@[j]).name
        &&& self.addr_unique()
        &&& forall|i: int, j: int|
            0 <= i < j < self.user_map@.len() ==> (#[trigger] self.user_map@[i]).base@ != (
            #[trigger] self.user_map@[j]).base@
        &&& forall|i: int, k: int, l: int|
            0 <= i < self.user_map@.len() && 0 <= k < l < self.user_map@[i].addrs@.len() ==> (
            #[trigger] self.user_map@[i].addrs@[k]) != (#[trigger] self.user_map@[i].addrs@[l])
        &&& forall|i: int, j: int|
            0 <= i < j < self.active_streams@.len() ==> (
            #[trigger] self.active_streams@[i]).stream_id != (
            #[trigger] self.active_streams@[j]).stream_id
        &&& forall|i: int, j: int|
            0 <= i < j < self.active_streams@.len() && (
            #[trigger] self.active_streams@[i]).is_broadcast && (
            #[trigger] self.active_streams@[j]).is_broadcast ==> self.active_streams@[i].module
                != self.active_streams@[j].module
        &&& self.recent_streams@.len() <= 50
    }

    /// Everything except the module list is unchanged.
    pub open spec fn same_but_modules(self, other: Reflector) -> bool {
        self.name == other.name && self.active_streams == other.active_streams
            && self.recent_streams == other.recent_streams && self.start_time == other.start_time
            && self.user_map == other.user_map
    }

    /// Everything except the user index is unchanged.
    pub open spec fn same_but_user_map(self, other: Reflector) -> bool {
        self.name == other.name && self.modules == other.modules && self.active_streams
            == other.active_streams && self.recent_streams == other.recent_streams
            && self.start_time == other.start_time
    }

    /// Everything except the stream lists is unchanged.
    pub open spec fn same_but_streams(self, other: Reflector) -> bool {
        self.name == other.name && self.modules == other.modules && self.start_time
            == other.start_time && self.user_map == other.user_map
    }

    /// A new reflector with one empty module per distinct letter given.
    pub fn new(name: &str, mod_names: &[char], start_mono: u64) -> (r: Self)
        ensures
            r.wf(),
            r.name@ == name@,
            forall|k: int|
                0 <= k < mod_names@.len() ==> #[trigger] r.has_module(mod_names@[k]),
            forall|mi: int|
                r.valid_mi(mi) ==> mod_names@.contains((#[trigger] r.modules@[mi]).name),
            forall|mi: int|
                r.valid_mi(mi) ==> (#[trigger] r.modules@[mi]).peers@.len() == 0
                    && r.modules@[mi].stats.total_streams == 0 && r.modules@[mi].stats.total_frames
                    == 0,
            r.active_streams@.len() == 0,
            r.recent_streams@.len() == 0,
            r.user_map@.len() == 0,
            r.start_time == start_mono,
    {
        let mut modules: Vec<Module> = Vec::new();
        let n = mod_names.len();
        let mut i: usize = 0;
        while i < n
            invariant
                n == mod_names@.len(),
                i <= n,
                forall|mi: int, mj: int|
                    0 <= mi < mj < modules@.len() ==> (#[trigger] modules@[mi]).name != (
                    #[trigger] modules@[mj]).name,
                forall|mi: int|
                    0 <= mi < modules@.len() ==> (#[trigger] modules@[mi]).peers@.len() == 0
                        && modules@[mi].stats.total_streams == 0
                        && modules@[mi].stats.total_frames == 0,
                forall|k: int|
                    0 <= k < i ==> exists|mi: int|
                        0 <= mi < modules@.len() && (#[trigger] modules@[mi]).name == (
                        #[trigger] mod_names@[k]),
                forall|mi: int|
                    0 <= mi < modules@.len() ==> mod_names@.contains(
                        (#[trigger] modules@[mi]).name,
                    ),
            decreases n - i,
        {
            let c = mod_names[i];
            let ghost pre = modules@;
            let mut found = false;
            let mut j: usize = 0;
            while j < modules.len()
                invariant
                    modules@ == pre,
                    j <= modules@.len(),
                    found <==> exists|mj: int| 0 <= mj < j && (#[trigger] modules@[mj]).name == c,
                decreases modules@.len() - j,
            {
                if modules[j].name == c {
                    found = true;
                }
                j = j + 1;
            }
            if !found {
                modules.push(Module::new(c));
                assert(modules@[modules@.len() - 1].name == c);
            }
            proof {
                let ms = modules@;
                assert forall|k: int| 0 <= k <= i as int implies exists|mi: int|
                    0 <= mi < ms.len() && (#[trigger] ms[mi]).name == (#[trigger] mod_names@[k]) by {
                    if k < i as int {
                        let w = choose|mi: int|
                            0 <= mi < pre.len() && (#[trigger] pre[mi]).name == mod_names@[k];
                        assert(ms[w].name == mod_names@[k]);
                    } else {
                        if found {
                            let w = choose|mj: int| 0 <= mj < pre.len() && (#[trigger] pre[mj]).name == c;
                            assert(ms[w].name == c);
                        } else {
                            assert(ms[ms.len() - 1].name == c);
                        }
                    }
                }
            }
            i = i + 1;
        }
        let name_owned = copy_str(name);
        let ghost ms = modules@;
        let r = Reflector {
            name: name_owned,
            modules,
            active_streams: Vec::new(),
            recent_streams: Vec::new(),
            start_time: start_mono,
            user_map: Vec::new(),
        };
        proof {
            assert forall|k: int| 0 <= k < mod_names@.len() implies #[trigger] r.has_module(
                mod_names@[k],
            ) by {
                let w = choose|mi: int|
                    0 <= mi < ms.len() && (#[trigger] ms[mi]).name == mod_names@[k];
                assert(r.valid_mi(w) && r.modules@[w].name == mod_names@[k]);
            }
        }
        r
    }

    /// Index of the module holding this address, with the peer slot.
    pub fn locate_peer(&self, addr: u64) -> (r: Option<(usize, usize)>)
        ensures
            match r {
                Some((mi, pi)) => self.valid_peer_idx(mi as int, pi as int) && self.peer_at(
                    mi as int,
                    pi as int,
                ).address == addr,
                None => !self.has_peer(addr),
            },
    {
        let mut mi: usize = 0;
        while mi < self.modules.len()
            invariant
                mi <= self.modules@.len(),
                forall|m: int, p: int|
                    0 <= m < mi && 0 <= p < self.modules@[m].peers@.len() ==> (
                    #[trigger] self.peer_at(m, p)).address != addr,
            decreases self.modules@.len() - mi,
        {
            let m = &self.modules[mi];
            let mut pi: usize = 0;
            while pi < m.peers.len()
                invariant
                    m == self.modules@[mi as int],
                    mi < self.modules@.len(),
                    pi <= m.peers@.len(),
                    forall|p: int|
                        0 <= p < pi ==> (#[trigger] self.peer_at(mi as int, p)).address != addr,
                decreases m.peers@.len() - pi,
            {
                if m.peers[pi].address == addr {
                    return Some((mi, pi));
                }
                pi = pi + 1;
            }
            mi = mi + 1;
        }
        None
    }

    /// Index of the module with this name.
    pub fn module_idx(&self, name: char) -> (r: Option<usize>)
        ensures
            match r {
                Some(mi) => self.valid_mi(mi as int) && self.modules@[mi as int].name == name,
                None => !self.has_module(name),
            },
    {
        let mut mi: usize = 0;
        while mi < self.modules.len()
            invariant
                mi <= self.modules@.len(),
                forall|m: int| 0 <= m < mi ==> (#[trigger] self.modules@[m]).name != name,
            decreases self.modules@.len() - mi,
        {
            if self.modules[mi].name == name {
                return Some(mi);
            }
            mi = mi + 1;
        }
        None
    }

    /// Removes the peer at this address from whichever module holds it.
    /// Touches nothing else; in particular the user index keeps the address.
    fn detach_addr(&mut self, addr: u64)
        requires
            old(self).wf(),
        ensures
            final(self).wf(),
            final(self).same_but_modules(*old(self)),
            final(self).modules@.len() == old(self).modules@.len(),
            forall|mi: int|
                final(self).valid_mi(mi) ==> (#[trigger] final(self).modules@[mi]).name == old(self).modules@[mi].name && final(self).modules@[mi].stats == old(self).modules@[mi].stats,
            !final(self).has_peer(addr),
            forall|mi: int, a: u64, p: Peer|
                #![trigger final(self).module_peer_with(mi, a, p)]
                #![trigger old(self).module_peer_with(mi, a, p)]
                final(self).module_peer_with(mi, a, p) <==> (a != addr && old(self).module_peer_with(mi, a, p)),
            !old(self).has_peer(addr) ==> final(self).modules@ == old(self).modules@,
    {
        let found = self.locate_peer(addr);
        match found {
            None => {
                proof {
                    assert forall|mi: int, a: u64, p: Peer|
                        #![trigger self.module_peer_with(mi, a, p)]
                        self.module_peer_with(mi, a, p) implies a != addr by {
                        if a == addr && self.module_peer_with(mi, a, p) {
                            let pi = choose|pi: int|
                                0 <= pi < self.modules@[mi].peers@.len() && #[trigger] self.peer_at(
                                    mi,
                                    pi,
                                ) == p && p.address == a;
                            assert(self.has_peer(addr));
                        }
                    }
                }
            },
            Some((mi, pi)) => {
                let ghost pre = *self;
                let mut m = self.modules.remove(mi);
                m.peers.remove(pi);
                self.modules.insert(mi, m);
                proof {
                    let post = *self;
                    assert(post.modules@.len() == pre.modules@.len());
                    assert forall|mj: int| post.valid_mi(mj) implies (
                    #[trigger] post.modules@[mj]).name == pre.modules@[mj].name
                        && post.modules@[mj].stats == pre.modules@[mj].stats by {
                        if mj != mi as int {
                            assert(post.modules@[mj] == pre.modules@[mj]);
                        }
                    }
                    // peers of the touched module: every slot comes from a pre slot
                    assert forall|pj: int|
                        0 <= pj < post.modules@[mi as int].peers@.len() implies #[trigger] post.peer_at(
                        mi as int,
                        pj,
                    ) == (if pj < pi as int {
                        pre.peer_at(mi as int, pj)
                    } else {
                        pre.peer_at(mi as int, pj + 1)
                    }) by {}
                    assert forall|mj: int, pj: int|
                        post.valid_peer_idx(mj, pj) && mj != mi as int implies #[trigger] post.peer_at(
                        mj,
                        pj,
                    ) == pre.peer_at(mj, pj) by {
                        assert(post.modules@[mj] == pre.modules@[mj]);
                    }
                    assert(post.addr_unique()) by {
                        assert forall|mj: int, pj: int, mk: int, pk: int|
                            post.valid_peer_idx(mj, pj) && post.valid_peer_idx(mk, pk) && (mj != mk
                                || pj != pk) implies (#[trigger] post.peer_at(mj, pj)).address != (
                            #[trigger] post.peer_at(mk, pk)).address by {
                            let opj = if mj == mi as int && pj >= pi as int {
                                pj + 1
                            } else {
                                pj
                            };
                            let opk = if mk == mi as int && pk >= pi as int {
                                pk + 1
                            } else {
                                pk
                            };
                            assert(post.peer_at(mj, pj) == pre.peer_at(mj, opj));
                            assert(post.peer_at(mk, pk) == pre.peer_at(mk, opk));
                        }
                    }
                    assert(!post.has_peer(addr)) by {
                        if post.has_peer(addr) {
                            let (mj, pj) = choose|mj: int, pj: int|
                                post.valid_peer_idx(mj, pj) && (#[trigger] post.peer_at(
                                    mj,
                                    pj,
                                )).address == addr;
                            let opj = if mj == mi as int && pj >= pi as int {
                                pj + 1
                            } else {
                                pj
                            };
                            assert(pre.peer_at(mj, opj).address == addr);
                            assert(pre.peer_at(mi as int, pi as int).address == addr);
                            assert(mj == mi as int && opj == pi as int);
                            assert(false);
                        }
                    }
                    assert forall|mj: int, a: u64, p: Peer|
                        #![trigger post.module_peer_with(mj, a, p)]
                        #![trigger pre.module_peer_with(mj, a, p)]
                        post.module_peer_with(mj, a, p) <==> (a != addr && pre.module_peer_with(
                            mj,
                            a,
                            p,
                        )) by {
                        if post.module_peer_with(mj, a, p) {
                            let pj = choose|pj: int|
                                0 <= pj < post.modules@[mj].peers@.len() && #[trigger] post.peer_at(
                                    mj,
                                    pj,
                                ) == p && p.address == a;
                            let opj = if mj == mi as int && pj >= pi as int {
                                pj + 1
                            } else {
                                pj
                            };
                            assert(pre.peer_at(mj, opj) == p);
                            assert(pre.module_peer_with(mj, a, p));
                            if a == addr {
                                assert(pre.peer_at(mi as int, pi as int).address == addr);
                                assert(mj == mi as int && opj == pi as int);
                                assert(false);
                            }
                        }
                        if a != addr && pre.module_peer_with(mj, a, p) {
                            let pj = choose|pj: int|
                                0 <= pj < pre.modules@[mj].peers@.len() && #[trigger] pre.peer_at(
                                    mj,
                                    pj,
                                ) == p && p.address == a;
                            if mj == mi as int {
                                assert(pj != pi as int);
                                if pj < pi as int {
                                    assert(post.peer_at(mj, pj) == p);
                                } else {
                                    assert(post.peer_at(mj, pj - 1) == p);
                                }
                            } else {
                                assert(post.peer_at(mj, pj) == p);
                            }
                        }
                    }
                }
            },
        }
    }

    /// Attaches a peer to the module of the given name, in the given role.
    /// Any prior attachment of the same address, in any module, is replaced.
    /// Answers false, changing nothing, when no such module exists.
    pub fn add_peer(
        &mut self,
        module: char,
        callsign: String,
        addr: u64,
        role: PeerRole,
        now_wall: u64,
        now_mono: u64,
    ) -> (ok: bool)
        requires
            old(self).wf(),
        ensures
            final(self).wf(),
            ok <==> old(self).has_module(module),
            !ok ==> *final(self) == *old(self),
            final(self).same_but_modules(*old(self)),
            final(self).modules@.len() == old(self).modules@.len(),
            forall|mi: int|
                final(self).valid_mi(mi) ==> (#[trigger] final(self).modules@[mi]).name == old(self).modules@[mi].name && final(self).modules@[mi].stats == old(self).modules@[mi].stats,
            ok ==> forall|mi: int, a: u64, p: Peer|
                #![trigger final(self).module_peer_with(mi, a, p)]
                final(self).module_peer_with(mi, a, p) ==> ((a != addr && old(self).module_peer_with(mi, a, p)) || (a == addr && final(self).valid_mi(mi) && old(self).modules@[mi].name == module && Peer::spec_new(
                    callsign@,
                    addr,
                    now_wall,
                    now_mono,
                    role is Link,
                    role is Listen,
                    p,
                ))),
            ok ==> forall|mi: int, a: u64, p: Peer|
                a != addr && (#[trigger] old(self).module_peer_with(mi, a, p)) ==> final(self).module_peer_with(mi, a, p),
            ok ==> forall|mi: int|
                final(self).valid_mi(mi) && (#[trigger] final(self).modules@[mi]).name == module
                    ==> exists|p: Peer|
                    Peer::spec_new(
                        callsign@,
                        addr,
                        now_wall,
                        now_mono,
                        role is Link,
                        role is Listen,
                        p,
                    ) && #[trigger] final(self).module_peer_with(mi, addr, p),
    {
        let idx = match self.module_idx(module) {
            None => {
                return false;
            },
            Some(i) => i,
        };
        self.detach_addr(addr);
        let ghost mid = *self;
        let p = match role {
            PeerRole::Client => Peer::new(callsign, addr, now_wall, now_mono),
            PeerRole::Listen => Peer::new_listen(callsign, addr, now_wall, now_mono),
            PeerRole::Link => Peer::new_link(callsign, addr, now_wall, now_mono),
        };
        let ghost newp = p;
        let mut m = self.modules.remove(idx);
        m.peers.push(p);
        self.modules.insert(idx, m);
        proof {
            let pre = *old(self);
            let post = *self;
            assert(post.modules@.len() == mid.modules@.len());
            assert forall|mj: int| post.valid_mi(mj) implies (#[trigger] post.modules@[mj]).name
                == mid.modules@[mj].name && post.modules@[mj].stats == mid.modules@[mj].stats by {
                if mj != idx as int {
                    assert(post.modules@[mj] == mid.modules@[mj]);
                }
            }
            let plen = mid.modules@[idx as int].peers@.len() as int;
            assert(post.peer_at(idx as int, plen) == newp);
            assert forall|mj: int, pj: int|
                post.valid_peer_idx(mj, pj) && (mj != idx as int || pj != plen) implies #[trigger] post.peer_at(
                mj,
                pj,
            ) == mid.peer_at(mj, pj) && mid.valid_peer_idx(mj, pj) by {
                if mj != idx as int {
                    assert(post.modules@[mj] == mid.modules@[mj]);
                }
            }
            assert(post.addr_unique()) by {
                assert forall|mj: int, pj: int, mk: int, pk: int|
                    post.valid_peer_idx(mj, pj) && post.valid_peer_idx(mk, pk) && (mj != mk || pj
                        != pk) implies (#[trigger] post.peer_at(mj, pj)).address != (
                    #[trigger] post.peer_at(mk, pk)).address by {
                    if mj == idx as int && pj == plen {
                        if mid.peer_at(mk, pk).address == addr {
                            assert(mid.has_peer(addr));
                        }
                    } else if mk == idx as int && pk == plen {
                        if mid.peer_at(mj, pj).address == addr {
                            assert(mid.has_peer(addr));
                        }
                    }
                }
            }
            assert forall|mj: int, a: u64, q: Peer|
                #[trigger] post.module_peer_with(mj, a, q) implies ((a != addr
                && pre.module_peer_with(mj, a, q)) || (a == addr && post.valid_mi(mj)
                && pre.modules@[mj].name == module && Peer::spec_new(
                newp.callsign@,
                addr,
                now_wall,
                now_mono,
                role is Link,
                role is Listen,
                q,
            ))) by {
                let pj = choose|pj: int|
                    0 <= pj < post.modules@[mj].peers@.len() && #[trigger] post.peer_at(mj, pj)
                        == q && q.address == a;
                if mj == idx as int && pj == plen {
                    assert(q == newp);
                } else {
                    assert(mid.peer_at(mj, pj) == q);
                    assert(mid.module_peer_with(mj, a, q));
                    assert(a != addr && pre.module_peer_with(mj, a, q));
                }
            }
            assert forall|mj: int, a: u64, q: Peer|
                a != addr && (#[trigger] pre.module_peer_with(mj, a, q)) implies post.module_peer_with(
                mj,
                a,
                q,
            ) by {
                assert(mid.module_peer_with(mj, a, q));
                let pj = choose|pj: int|
                    0 <= pj < mid.modules@[mj].peers@.len() && #[trigger] mid.peer_at(mj, pj) == q
                        && q.address == a;
                assert(post.peer_at(mj, pj) == q);
            }
            assert forall|mj: int|
                post.valid_mi(mj) && (#[trigger] post.modules@[mj]).name == module implies exists|
                q: Peer,
            |
                Peer::spec_new(
                    newp.callsign@,
                    addr,
                    now_wall,
                    now_mono,
                    role is Link,
                    role is Listen,
                    q,
                ) && #[trigger] post.module_peer_with(mj, addr, q) by {
                assert(mj == idx as int) by {
                    if mj != idx as int {
                        assert(pre.modules@[mj].name == pre.modules@[idx as int].name);
                    }
                }
                assert(post.peer_at(idx as int, plen) == newp);
                assert(post.module_peer_with(idx as int, addr, newp));
            }
        }
        true
    }

    /// Attaches a link peer to the module of the given name, unless the
    /// module is unknown or the address is already attached somewhere.
    pub fn add_link_peer(&mut self, module: char, name: String, addr: u64, now_wall: u64, now_mono: u64)
        requires
            old(self).wf(),
        ensures
            final(self).wf(),
            final(self).same_but_modules(*old(self)),
            !old(self).has_module(module) || old(self).has_peer(addr) ==> *final(self) == *old(self),
            final(self).modules@.len() == old(self).modules@.len(),
            forall|mi: int|
                final(self).valid_mi(mi) ==> (#[trigger] final(self).modules@[mi]).name == old(self).modules@[mi].name && final(self).modules@[mi].stats == old(self).modules@[mi].stats,
            old(self).has_module(module) && !old(self).has_peer(addr) ==> forall|
                mi: int,
                a: u64,
                p: Peer,
            |
                #[trigger] final(self).module_peer_with(mi, a, p) ==> (old(self).module_peer_with(
                    mi,
                    a,
                    p,
                ) || (a == addr && final(self).valid_mi(mi) && old(self).modules@[mi].name == module
                    && Peer::spec_new(name@, addr, now_wall, now_mono, true, false, p))),
            forall|mi: int, a: u64, p: Peer|
                #[trigger] old(self).module_peer_with(mi, a, p) ==> final(self).module_peer_with(
                    mi,
                    a,
                    p,
                ),
            old(self).has_module(module) && !old(self).has_peer(addr) ==> forall|mi: int|
                final(self).valid_mi(mi) && (#[trigger] final(self).modules@[mi]).name == module
                    ==> exists|p: Peer|
                    Peer::spec_new(name@, addr, now_wall, now_mono, true, false, p)
                        && #[trigger] final(self).module_peer_with(mi, addr, p),
    {
        let idx = match self.module_idx(module) {
            None => {
                return ;
            },
            Some(i) => i,
        };
        match self.locate_peer(addr) {
            Some(_) => {
                return ;
            },
            None => {},
        };
        let ghost pre = *self;
        let p = Peer::new_link(name, addr, now_wall, now_mono);
        let ghost newp = p;
        let mut m = self.modules.remove(idx);
        m.peers.push(p);
        self.modules.insert(idx, m);
        proof {
            let post = *self;
            assert forall|mj: int| post.valid_mi(mj) implies (#[trigger] post.modules@[mj]).name
                == pre.modules@[mj].name && post.modules@[mj].stats == pre.modules@[mj].stats by {
                if mj != idx as int {
                    assert(post.modules@[mj] == pre.modules@[mj]);
                }
            }
            let plen = pre.modules@[idx as int].peers@.len() as int;
            assert(post.peer_at(idx as int, plen) == newp);
            assert forall|mj: int, pj: int|
                post.valid_peer_idx(mj, pj) && (mj != idx as int || pj != plen) implies #[trigger] post.peer_at(
                mj,
                pj,
            ) == pre.peer_at(mj, pj) && pre.valid_peer_idx(mj, pj) by {
                if mj != idx as int {
                    assert(post.modules@[mj] == pre.modules@[mj]);
                }
            }
            assert(post.addr_unique()) by {
                assert forall|mj: int, pj: int, mk: int, pk: int|
                    post.valid_peer_idx(mj, pj) && post.valid_peer_idx(mk, pk) && (mj != mk || pj
                        != pk) implies (#[trigger] post.peer_at(mj, pj)).address != (
                    #[trigger] post.peer_at(mk, pk)).address by {
                    if mj == idx as int && pj == plen {
                        if pre.peer_at(mk, pk).address == addr {
                            assert(pre.has_peer(addr));
                        }
                    } else if mk == idx as int && pk == plen {
                        if pre.peer_at(mj, pj).address == addr {
                            assert(pre.has_peer(addr));
                        }
                    }
                }
            }
            assert forall|mj: int, a: u64, q: Peer|
                #[trigger] post.module_peer_with(mj, a, q) implies (pre.module_peer_with(mj, a, q)
                || (a == addr && post.valid_mi(mj) && pre.modules@[mj].name == module
                && Peer::spec_new(
                newp.callsign@,
                addr,
                now_wall,
                now_mono,
                true,
                false,
                q,
            ))) by {
                let pj = choose|pj: int|
                    0 <= pj < post.modules@[mj].peers@.len() && #[trigger] post.peer_at(mj, pj)
                        == q && q.address == a;
                if mj == idx as int && pj == plen {
                    assert(q == newp);
                } else {
                    assert(pre.peer_at(mj, pj) == q);
                    assert(pre.module_peer_with(mj, a, q));
                }
            }
            assert forall|mj: int, a: u64, q: Peer|
                #[trigger] pre.module_peer_with(mj, a, q) implies post.module_peer_with(
                mj,
                a,
                q,
            ) by {
                let pj = choose|pj: int|
                    0 <= pj < pre.modules@[mj].peers@.len() && #[trigger] pre.peer_at(mj, pj) == q
                        && q.address == a;
                assert(post.peer_at(mj, pj) == q);
            }
            assert forall|mj: int|
                post.valid_mi(mj) && (#[trigger] post.modules@[mj]).name == module implies exists|
                q: Peer,
            |
                Peer::spec_new(newp.callsign@, addr, now_wall, now_mono, true, false, q)
                    && #[trigger] post.module_peer_with(mj, addr, q) by {
                assert(mj == idx as int) by {
                    if mj != idx as int {
                        assert(pre.modules@[mj].name == pre.modules@[idx as int].name);
                    }
                }
                assert(post.peer_at(idx as int, plen) == newp);
                assert(post.module_peer_with(idx as int, addr, newp));
            }
        }
    }

    /// Removes `addr` from each user-index set in place, keeping positions.
    fn purge_pass(&mut self, addr: u64)
        requires
            forall|j: int, k: int, l: int|
                0 <= j < old(self).user_map@.len() && 0 <= k < l < old(self).user_map@[j].addrs@.len() ==> (#[trigger] old(self).user_map@[j].addrs@[k]) != (
                #[trigger] old(self).user_map@[j].addrs@[l]),
        ensures
            final(self).same_but_user_map(*old(self)),
            final(self).user_map@.len() == old(self).user_map@.len(),
            forall|j: int|
                0 <= j < final(self).user_map@.len() ==> (#[trigger] final(self).user_map@[j]).base
                    == old(self).user_map@[j].base,
            forall|j: int|
                0 <= j < final(self).user_map@.len() ==> !entry_has(
                    #[trigger] final(self).user_map@[j],
                    addr,
                ),
            forall|j: int|
                0 <= j < final(self).user_map@.len() ==> ((
                #[trigger] final(self).user_map@[j]).addrs@.len() > 0 <==> exists|a: u64|
                    a != addr && entry_has(old(self).user_map@[j], a)),
            forall|j: int, a: u64|
                0 <= j < final(self).user_map@.len() && a != addr ==> ((#[trigger] entry_has(
                    final(self).user_map@[j],
                    a,
                )) <==> entry_has(old(self).user_map@[j], a)),
            forall|j: int, k: int, l: int|
                0 <= j < final(self).user_map@.len() && 0 <= k < l
                    < final(self).user_map@[j].addrs@.len() ==> (#[trigger] final(self).user_map@[j].addrs@[k]) != (#[trigger] final(self).user_map@[j].addrs@[l]),
    {
        let ghost mid = *self;
        let ghost pre = self.user_map@;
        let n = self.user_map.len();
        let mut i: usize = 0;
        while i < n
            invariant
                self.same_but_user_map(mid),
                pre == mid.user_map@,
                pre.len() == n,
                n == self.user_map@.len(),
                i <= n,
                forall|j: int, k: int, l: int|
                    0 <= j < pre.len() && 0 <= k < l < pre[j].addrs@.len() ==> (
                    #[trigger] pre[j].addrs@[k]) != (#[trigger] pre[j].addrs@[l]),
                forall|j: int| i <= j < n ==> self.user_map@[j] == pre[j],
                forall|j: int| 0 <= j < i ==> (#[trigger] self.user_map@[j]).base == pre[j].base,
                forall|j: int| 0 <= j < i ==> !entry_has(#[trigger] self.user_map@[j], addr),
                forall|j: int|
                    0 <= j < i ==> ((#[trigger] self.user_map@[j]).addrs@.len() > 0 <==> exists|
                        a: u64,
                    |
                        a != addr && entry_has(pre[j], a)),
                forall|j: int, a: u64|
                    0 <= j < i && a != addr ==> ((#[trigger] entry_has(self.user_map@[j], a)) <==>
                    entry_has(pre[j], a)),
                forall|j: int, k: int, l: int|
                    0 <= j < i && 0 <= k < l < self.user_map@[j].addrs@.len() ==> (
                    #[trigger] self.user_map@[j].addrs@[k]) != (
                    #[trigger] self.user_map@[j].addrs@[l]),
            decreases n - i,
        {
            let ghost before = self.user_map@;
            let mut e = self.user_map.remove(i);
            proof {
                assert(e == pre[i as int]);
                assert forall|k: int, l: int|
                    0 <= k < l < e.addrs@.len() implies (#[trigger] e.addrs@[k]) != (
                #[trigger] e.addrs@[l]) by {
                    assert(e.addrs@[k] == pre[i as int].addrs@[k]);
                    assert(e.addrs@[l] == pre[i as int].addrs@[l]);
                }
            }
            purge_addr_entry(&mut e, addr);
            let ghost newe = e;
            self.user_map.insert(i, e);
            proof {
                assert(self.user_map@ =~= before.update(i as int, newe));
                assert(self.user_map@[i as int] == newe);
                assert(newe.addrs@.len() > 0 <==> exists|a: u64|
                    a != addr && entry_has(pre[i as int], a));
            }
            i = i + 1;
        }
    }

    /// Drops the user-index entries whose address sets are empty, keeping
    /// the others in order. Touches nothing but the user index.
    #[verifier::rlimit(60)]
    fn prune_empty(&mut self)
        requires
            forall|j1: int, j2: int|
                0 <= j1 < j2 < old(self).user_map@.len() ==> (
                #[trigger] old(self).user_map@[j1]).base@ != (
                #[trigger] old(self).user_map@[j2]).base@,
        ensures
            final(self).same_but_user_map(*old(self)),
            forall|j1: int, j2: int|
                0 <= j1 < j2 < final(self).user_map@.len() ==> (
                #[trigger] final(self).user_map@[j1]).base@ != (
                #[trigger] final(self).user_map@[j2]).base@,
            forall|j: int|
                0 <= j < final(self).user_map@.len() ==> (
                #[trigger] final(self).user_map@[j]).addrs@.len() > 0,
            entries_from(final(self).user_map@, old(self).user_map@),
            nonempty_entries_kept(old(self).user_map@, final(self).user_map@),
    {
        let ghost mid = *self;
        let ghost um = self.user_map@;
        let n = self.user_map.len();
        let mut kept: Vec<UserEntry> = Vec::new();
        let ghost mut src: Seq<int> = Seq::empty();
        let mut i: usize = 0;
        while i < n
            invariant
                self.same_but_user_map(mid),
                um == mid.user_map@,
                um.len() == n,
                i <= n,
                self.user_map@ =~= um.subrange(i as int, n as int),
                src.len() == kept@.len(),
                forall|j: int|
                    0 <= j < kept@.len() ==> 0 <= #[trigger] src[j] < i && kept@[j] == um[src[j]]
                        && um[src[j]].addrs@.len() > 0,
                forall|ja: int, jb: int| 0 <= ja < jb < kept@.len() ==> src[ja] < src[jb],
                forall|j2: int|
                    0 <= j2 < i && (#[trigger] um[j2]).addrs@.len() > 0 ==> exists|j: int|
                        0 <= j < kept@.len() && src[j] == j2,
            decreases n - i,
        {
            let ghost kept0 = kept@;
            let ghost src0 = src;
            let e = self.user_map.remove(0);
            assert(e == um[i as int]);
            let keep = e.addrs.len() > 0;
            if keep {
                kept.push(e);
                proof {
                    src = src.push(i as int);
                }
            }
            proof {
                assert(self.user_map@ =~= um.subrange(i as int + 1, n as int));
                assert forall|j2: int|
                    0 <= j2 < i + 1 && (#[trigger] um[j2]).addrs@.len() > 0 implies exists|j: int|
                    0 <= j < kept@.len() && src[j] == j2 by {
                    if j2 < i {
                        let j = choose|j: int| 0 <= j < kept0.len() && src0[j] == j2;
                        assert(src[j] == j2);
                    } else {
                        assert(keep);
                        assert(src[src.len() - 1] == j2);
                    }
                }
            }
            i = i + 1;
        }
        let ghost keptv = kept@;
        self.user_map = kept;
        proof {
            assert(self.user_map@ == keptv);
            assert(um == old(self).user_map@);
            assert forall|j1: int, j2: int|
                0 <= j1 < j2 < self.user_map@.len() implies (
            #[trigger] self.user_map@[j1]).base@ != (#[trigger] self.user_map@[j2]).base@ by {
                assert(src[j1] < src[j2]);
                assert(self.user_map@[j1] == um[src[j1]] && self.user_map@[j2] == um[src[j2]]);
                assert(um[src[j1]].base@ != um[src[j2]].base@);
            }
            assert forall|j: int|
                0 <= j < self.user_map@.len() implies (
            #[trigger] self.user_map@[j]).addrs@.len() > 0 by {
                assert(self.user_map@[j] == um[src[j]]);
            }
            assert(entries_from(keptv, um)) by {
                assert forall|j: int| 0 <= j < keptv.len() implies entry_from(
                    #[trigger] keptv[j],
                    um,
                ) by {
                    assert(um[src[j]] == keptv[j]);
                }
            }
            assert(nonempty_entries_kept(um, keptv)) by {
                assert forall|j2: int|
                    0 <= j2 < um.len() && (#[trigger] um[j2]).addrs@.len() > 0 implies entry_from(
                    um[j2],
                    keptv,
                ) by {
                    let j = choose|j: int| 0 <= j < keptv.len() && src[j] == j2;
                    assert(keptv[j] == um[j2]);
                }
            }
        }
    }

    /// Detaches the peer at this address, removes the address from every
    /// user-index set, and drops user-index entries whose sets became empty.
    pub fn remove_peer(&mut self, addr: u64)
        requires
            old(self).wf(),
        ensures
            final(self).wf(),
            final(self).name == old(self).name,
            final(self).active_streams == old(self).active_streams,
            final(self).recent_streams == old(self).recent_streams,
            final(self).start_time == old(self).start_time,
            final(self).modules@.len() == old(self).modules@.len(),
            forall|mi: int|
                final(self).valid_mi(mi) ==> (#[trigger] final(self).modules@[mi]).name == old(self).modules@[mi].name && final(self).modules@[mi].stats == old(self).modules@[mi].stats,
            !final(self).has_peer(addr),
            forall|mi: int, a: u64, p: Peer|
                #![trigger final(self).module_peer_with(mi, a, p)]
                #![trigger old(self).module_peer_with(mi, a, p)]
                final(self).module_peer_with(mi, a, p) <==> (a != addr && old(self).module_peer_with(mi, a, p)),
            forall|b: Seq<char>, a: u64|
                #![trigger final(self).user_has_addr(b, a)]
                #![trigger old(self).user_has_addr(b, a)]
                final(self).user_has_addr(b, a) <==> (old(self).user_has_addr(b, a) && a != addr),
            user_keys_shrunk(final(self).user_map@, old(self).user_map@, addr),
            forall|j: int|
                0 <= j < final(self).user_map@.len() ==> !entry_has(
                    #[trigger] final(self).user_map@[j],
                    addr,
                ) && final(self).user_map@[j].addrs@.len() > 0,
    {
        self.detach_addr(addr);
        let ghost mid = *self;
        let ghost pre = self.user_map@;
        self.purge_pass(addr);
        let ghost um = self.user_map@;
        proof {
            assert forall|j1: int, j2: int|
                0 <= j1 < j2 < um.len() implies (#[trigger] um[j1]).base@ != (
            #[trigger] um[j2]).base@ by {
                assert(um[j1].base == pre[j1].base && um[j2].base == pre[j2].base);
            }
        }
        self.prune_empty();
        proof {
            lemma_registry_transfer(mid, *self);
            lemma_purge_prune(old(self).user_map@, um, self.user_map@, addr);
            assert(user_keys_shrunk(self.user_map@, old(self).user_map@, addr)) by {
                assert forall|b: Seq<char>|
                    #![trigger seq_has_user(self.user_map@, b)]
                    #![trigger seq_has_user(old(self).user_map@, b)]
                    seq_has_user(self.user_map@, b) <==> (seq_has_user(old(self).user_map@, b)
                        && exists|a: u64|
                        a != addr && #[trigger] seq_user_has(old(self).user_map@, b, a)) by {
                    if seq_has_user(self.user_map@, b) {
                        let a = choose|a: u64|
                            a != addr && #[trigger] seq_user_has(old(self).user_map@, b, a);
                        let w = choose|w: int|
                            0 <= w < old(self).user_map@.len() && (
                            #[trigger] old(self).user_map@[w]).base@ == b && entry_has(
                                old(self).user_map@[w],
                                a,
                            );
                        assert(seq_has_user(old(self).user_map@, b));
                    }
                }
            }
        }
    }

    /// Index of the active stream with this id.
    fn active_idx(&self, stream_id: u16) -> (r: Option<usize>)
        ensures
            match r {
                Some(i) => i < self.active_streams@.len()
                    && self.active_streams@[i as int].stream_id == stream_id,
                None => !self.active_has(stream_id),
            },
    {
        let n = self.active_streams.len();
        let mut i: usize = 0;
        while i < n
            invariant
                n == self.active_streams@.len(),
                i <= n,
                forall|j: int|
                    0 <= j < i ==> (#[trigger] self.active_streams@[j]).stream_id != stream_id,
            decreases n - i,
        {
            if self.active_streams[i].stream_id == stream_id {
                return Some(i);
            }
            i = i + 1;
        }
        None
    }

    /// Whether an active stream with this id exists, as an executable test.
    pub fn has_active(&self, stream_id: u16) -> (r: bool)
        ensures
            r == self.active_has(stream_id),
    {
        match self.active_idx(stream_id) {
            Some(_) => true,
            None => false,
        }
    }

    /// Whether some active stream is broadcasting on this module.
    fn broadcast_busy(&self, module: char) -> (r: bool)
        ensures
            r == self.has_broadcast_on(module),
    {
        let n = self.active_streams.len();
        let mut i: usize = 0;
        while i < n
            invariant
                n == self.active_streams@.len(),
                i <= n,
                forall|j: int|
                    0 <= j < i ==> !((#[trigger] self.active_streams@[j]).module == module
                        && self.active_streams@[j].is_broadcast),
            decreases n - i,
        {
            let s = &self.active_streams[i];
            if s.module == module && s.is_broadcast {
                return true;
            }
            i = i + 1;
        }
        false
    }

    /// Accounts one stream frame: bumps the module's frame counter, then
    /// admits a new stream (refusing a second broadcast on one module),
    /// or updates the running one. Answers false only for a refused
    /// broadcast.
    pub fn record_stream_frame(
        &mut self,
        stream_id: u16,
        callsign: &str,
        module: char,
        destination: &str,
        peer: u64,
        is_broadcast: bool,
        now_mono: u64,
    ) -> (allowed: bool)
        requires
            old(self).wf(),
        ensures
            final(self).wf(),
            final(self).name == old(self).name,
            final(self).user_map == old(self).user_map,
            final(self).start_time == old(self).start_time,
            final(self).recent_streams == old(self).recent_streams,
            allowed <==> !(!old(self).active_has(stream_id) && is_broadcast && old(self).has_broadcast_on(module)),
            // module counters: total_frames always bumped on the named module
            final(self).modules@.len() == old(self).modules@.len(),
            forall|mi: int|
                final(self).valid_mi(mi) ==> (#[trigger] final(self).modules@[mi]).name == old(self).modules@[mi].name && final(self).modules@[mi].peers == old(self).modules@[mi].peers,
            forall|mi: int|
                final(self).valid_mi(mi) && old(self).modules@[mi].name != module ==> (
                #[trigger] final(self).modules@[mi]).stats == old(self).modules@[mi].stats,
            forall|mi: int|
                final(self).valid_mi(mi) && old(self).modules@[mi].name == module ==> (
                #[trigger] final(self).modules@[mi]).stats.total_frames == spec_sat_add64(
                    old(self).modules@[mi].stats.total_frames,
                    1,
                ) && final(self).modules@[mi].stats.total_streams == (
                if old(self).active_has(stream_id) || !allowed {
                    old(self).modules@[mi].stats.total_streams
                } else {
                    spec_sat_add64(old(self).modules@[mi].stats.total_streams, 1)
                }),
            // streams
            !allowed ==> final(self).active_streams == old(self).active_streams,
            old(self).active_has(stream_id) ==> {
                &&& final(self).active_streams@.len() == old(self).active_streams@.len()
                &&& exists|i: int|
                    0 <= i < old(self).active_streams@.len() && (#[trigger] old(self).active_streams@[i]).stream_id == stream_id && final(self).active_streams@
                        =~= old(self).active_streams@.update(
                        i,
                        StreamInfo {
                            frames: spec_sat_add32(old(self).active_streams@[i].frames, 1),
                            last_frame_time: now_mono,
                            ..old(self).active_streams@[i]
                        },
                    )
            },
            (allowed && !old(self).active_has(stream_id)) ==> {
                &&& final(self).active_streams@.len() == old(self).active_streams@.len() + 1
                &&& final(self).active_streams@.drop_last() == old(self).active_streams@
                &&& {
                    let s = final(self).active_streams@.last();
                    &&& s.stream_id == stream_id
                    &&& s.callsign@ == callsign@
                    &&& s.destination@ == destination@
                    &&& s.module == module
                    &&& s.peer == peer
                    &&& s.is_broadcast == is_broadcast
                    &&& s.frames == 1
                    &&& s.start_time == now_mono
                    &&& s.last_frame_time == now_mono
                    &&& s.end_time is None
                    &&& forall|q: Peer|
                        #[trigger] old(self).peer_with(peer, q) ==> s.peer_callsign@ == q.callsign@
                    &&& (!old(self).has_peer(peer) ==> s.peer_callsign@.len() == 0)
                }
            },
            allowed ==> final(self).active_has(stream_id),
    {
        let ghost pre = *self;
        // bump the module frame counter first, as the traffic was seen
        // whether or not the stream is admitted
        match self.module_idx(module) {
            Some(mi) => {
                let mut m = self.modules.remove(mi);
                m.stats.total_frames = sat_add64(m.stats.total_frames, 1);
                let ghost m1 = m;
                self.modules.insert(mi, m);
                proof {
                    assert(self.modules@ =~= pre.modules@.update(mi as int, m1));
                    lemma_peers_preserved(pre, *self);
                    assert forall|mj: int|
                        self.valid_mi(mj) && pre.modules@[mj].name == module implies mj
                        == mi as int by {
                        if mj != mi as int {
                            assert(pre.modules@[mj].name != pre.modules@[mi as int].name);
                        }
                    }
                }
            },
            None => {
                proof {
                    assert forall|mj: int|
                        self.valid_mi(mj) implies (#[trigger] self.modules@[mj]).name
                        != module by {}
                }
            },
        }
        let ghost mid = *self;

        let existing = self.active_idx(stream_id);
        match existing {
            Some(i) => {
                let mut s = self.active_streams.remove(i);
                s.frames = sat_add32(s.frames, 1);
                s.last_frame_time = now_mono;
                let ghost s1 = s;
                self.active_streams.insert(i, s);
                proof {
                    assert(self.active_streams@ =~= mid.active_streams@.update(i as int, s1));
                    assert(pre.active_streams@ == mid.active_streams@);
                    assert(pre.active_has(stream_id));
                    lemma_registry_transfer(mid, *self);
                    assert(self.active_streams@[i as int].stream_id == stream_id);
                }
                true
            },
            None => {
                if is_broadcast && self.broadcast_busy(module) {
                    proof {
                        assert(pre.has_broadcast_on(module)) by {
                            let w = choose|w: int|
                                0 <= w < mid.active_streams@.len() && (
                                #[trigger] mid.active_streams@[w]).module == module
                                    && mid.active_streams@[w].is_broadcast;
                            assert(pre.active_streams@[w].module == module
                                && pre.active_streams@[w].is_broadcast);
                        }
                    }
                    return false;
                }
                // admit the stream and bump the module stream counter
                let ghost mid2 = *self;
                match self.module_idx(module) {
                    Some(mi) => {
                        let mut m = self.modules.remove(mi);
                        m.stats.total_streams = sat_add64(m.stats.total_streams, 1);
                        let ghost m1 = m;
                        self.modules.insert(mi, m);
                        proof {
                            assert(self.modules@ =~= mid2.modules@.update(mi as int, m1));
                            lemma_peers_preserved(mid2, *self);
                            assert forall|mj: int|
                                self.valid_mi(mj) && mid2.modules@[mj].name == module implies mj
                                == mi as int by {
                                if mj != mi as int {
                                    assert(mid2.modules@[mj].name != mid2.modules@[mi as int].name);
                                }
                            }
                        }
                    },
                    None => {},
                }
                let found_origin = self.find_peer(peer);
                let ghost origin_opt: Option<Peer> = match found_origin {
                    Some(p) => Some(*p),
                    None => None,
                };
                let peer_callsign = match found_origin {
                    Some(p) => p.callsign.clone(),
                    None => String::new(),
                };
                proof {
                    match origin_opt {
                        Some(q1) => {
                            assert(self.peer_with(peer, q1));
                            assert(peer_callsign@ == q1.callsign@);
                            lemma_peers_preserved(*old(self), *self);
                            assert forall|q: Peer|
                                #[trigger] old(self).peer_with(peer, q) implies peer_callsign@
                                == q.callsign@ by {
                                assert(self.peer_with(peer, q));
                                let (mj, pj) = choose|mj: int, pj: int|
                                    self.valid_peer_idx(mj, pj) && #[trigger] self.peer_at(mj, pj)
                                        == q && q.address == peer;
                                let (mk, pk) = choose|mk: int, pk: int|
                                    self.valid_peer_idx(mk, pk) && #[trigger] self.peer_at(mk, pk)
                                        == q1 && q1.address == peer;
                                assert(q == q1);
                            }
                        },
                        None => {
                            lemma_peers_preserved(*old(self), *self);
                            assert(!old(self).has_peer(peer));
                            assert(peer_callsign@.len() == 0);
                        },
                    }
                }
                let cs = copy_str(callsign);
                let dst = copy_str(destination);
                let info = StreamInfo {
                    stream_id,
                    callsign: cs,
                    destination: dst,
                    module,
                    start_time: now_mono,
                    last_frame_time: now_mono,
                    peer_callsign,
                    peer,
                    frames: 1,
                    is_broadcast,
                    end_time: None,
                };
                let ghost info1 = info;
                self.active_streams.push(info);
                proof {
                    let post = *self;
                    lemma_peers_preserved(pre, post);
                    assert(post.active_streams@.drop_last() =~= pre.active_streams@);
                    let newi = post.active_streams@.len() - 1;
                    assert(post.active_streams@[newi] == info1);
                    assert(post.active_has(stream_id));
                    // stream ids stay unique and at most one broadcast per module
                    assert forall|i: int, j: int|
                        0 <= i < j < post.active_streams@.len() implies (
                    #[trigger] post.active_streams@[i]).stream_id != (
                    #[trigger] post.active_streams@[j]).stream_id by {
                        if j == newi {
                            assert(post.active_streams@[i] == mid2.active_streams@[i]);
                            assert(mid2.active_streams@[i].stream_id != stream_id);
                        }
                    }
                    assert forall|i: int, j: int|
                        0 <= i < j < post.active_streams@.len() && (
                    #[trigger] post.active_streams@[i]).is_broadcast && (
                    #[trigger] post.active_streams@[j]).is_broadcast implies post.active_streams@[i].module != post.active_streams@[j].module by {
                        if j == newi {
                            assert(post.active_streams@[i] == mid2.active_streams@[i]);
                            if post.active_streams@[i].module == module && post.active_streams@[i].is_broadcast {
                                assert(mid2.has_broadcast_on(module));
                            }
                        }
                    }
                }
                true
            },
        }
    }

    /// Ends an active stream: removes it and appends it, stamped with the
    /// end time, to the recent list, evicting the oldest past fifty.
    pub fn end_stream(&mut self, stream_id: u16, now_mono: u64)
        requires
            old(self).wf(),
        ensures
            final(self).wf(),
            final(self).same_but_streams(*old(self)),
            !final(self).active_has(stream_id),
            !old(self).active_has(stream_id) ==> *final(self) == *old(self),
            old(self).active_has(stream_id) ==> {
                &&& exists|i: int|
                    0 <= i < old(self).active_streams@.len() && (#[trigger] old(self).active_streams@[i]).stream_id == stream_id && final(self).active_streams@
                        =~= old(self).active_streams@.remove(i) && final(self).recent_streams@
                        =~= (
                    if old(self).recent_streams@.len() < 50 {
                        old(self).recent_streams@
                    } else {
                        old(self).recent_streams@.subrange(
                            1,
                            old(self).recent_streams@.len() as int,
                        )
                    }).push(
                        StreamInfo { end_time: Some(now_mono), ..old(self).active_streams@[i] },
                    )
                &&& final(self).recent_streams@.len() <= 50
                &&& final(self).recent_streams@.last().stream_id == stream_id
                &&& final(self).recent_streams@.last().end_time == Some(now_mono)
            },
    {
        let found = self.active_idx(stream_id);
        match found {
            None => {},
            Some(i) => {
                let ghost pre = *self;
                let mut s = self.active_streams.remove(i);
                s.end_time = Some(now_mono);
                let ghost s1 = s;
                if self.recent_streams.len() >= 50 {
                    self.recent_streams.remove(0);
                }
                self.recent_streams.push(s);
                proof {
                    let post = *self;
                    lemma_registry_transfer(pre, post);
                    assert(s1 == StreamInfo {
                        end_time: Some(now_mono),
                        ..pre.active_streams@[i as int]
                    });
                    assert(post.recent_streams@.last() == s1);
                    assert(!post.active_has(stream_id)) by {
                        if post.active_has(stream_id) {
                            let w = choose|w: int|
                                0 <= w < post.active_streams@.len() && (
                                #[trigger] post.active_streams@[w]).stream_id == stream_id;
                            let ow = if w < i as int {
                                w
                            } else {
                                w + 1
                            };
                            assert(pre.active_streams@[ow].stream_id == stream_id);
                            assert(pre.active_streams@[i as int].stream_id == stream_id);
                        }
                    }
                    assert forall|x: int, y: int|
                        0 <= x < y < post.active_streams@.len() implies (
                    #[trigger] post.active_streams@[x]).stream_id != (
                    #[trigger] post.active_streams@[y]).stream_id by {
                        let ox = if x < i as int { x } else { x + 1 };
                        let oy = if y < i as int { y } else { y + 1 };
                        assert(post.active_streams@[x] == pre.active_streams@[ox]);
                        assert(post.active_streams@[y] == pre.active_streams@[oy]);
                    }
                    assert forall|x: int, y: int|
                        0 <= x < y < post.active_streams@.len() && (
                    #[trigger] post.active_streams@[x]).is_broadcast && (
                    #[trigger] post.active_streams@[y]).is_broadcast implies post.active_streams@[x].module != post.active_streams@[y].module by {
                        let ox = if x < i as int { x } else { x + 1 };
                        let oy = if y < i as int { y } else { y + 1 };
                        assert(post.active_streams@[x] == pre.active_streams@[ox]);
                        assert(post.active_streams@[y] == pre.active_streams@[oy]);
                    }
                }
            },
        }
    }


    /// Applies one update to the peer at this address, if known.
    pub fn apply_peer_update(&mut self, addr: u64, u: PeerUpdate)
        requires
            old(self).wf(),
        ensures
            final(self).wf(),
            final(self).same_but_modules(*old(self)),
            final(self).modules@.len() == old(self).modules@.len(),
            forall|mi: int|
                final(self).valid_mi(mi) ==> (#[trigger] final(self).modules@[mi]).name == old(self).modules@[mi].name && final(self).modules@[mi].stats == old(self).modules@[mi].stats,
            !old(self).has_peer(addr) ==> *final(self) == *old(self),
            forall|mi: int, a: u64, p: Peer|
                #[trigger] final(self).module_peer_with(mi, a, p) ==> ((a != addr && old(self).module_peer_with(mi, a, p)) || (a == addr && exists|q: Peer|
                    #[trigger] old(self).module_peer_with(mi, a, q) && p == spec_apply_update(
                        u,
                        q,
                    ))),
            forall|mi: int, a: u64, p: Peer|
                a != addr && (#[trigger] old(self).module_peer_with(mi, a, p)) ==> final(self).module_peer_with(mi, a, p),
            forall|mi: int, q: Peer|
                #[trigger] old(self).module_peer_with(mi, addr, q) ==> final(self).module_peer_with(mi, addr, spec_apply_update(u, q)),
    {
        match self.locate_peer(addr) {
            None => {
                proof {
                    assert forall|mi: int, a: u64, p: Peer|
                        #[trigger] self.module_peer_with(mi, a, p) implies a != addr by {
                        if a == addr && self.module_peer_with(mi, a, p) {
                            let pi = choose|pi: int|
                                0 <= pi < self.modules@[mi].peers@.len() && #[trigger] self.peer_at(
                                    mi,
                                    pi,
                                ) == p && p.address == a;
                            assert(self.has_peer(addr));
                        }
                    }
                }
            },
            Some((mi, pi)) => {
                let ghost pre = *self;
                let mut m = self.modules.remove(mi);
                let mut p = m.peers.remove(pi);
                let ghost q0 = p;
                p.apply_update(u);
                let ghost p1 = p;
                proof {
                    assert(p1.address == q0.address);
                }
                m.peers.insert(pi, p);
                self.modules.insert(mi, m);
                proof {
                    let post = *self;
                    assert(post.modules@[mi as int].peers@ =~= pre.modules@[mi as int].peers@
                        .update(pi as int, p1));
                    assert forall|mj: int| post.valid_mi(mj) implies (
                    #[trigger] post.modules@[mj]).name == pre.modules@[mj].name
                        && post.modules@[mj].stats == pre.modules@[mj].stats by {
                        if mj != mi as int {
                            assert(post.modules@[mj] == pre.modules@[mj]);
                        }
                    }
                    assert forall|mj: int, pj: int|
                        post.valid_peer_idx(mj, pj) implies #[trigger] post.peer_at(mj, pj) == (
                    if mj == mi as int && pj == pi as int {
                        p1
                    } else {
                        pre.peer_at(mj, pj)
                    }) && pre.valid_peer_idx(mj, pj) by {
                        if mj != mi as int {
                            assert(post.modules@[mj] == pre.modules@[mj]);
                        }
                    }
                    assert(post.addr_unique()) by {
                        assert forall|mj: int, pj: int, mk: int, pk: int|
                            post.valid_peer_idx(mj, pj) && post.valid_peer_idx(mk, pk) && (mj != mk
                                || pj != pk) implies (#[trigger] post.peer_at(mj, pj)).address != (
                        #[trigger] post.peer_at(mk, pk)).address by {
                            assert(post.peer_at(mj, pj).address == pre.peer_at(mj, pj).address);
                            assert(post.peer_at(mk, pk).address == pre.peer_at(mk, pk).address);
                        }
                    }
                    assert forall|mj: int, a: u64, p2: Peer|
                        #[trigger] post.module_peer_with(mj, a, p2) implies ((a != addr
                        && pre.module_peer_with(mj, a, p2)) || (a == addr && exists|q: Peer|
                        #[trigger] pre.module_peer_with(mj, a, q) && p2 == spec_apply_update(
                            u,
                            q,
                        ))) by {
                        let pj = choose|pj: int|
                            0 <= pj < post.modules@[mj].peers@.len() && #[trigger] post.peer_at(
                                mj,
                                pj,
                            ) == p2 && p2.address == a;
                        if mj == mi as int && pj == pi as int {
                            assert(p2 == p1);
                            assert(pre.peer_at(mi as int, pi as int) == q0);
                            assert(pre.module_peer_with(mj, a, q0));
                            assert(p1 == spec_apply_update(u, q0));
                        } else {
                            assert(pre.peer_at(mj, pj) == p2);
                            assert(pre.module_peer_with(mj, a, p2));
                            if a == addr {
                                assert(pre.peer_at(mi as int, pi as int).address == addr);
                                assert(false);
                            }
                        }
                    }
                    assert forall|mj: int, a: u64, p2: Peer|
                        a != addr && (#[trigger] pre.module_peer_with(mj, a, p2)) implies post.module_peer_with(
                        mj,
                        a,
                        p2,
                    ) by {
                        let pj = choose|pj: int|
                            0 <= pj < pre.modules@[mj].peers@.len() && #[trigger] pre.peer_at(
                                mj,
                                pj,
                            ) == p2 && p2.address == a;
                        if mj == mi as int && pj == pi as int {
                            assert(false);
                        }
                        assert(post.peer_at(mj, pj) == p2);
                    }
                    assert forall|mj: int, q: Peer|
                        #[trigger] pre.module_peer_with(mj, addr, q) implies post.module_peer_with(
                        mj,
                        addr,
                        spec_apply_update(u, q),
                    ) by {
                        let pj = choose|pj: int|
                            0 <= pj < pre.modules@[mj].peers@.len() && #[trigger] pre.peer_at(
                                mj,
                                pj,
                            ) == q && q.address == addr;
                        assert(mj == mi as int && pj == pi as int);
                        assert(q == q0);
                        assert(post.peer_at(mj, pj) == spec_apply_update(u, q));
                    }
                }
            },
        }
    }


    /// Whether a stream has gone silent: no frame for more than the
    /// timeout before `now_mono`.
    pub open spec fn spec_silent(s: StreamInfo, now_mono: u64, timeout_ms: u64) -> bool {
        s.last_frame_time < now_mono && now_mono - s.last_frame_time > timeout_ms
    }

    /// The id of some silent active stream, if one exists.
    fn find_silent(&self, now_mono: u64, timeout_ms: u64) -> (r: Option<u16>)
        ensures
            match r {
                Some(id) => self.active_has(id) && exists|i: int|
                    0 <= i < self.active_streams@.len() && (
                    #[trigger] self.active_streams@[i]).stream_id == id && Self::spec_silent(
                        self.active_streams@[i],
                        now_mono,
                        timeout_ms,
                    ),
                None => forall|i: int|
                    0 <= i < self.active_streams@.len() ==> !Self::spec_silent(
                        #[trigger] self.active_streams@[i],
                        now_mono,
                        timeout_ms,
                    ),
            },
    {
        let n = self.active_streams.len();
        let mut i: usize = 0;
        while i < n
            invariant
                n == self.active_streams@.len(),
                i <= n,
                forall|j: int|
                    0 <= j < i ==> !Self::spec_silent(
                        #[trigger] self.active_streams@[j],
                        now_mono,
                        timeout_ms,
                    ),
            decreases n - i,
        {
            let s = &self.active_streams[i];
            if s.last_frame_time < now_mono && now_mono - s.last_frame_time > timeout_ms {
                return Some(s.stream_id);
            }
            i = i + 1;
        }
        None
    }

    /// Ends and archives every active stream that has seen no frame for
    /// more than `timeout_ms` before `now_mono`, clearing the unicast
    /// latches that named an ended stream. Every other stream, every other
    /// latch, and every other field of every peer stays as it was.
    #[verifier::rlimit(60)]
    pub fn silence_sweep(&mut self, now_mono: u64, timeout_ms: u64)
        requires
            old(self).wf(),
        ensures
            final(self).wf(),
            final(self).name == old(self).name,
            final(self).start_time == old(self).start_time,
            final(self).user_map == old(self).user_map,
            // peers keep everything but possibly a cleared latch; a
            // surviving latch names no silent stream
            final(self).modules@.len() == old(self).modules@.len(),
            forall|mi: int|
                final(self).valid_mi(mi) ==> (#[trigger] final(self).modules@[mi]).name == old(self).modules@[mi].name && final(self).modules@[mi].stats == old(self).modules@[mi].stats && final(self).modules@[mi].peers@.len() == old(self).modules@[mi].peers@.len(),
            forall|mi: int, pi: int|
                final(self).valid_peer_idx(mi, pi) ==> #[trigger] final(self).peer_at(mi, pi)
                    == old(self).peer_at(mi, pi) || final(self).peer_at(mi, pi) == (Peer {
                    receiving_unicast: None,
                    ..old(self).peer_at(mi, pi)
                }),
            forall|mi: int, pi: int|
                final(self).valid_peer_idx(mi, pi) && (#[trigger] final(self).peer_at(
                    mi,
                    pi,
                )).receiving_unicast is Some ==> final(self).peer_at(mi, pi) == old(self).peer_at(mi, pi) && !(exists|j: int|
                    0 <= j < old(self).active_streams@.len() && (#[trigger] old(self).active_streams@[j]).stream_id == final(self).peer_at(mi, pi).receiving_unicast->Some_0 && Self::spec_silent(
                        old(self).active_streams@[j],
                        now_mono,
                        timeout_ms,
                    )),
            // exactly the non-silent streams remain, unchanged
            forall|i: int|
                0 <= i < final(self).active_streams@.len() ==> stream_from(
                    #[trigger] final(self).active_streams@[i],
                    old(self).active_streams@,
                ),
            forall|j: int|
                0 <= j < old(self).active_streams@.len() && !Self::spec_silent(
                    #[trigger] old(self).active_streams@[j],
                    now_mono,
                    timeout_ms,
                ) ==> stream_from(old(self).active_streams@[j], final(self).active_streams@),
            forall|i: int|
                0 <= i < final(self).active_streams@.len() ==> !Self::spec_silent(
                    #[trigger] final(self).active_streams@[i],
                    now_mono,
                    timeout_ms,
                ),
            // each silent stream is gone and was archived with its end
            // time, unless the bounded recent list turned over
            forall|j: int|
                0 <= j < old(self).active_streams@.len() && Self::spec_silent(
                    #[trigger] old(self).active_streams@[j],
                    now_mono,
                    timeout_ms,
                ) ==> !final(self).active_has(old(self).active_streams@[j].stream_id) && (
                stream_from(
                    StreamInfo { end_time: Some(now_mono), ..old(self).active_streams@[j] },
                    final(self).recent_streams@,
                ) || final(self).recent_streams@.len() == 50),
    {
        proof {
            assert forall|i: int|
                0 <= i < self.active_streams@.len() implies stream_from(
                #[trigger] self.active_streams@[i],
                old(self).active_streams@,
            ) by {
                assert(old(self).active_streams@[i] == self.active_streams@[i]);
            }
            assert forall|j: int|
                0 <= j < old(self).active_streams@.len() implies stream_from(
                (#[trigger] old(self).active_streams@[j]),
                self.active_streams@,
            ) by {
                assert(self.active_streams@[j] == old(self).active_streams@[j]);
            }
        }
        loop
            invariant
                self.wf(),
                old(self).wf(),
                self.name == old(self).name,
                self.start_time == old(self).start_time,
                self.user_map == old(self).user_map,
                self.modules@.len() == old(self).modules@.len(),
                forall|mi: int|
                    self.valid_mi(mi) ==> (#[trigger] self.modules@[mi]).name == old(self).modules@[mi].name && self.modules@[mi].stats == old(self).modules@[mi].stats
                        && self.modules@[mi].peers@.len() == old(self).modules@[mi].peers@.len(),
                forall|mi: int, pi: int|
                    self.valid_peer_idx(mi, pi) ==> #[trigger] self.peer_at(mi, pi) == old(self).peer_at(mi, pi) || self.peer_at(mi, pi) == (Peer {
                        receiving_unicast: None,
                        ..old(self).peer_at(mi, pi)
                    }),
                forall|mi: int, pi: int|
                    self.valid_peer_idx(mi, pi) && (#[trigger] self.peer_at(
                        mi,
                        pi,
                    )).receiving_unicast is Some ==> self.peer_at(mi, pi) == old(self).peer_at(
                        mi,
                        pi,
                    ) && ((exists|j: int|
                        0 <= j < old(self).active_streams@.len() && (#[trigger] old(self).active_streams@[j]).stream_id == self.peer_at(mi, pi).receiving_unicast->Some_0 && Self::spec_silent(
                            old(self).active_streams@[j],
                            now_mono,
                            timeout_ms,
                        )) ==> self.active_has(self.peer_at(mi, pi).receiving_unicast->Some_0)),
                forall|i: int|
                    0 <= i < self.active_streams@.len() ==> stream_from(
                        #[trigger] self.active_streams@[i],
                        old(self).active_streams@,
                    ),
                forall|j: int|
                    0 <= j < old(self).active_streams@.len() && !Self::spec_silent(
                        #[trigger] old(self).active_streams@[j],
                        now_mono,
                        timeout_ms,
                    ) ==> stream_from(old(self).active_streams@[j], self.active_streams@),
                forall|j: int|
                    0 <= j < old(self).active_streams@.len() && Self::spec_silent(
                        #[trigger] old(self).active_streams@[j],
                        now_mono,
                        timeout_ms,
                    ) && !self.active_has(old(self).active_streams@[j].stream_id) ==> (
                    stream_from(
                        StreamInfo { end_time: Some(now_mono), ..old(self).active_streams@[j] },
                        self.recent_streams@,
                    ) || self.recent_streams@.len() == 50),
            decreases self.active_streams@.len(),
        {
            match self.find_silent(now_mono, timeout_ms) {
                None => {
                    proof {
                        // a surviving latch on a silent old stream would
                        // keep that stream active, but none silent remains
                        assert forall|mi: int, pi: int|
                            self.valid_peer_idx(mi, pi) && (#[trigger] self.peer_at(
                                mi,
                                pi,
                            )).receiving_unicast is Some implies !(exists|j: int|
                            0 <= j < old(self).active_streams@.len() && (#[trigger] old(self).active_streams@[j]).stream_id == self.peer_at(mi, pi).receiving_unicast->Some_0 && Self::spec_silent(
                                old(self).active_streams@[j],
                                now_mono,
                                timeout_ms,
                            )) by {
                            let x = self.peer_at(mi, pi).receiving_unicast->Some_0;
                            if exists|j: int|
                                0 <= j < old(self).active_streams@.len() && (#[trigger] old(self).active_streams@[j]).stream_id == x && Self::spec_silent(
                                    old(self).active_streams@[j],
                                    now_mono,
                                    timeout_ms,
                                ) {
                                let j = choose|j: int|
                                    0 <= j < old(self).active_streams@.len() && (#[trigger] old(self).active_streams@[j]).stream_id == x && Self::spec_silent(
                                        old(self).active_streams@[j],
                                        now_mono,
                                        timeout_ms,
                                    );
                                assert(self.active_has(x));
                                let i = choose|i: int|
                                    0 <= i < self.active_streams@.len() && (
                                    #[trigger] self.active_streams@[i]).stream_id == x;
                                let j2 = choose|j2: int|
                                    0 <= j2 < old(self).active_streams@.len()
                                        && #[trigger] old(self).active_streams@[j2]
                                        == self.active_streams@[i];
                                assert(!Self::spec_silent(
                                    self.active_streams@[i],
                                    now_mono,
                                    timeout_ms,
                                ));
                                assert(old(self).active_streams@[j2].stream_id == x);
                                assert(j2 == j) by {
                                    if j2 != j {
                                        assert(old(self).active_streams@[j2].stream_id != old(self).active_streams@[j].stream_id);
                                    }
                                }
                                assert(false);
                            }
                        }
                        // every silent old stream is gone
                        assert forall|j: int|
                            0 <= j < old(self).active_streams@.len() && Self::spec_silent(
                                #[trigger] old(self).active_streams@[j],
                                now_mono,
                                timeout_ms,
                            ) implies !self.active_has(old(self).active_streams@[j].stream_id) by {
                            if self.active_has(old(self).active_streams@[j].stream_id) {
                                let i = choose|i: int|
                                    0 <= i < self.active_streams@.len() && (
                                    #[trigger] self.active_streams@[i]).stream_id == old(self).active_streams@[j].stream_id;
                                let j2 = choose|j2: int|
                                    0 <= j2 < old(self).active_streams@.len()
                                        && #[trigger] old(self).active_streams@[j2]
                                        == self.active_streams@[i];
                                assert(j2 == j) by {
                                    if j2 != j {
                                        assert(old(self).active_streams@[j2].stream_id != old(self).active_streams@[j].stream_id);
                                    }
                                }
                                assert(!Self::spec_silent(
                                    self.active_streams@[i],
                                    now_mono,
                                    timeout_ms,
                                ));
                                assert(false);
                            }
                        }
                    }
                    return ;
                },
                Some(id) => {
                    let ghost old0 = *old(self);
                    let ghost len0 = self.active_streams@.len();
                    let ghost sb = *self;
                    let ghost irw = choose|i: int|
                        0 <= i < sb.active_streams@.len() && (
                        #[trigger] sb.active_streams@[i]).stream_id == id && Self::spec_silent(
                            sb.active_streams@[i],
                            now_mono,
                            timeout_ms,
                        );
                    self.end_stream(id, now_mono);
                    let ghost sm = *self;
                    proof {
                        let ir = choose|i: int|
                            0 <= i < sb.active_streams@.len() && (
                            #[trigger] sb.active_streams@[i]).stream_id == id
                                && sm.active_streams@ =~= sb.active_streams@.remove(i)
                                && sm.recent_streams@ =~= (
                            if sb.recent_streams@.len() < 50 {
                                sb.recent_streams@
                            } else {
                                sb.recent_streams@.subrange(1, sb.recent_streams@.len() as int)
                            }).push(
                                StreamInfo {
                                    end_time: Some(now_mono),
                                    ..sb.active_streams@[i]
                                },
                            );
                        assert(ir == irw) by {
                            if ir != irw {
                                assert(sb.active_streams@[ir].stream_id
                                    != sb.active_streams@[irw].stream_id);
                            }
                        }
                        // each surviving active entry is an sb entry, hence
                        // an original one; every non-silent original entry
                        // survives, the removed one being silent
                        assert forall|i: int|
                            0 <= i < sm.active_streams@.len() implies stream_from(
                            #[trigger] sm.active_streams@[i],
                            old0.active_streams@,
                        ) by {
                            let oi = if i < ir {
                                i
                            } else {
                                i + 1
                            };
                            assert(sm.active_streams@[i] == sb.active_streams@[oi]);
                            assert(stream_from(sb.active_streams@[oi], old0.active_streams@));
                        }
                        assert forall|j: int|
                            0 <= j < old0.active_streams@.len() && !Self::spec_silent(
                                #[trigger] old0.active_streams@[j],
                                now_mono,
                                timeout_ms,
                            ) implies stream_from(
                            old0.active_streams@[j],
                            sm.active_streams@,
                        ) by {
                            assert(stream_from(old0.active_streams@[j], sb.active_streams@));
                            let i = choose|i: int|
                                0 <= i < sb.active_streams@.len() && #[trigger] sb.active_streams@[i]
                                    == old0.active_streams@[j];
                            assert(i != ir);
                            if i < ir {
                                assert(sm.active_streams@[i] == old0.active_streams@[j]);
                            } else {
                                assert(sm.active_streams@[i - 1] == old0.active_streams@[j]);
                            }
                        }
                        // archived claims survive the bounded recent list
                        assert forall|j: int|
                            0 <= j < old0.active_streams@.len() && Self::spec_silent(
                                #[trigger] old0.active_streams@[j],
                                now_mono,
                                timeout_ms,
                            ) && !sm.active_has(old0.active_streams@[j].stream_id) implies (
                        stream_from(
                            StreamInfo { end_time: Some(now_mono), ..old0.active_streams@[j] },
                            sm.recent_streams@,
                        ) || sm.recent_streams@.len() == 50) by {
                            let arch = StreamInfo {
                                end_time: Some(now_mono),
                                ..old0.active_streams@[j]
                            };
                            if sb.active_streams@[ir] == old0.active_streams@[j] {
                                assert(sm.recent_streams@[sm.recent_streams@.len() - 1] == arch);
                                assert(stream_from(arch, sm.recent_streams@));
                            } else {
                                assert(sb.active_has(old0.active_streams@[j].stream_id)
                                    || !sb.active_has(old0.active_streams@[j].stream_id));
                                if sb.active_has(old0.active_streams@[j].stream_id) {
                                    // still active before this step: the
                                    // removed entry would be this one
                                    let i = choose|i: int|
                                        0 <= i < sb.active_streams@.len() && (
                                        #[trigger] sb.active_streams@[i]).stream_id
                                            == old0.active_streams@[j].stream_id;
                                    let oi = if i < ir {
                                        i
                                    } else if i > ir {
                                        i - 1
                                    } else {
                                        i
                                    };
                                    if i != ir {
                                        assert(sm.active_streams@[oi] == sb.active_streams@[i]);
                                        assert(sm.active_has(old0.active_streams@[j].stream_id));
                                        assert(false);
                                    }
                                    let j2 = choose|j2: int|
                                        0 <= j2 < old0.active_streams@.len()
                                            && (#[trigger] sb.active_streams@[ir])
                                            == old0.active_streams@[j2];
                                    assert(old0.active_streams@[j2].stream_id
                                        == old0.active_streams@[j].stream_id);
                                    assert(j2 == j) by {
                                        if j2 != j {
                                            assert(old0.active_streams@[j2].stream_id
                                                != old0.active_streams@[j].stream_id);
                                        }
                                    }
                                    assert(sm.recent_streams@[sm.recent_streams@.len() - 1]
                                        == arch);
                                    assert(stream_from(arch, sm.recent_streams@));
                                } else {
                                    // already archived in an earlier step
                                    if sb.recent_streams@.len() == 50 {
                                        assert(sm.recent_streams@.len() == 50);
                                    } else {
                                        assert(stream_from(arch, sb.recent_streams@)
                                            || sb.recent_streams@.len() == 50);
                                        let ri = choose|ri: int|
                                            0 <= ri < sb.recent_streams@.len()
                                                && #[trigger] sb.recent_streams@[ri] == arch;
                                        assert(sm.recent_streams@[ri] == arch);
                                        assert(stream_from(arch, sm.recent_streams@));
                                    }
                                }
                            }
                        }
                    }
                    self.clear_latches(id);
                    proof {
                        let sc = *self;
                        assert(sc.active_streams == sm.active_streams);
                        assert(sc.recent_streams == sm.recent_streams);
                        lemma_streams_transfer(sm, sc);
                        // peer records: compose the possible clears
                        assert forall|mi: int, pi: int|
                            sc.valid_peer_idx(mi, pi) implies (#[trigger] sc.peer_at(mi, pi)
                            == old0.peer_at(mi, pi) || sc.peer_at(mi, pi) == (Peer {
                            receiving_unicast: None,
                            ..old0.peer_at(mi, pi)
                        })) by {
                            assert(sm.peer_at(mi, pi) == sb.peer_at(mi, pi));
                        }
                        assert forall|mi: int, pi: int|
                            sc.valid_peer_idx(mi, pi) && (#[trigger] sc.peer_at(
                                mi,
                                pi,
                            )).receiving_unicast is Some implies sc.peer_at(mi, pi)
                            == old0.peer_at(mi, pi) && ((exists|j: int|
                            0 <= j < old0.active_streams@.len() && (
                            #[trigger] old0.active_streams@[j]).stream_id == sc.peer_at(mi, pi).receiving_unicast->Some_0 && Self::spec_silent(
                                old0.active_streams@[j],
                                now_mono,
                                timeout_ms,
                            )) ==> sc.active_has(sc.peer_at(mi, pi).receiving_unicast->Some_0)) by {
                            let x = sc.peer_at(mi, pi).receiving_unicast->Some_0;
                            assert(sm.peer_at(mi, pi) == sb.peer_at(mi, pi));
                            assert(sc.peer_at(mi, pi) == sm.peer_at(mi, pi));
                            assert(x != id);
                            assert(sb.peer_at(mi, pi).receiving_unicast == Some(x));
                            assert(sb.peer_at(mi, pi) == old0.peer_at(mi, pi));
                            if exists|j: int|
                                0 <= j < old0.active_streams@.len() && (
                                #[trigger] old0.active_streams@[j]).stream_id == x
                                    && Self::spec_silent(
                                    old0.active_streams@[j],
                                    now_mono,
                                    timeout_ms,
                                ) {
                                assert(sb.active_has(x));
                                let i = choose|i: int|
                                    0 <= i < sb.active_streams@.len() && (
                                    #[trigger] sb.active_streams@[i]).stream_id == x;
                                let ir2 = choose|i: int|
                                    0 <= i < sb.active_streams@.len() && (
                                    #[trigger] sb.active_streams@[i]).stream_id == id
                                        && sm.active_streams@ =~= sb.active_streams@.remove(i);
                                assert(i != ir2);
                                if i < ir2 {
                                    assert(sm.active_streams@[i].stream_id == x);
                                } else {
                                    assert(sm.active_streams@[i - 1].stream_id == x);
                                }
                                assert(sm.active_has(x));
                                assert(sc.active_has(x));
                            }
                        }
                        assert(self.active_streams@.len() < len0);
                    }
                },
            }
        }
    }


    /// Clears every peer's unicast latch that names this stream.
    fn clear_latches(&mut self, stream_id: u16)
        requires
            old(self).wf(),
        ensures
            final(self).wf(),
            final(self).same_but_modules(*old(self)),
            final(self).modules@.len() == old(self).modules@.len(),
            forall|mi: int|
                final(self).valid_mi(mi) ==> (#[trigger] final(self).modules@[mi]).name == old(self).modules@[mi].name && final(self).modules@[mi].stats == old(self).modules@[mi].stats && final(self).modules@[mi].peers@.len() == old(self).modules@[mi].peers@.len(),
            forall|mi: int, pi: int|
                final(self).valid_peer_idx(mi, pi) ==> #[trigger] final(self).peer_at(mi, pi) == (
                if old(self).peer_at(mi, pi).receiving_unicast == Some(stream_id) {
                    Peer { receiving_unicast: None, ..old(self).peer_at(mi, pi) }
                } else {
                    old(self).peer_at(mi, pi)
                }),
    {
        let ghost pre = *self;
        let nm = self.modules.len();
        let mut mi: usize = 0;
        while mi < nm
            invariant
                pre.wf(),
                nm == self.modules@.len(),
                nm == pre.modules@.len(),
                mi <= nm,
                self.same_but_modules(pre),
                forall|m: int|
                    0 <= m < nm ==> (#[trigger] self.modules@[m]).name == pre.modules@[m].name
                        && self.modules@[m].stats == pre.modules@[m].stats
                        && self.modules@[m].peers@.len() == pre.modules@[m].peers@.len(),
                forall|m: int, p: int|
                    mi <= m < nm && 0 <= p < pre.modules@[m].peers@.len() ==> #[trigger] self.peer_at(
                        m,
                        p,
                    ) == pre.peer_at(m, p),
                forall|m: int, p: int|
                    0 <= m < mi && 0 <= p < pre.modules@[m].peers@.len() ==> #[trigger] self.peer_at(
                        m,
                        p,
                    ) == (if pre.peer_at(m, p).receiving_unicast == Some(stream_id) {
                        Peer { receiving_unicast: None, ..pre.peer_at(m, p) }
                    } else {
                        pre.peer_at(m, p)
                    }),
            decreases nm - mi,
        {
            let ghost before_m = *self;
            let mut m = self.modules.remove(mi);
            let ghost m0 = m;
            let np = m.peers.len();
            let mut pi: usize = 0;
            while pi < np
                invariant
                    np == m.peers@.len(),
                    pi <= np,
                    m.name == m0.name,
                    m.stats == m0.stats,
                    forall|p: int| pi <= p < np ==> #[trigger] m.peers@[p] == m0.peers@[p],
                    forall|p: int|
                        0 <= p < pi ==> #[trigger] m.peers@[p] == (
                        if m0.peers@[p].receiving_unicast == Some(stream_id) {
                            Peer { receiving_unicast: None, ..m0.peers@[p] }
                        } else {
                            m0.peers@[p]
                        }),
                decreases np - pi,
            {
                let clear = match m.peers[pi].receiving_unicast {
                    Some(id) => id == stream_id,
                    None => false,
                };
                if clear {
                    let ghost peers0 = m.peers@;
                    let mut p = m.peers.remove(pi);
                    p.receiving_unicast = None;
                    m.peers.insert(pi, p);
                    proof {
                        assert(m.peers@ =~= peers0.update(
                            pi as int,
                            Peer { receiving_unicast: None, ..m0.peers@[pi as int] },
                        ));
                    }
                }
                pi = pi + 1;
            }
            self.modules.insert(mi, m);
            proof {
                let post = *self;
                assert(post.modules@ =~= before_m.modules@.update(mi as int, m));
                assert forall|mm: int, p: int|
                    0 <= mm < nm && 0 <= p < pre.modules@[mm].peers@.len() && mm != mi as int implies #[trigger] post.peer_at(
                    mm,
                    p,
                ) == before_m.peer_at(mm, p) by {
                    assert(post.modules@[mm] == before_m.modules@[mm]);
                }
                assert forall|p: int|
                    0 <= p < np implies #[trigger] post.peer_at(mi as int, p) == (
                if pre.peer_at(mi as int, p).receiving_unicast == Some(stream_id) {
                    Peer { receiving_unicast: None, ..pre.peer_at(mi as int, p) }
                } else {
                    pre.peer_at(mi as int, p)
                }) by {
                    assert(post.peer_at(mi as int, p) == m.peers@[p]);
                    assert(m0.peers@[p] == before_m.peer_at(mi as int, p));
                    assert(before_m.peer_at(mi as int, p) == pre.peer_at(mi as int, p));
                }
            }
            mi = mi + 1;
        }
        proof {
            assert(self.addr_unique()) by {
                assert forall|m1: int, p1: int, m2: int, p2: int|
                    self.valid_peer_idx(m1, p1) && self.valid_peer_idx(m2, p2) && (m1 != m2 || p1
                        != p2) implies (#[trigger] self.peer_at(m1, p1)).address != (
                #[trigger] self.peer_at(m2, p2)).address by {
                    assert(self.peer_at(m1, p1).address == pre.peer_at(m1, p1).address);
                    assert(self.peer_at(m2, p2).address == pre.peer_at(m2, p2).address);
                }
            }
        }
    }

    /// The addresses of every attached peer, for the keepalive ping.
    pub fn all_peer_addrs(&self) -> (r: Vec<u64>)
        requires
            self.wf(),
        ensures
            forall|a: u64| #[trigger] r@.contains(a) <==> self.has_peer(a),
    {
        let mut r: Vec<u64> = Vec::new();
        let nm = self.modules.len();
        let mut mi: usize = 0;
        while mi < nm
            invariant
                self.wf(),
                nm == self.modules@.len(),
                mi <= nm,
                forall|j: int|
                    0 <= j < r@.len() ==> self.has_peer(#[trigger] r@[j]),
                forall|m: int, p: int|
                    0 <= m < mi && 0 <= p < self.modules@[m].peers@.len() ==> r@.contains(
                        (#[trigger] self.peer_at(m, p)).address,
                    ),
            decreases nm - mi,
        {
            let m = &self.modules[mi];
            let np = m.peers.len();
            let mut pi: usize = 0;
            while pi < np
                invariant
                    self.wf(),
                    m == self.modules@[mi as int],
                    mi < self.modules@.len(),
                    np == m.peers@.len(),
                    pi <= np,
                    forall|j: int|
                        0 <= j < r@.len() ==> self.has_peer(#[trigger] r@[j]),
                    forall|mm: int, p: int|
                        0 <= mm < mi && 0 <= p < self.modules@[mm].peers@.len() ==> r@.contains(
                            (#[trigger] self.peer_at(mm, p)).address,
                        ),
                    forall|p: int|
                        0 <= p < pi ==> r@.contains(
                            (#[trigger] self.peer_at(mi as int, p)).address,
                        ),
                decreases np - pi,
            {
                let ghost r0 = r@;
                r.push(m.peers[pi].address);
                proof {
                    assert(self.peer_at(mi as int, pi as int).address == r@[r@.len() - 1]);
                    assert(self.valid_peer_idx(mi as int, pi as int));
                    assert forall|j: int| 0 <= j < r@.len() implies self.has_peer(
                        #[trigger] r@[j],
                    ) by {
                        if j < r0.len() {
                            assert(r@[j] == r0[j]);
                        }
                    }
                    assert forall|mm: int, p: int|
                        0 <= mm < mi && 0 <= p < self.modules@[mm].peers@.len() implies r@.contains(
                        (#[trigger] self.peer_at(mm, p)).address,
                    ) by {
                        let w = choose|w: int|
                            0 <= w < r0.len() && r0[w] == self.peer_at(mm, p).address;
                        assert(r@[w] == self.peer_at(mm, p).address);
                    }
                    assert forall|p: int|
                        0 <= p < pi + 1 implies r@.contains(
                        (#[trigger] self.peer_at(mi as int, p)).address,
                    ) by {
                        if p < pi {
                            let w = choose|w: int|
                                0 <= w < r0.len() && r0[w] == self.peer_at(mi as int, p).address;
                            assert(r@[w] == self.peer_at(mi as int, p).address);
                        } else {
                            assert(r@[r@.len() - 1] == self.peer_at(mi as int, p).address);
                        }
                    }
                }
                pi = pi + 1;
            }
            mi = mi + 1;
        }
        proof {
            assert forall|a: u64| #[trigger] r@.contains(a) implies self.has_peer(a) by {
                let j = choose|j: int| 0 <= j < r@.len() && r@[j] == a;
            }
            assert forall|a: u64| self.has_peer(a) implies r@.contains(a) by {
                let (m, p) = choose|m: int, p: int|
                    self.valid_peer_idx(m, p) && (#[trigger] self.peer_at(m, p)).address == a;
            }
        }
        r
    }

    /// A peer is stale when its liveness stamp is older than the timeout.
    pub open spec fn spec_stale(p: Peer, now_mono: u64, timeout_ms: u64) -> bool {
        p.last_seen < now_mono && now_mono - p.last_seen > timeout_ms
    }

    /// The peer at this address is stale.
    pub open spec fn stale_at(self, a: u64, now_mono: u64, timeout_ms: u64) -> bool {
        exists|p: Peer|
            #[trigger] self.peer_with(a, p) && Self::spec_stale(p, now_mono, timeout_ms)
    }

    /// The addresses of every stale peer: the keepalive sweep sends each a
    /// disconnect and then removes it.
    pub fn stale_peers(&self, now_mono: u64, timeout_ms: u64) -> (r: Vec<u64>)
        requires
            self.wf(),
        ensures
            forall|a: u64|
                #[trigger] r@.contains(a) <==> self.stale_at(a, now_mono, timeout_ms),
    {
        let mut r: Vec<u64> = Vec::new();
        let nm = self.modules.len();
        let mut mi: usize = 0;
        while mi < nm
            invariant
                self.wf(),
                nm == self.modules@.len(),
                mi <= nm,
                forall|j: int| 0 <= j < r@.len() ==> self.stale_at(#[trigger] r@[j], now_mono, timeout_ms),
                forall|m: int, p: int|
                    0 <= m < mi && 0 <= p < self.modules@[m].peers@.len() && Self::spec_stale(
                        #[trigger] self.peer_at(m, p),
                        now_mono,
                        timeout_ms,
                    ) ==> r@.contains(self.peer_at(m, p).address),
            decreases nm - mi,
        {
            let m = &self.modules[mi];
            let np = m.peers.len();
            let mut pi: usize = 0;
            while pi < np
                invariant
                    self.wf(),
                    m == self.modules@[mi as int],
                    mi < self.modules@.len(),
                    np == m.peers@.len(),
                    pi <= np,
                    forall|j: int| 0 <= j < r@.len() ==> self.stale_at(#[trigger] r@[j], now_mono, timeout_ms),
                    forall|mm: int, p: int|
                        0 <= mm < mi && 0 <= p < self.modules@[mm].peers@.len()
                            && Self::spec_stale(
                            #[trigger] self.peer_at(mm, p),
                            now_mono,
                            timeout_ms,
                        ) ==> r@.contains(self.peer_at(mm, p).address),
                    forall|p: int|
                        0 <= p < pi && Self::spec_stale(
                            #[trigger] self.peer_at(mi as int, p),
                            now_mono,
                            timeout_ms,
                        ) ==> r@.contains(self.peer_at(mi as int, p).address),
                decreases np - pi,
            {
                let p = &m.peers[pi];
                if p.last_seen < now_mono && now_mono - p.last_seen > timeout_ms {
                    let ghost r0 = r@;
                    r.push(p.address);
                    proof {
                        assert(self.peer_at(mi as int, pi as int) == *p);
                        assert(self.valid_peer_idx(mi as int, pi as int));
                        assert(self.peer_with(p.address, *p));
                        assert(Self::spec_stale(*p, now_mono, timeout_ms));
                        assert forall|j: int|
                            0 <= j < r@.len() implies self.stale_at(
                            #[trigger] r@[j],
                            now_mono,
                            timeout_ms,
                        ) by {
                            if j < r0.len() {
                                assert(r@[j] == r0[j]);
                            } else {
                                assert(r@[j] == p.address);
                                assert(self.peer_with(r@[j], *p) && Self::spec_stale(
                                    *p,
                                    now_mono,
                                    timeout_ms,
                                ));
                            }
                        }
                        assert forall|mm: int, pp: int|
                            0 <= mm < mi && 0 <= pp < self.modules@[mm].peers@.len()
                                && Self::spec_stale(
                                #[trigger] self.peer_at(mm, pp),
                                now_mono,
                                timeout_ms,
                            ) implies r@.contains(self.peer_at(mm, pp).address) by {
                            let w = choose|w: int|
                                0 <= w < r0.len() && r0[w] == self.peer_at(mm, pp).address;
                            assert(r@[w] == self.peer_at(mm, pp).address);
                        }
                        assert forall|pp: int|
                            0 <= pp < pi + 1 && Self::spec_stale(
                                #[trigger] self.peer_at(mi as int, pp),
                                now_mono,
                                timeout_ms,
                            ) implies r@.contains(self.peer_at(mi as int, pp).address) by {
                            if pp < pi {
                                let w = choose|w: int|
                                    0 <= w < r0.len() && r0[w] == self.peer_at(
                                        mi as int,
                                        pp,
                                    ).address;
                                assert(r@[w] == self.peer_at(mi as int, pp).address);
                            } else {
                                assert(r@[r@.len() - 1] == self.peer_at(mi as int, pp).address);
                            }
                        }
                    }
                }
                pi = pi + 1;
            }
            mi = mi + 1;
        }
        proof {
            assert forall|a: u64| #[trigger] r@.contains(a) implies self.stale_at(
                a,
                now_mono,
                timeout_ms,
            ) by {
                let j = choose|j: int| 0 <= j < r@.len() && r@[j] == a;
            }
            assert forall|a: u64| self.stale_at(a, now_mono, timeout_ms) implies r@.contains(
                a,
            ) by {
                let p = choose|p: Peer|
                    #[trigger] self.peer_with(a, p) && Self::spec_stale(p, now_mono, timeout_ms);
                let (m, pp) = choose|m: int, pp: int|
                    self.valid_peer_idx(m, pp) && #[trigger] self.peer_at(m, pp) == p && p.address
                        == a;
                assert(self.modules@[m].peers@.len() > pp);
                assert(Self::spec_stale(self.peer_at(m, pp), now_mono, timeout_ms));
                assert(r@.contains(self.peer_at(m, pp).address));
            }
        }
        r
    }

    /// Index of the user-map entry keyed by this base callsign.
    fn user_idx(&self, base: &String) -> (r: Option<usize>)
        ensures
            match r {
                Some(i) => i < self.user_map@.len() && self.user_map@[i as int].base@ == base@,
                None => forall|j: int|
                    0 <= j < self.user_map@.len() ==> (#[trigger] self.user_map@[j]).base@
                        != base@,
            },
    {
        let n = self.user_map.len();
        let mut i: usize = 0;
        while i < n
            invariant
                n == self.user_map@.len(),
                i <= n,
                forall|j: int| 0 <= j < i ==> (#[trigger] self.user_map@[j]).base@ != base@,
            decreases n - i,
        {
            if self.user_map[i].base == *base {
                return Some(i);
            }
            i = i + 1;
        }
        None
    }

    /// Records that `addr` transmitted under this callsign: inserts the
    /// address into the set keyed by the base callsign.
    pub fn record_user(&mut self, callsign: &str, addr: u64)
        requires
            old(self).wf(),
        ensures
            final(self).wf(),
            final(self).same_but_user_map(*old(self)),
            forall|b: Seq<char>, a: u64|
                #![trigger final(self).user_has_addr(b, a)]
                #![trigger old(self).user_has_addr(b, a)]
                final(self).user_has_addr(b, a) <==> (old(self).user_has_addr(b, a) || (b
                    == spec_base_callsign(callsign@) && a == addr)),
            forall|b: Seq<char>|
                #![trigger final(self).has_user(b)]
                #![trigger old(self).has_user(b)]
                final(self).has_user(b) <==> (old(self).has_user(b) || b == spec_base_callsign(
                    callsign@,
                )),
    {
        let base = base_callsign(callsign);
        let ghost b0 = spec_base_callsign(callsign@);
        let ghost oldmap = self.user_map@;
        match self.user_idx(&base) {
            Some(i) => {
                let ghost olde = self.user_map@[i as int];
                let mut e = self.user_map.remove(i);
                let m = e.addrs.len();
                let mut k: usize = 0;
                let mut present = false;
                while k < m
                    invariant
                        m == e.addrs@.len(),
                        k <= m,
                        e == olde,
                        present <==> exists|l: int| 0 <= l < k && e.addrs@[l] == addr,
                    decreases m - k,
                {
                    if e.addrs[k] == addr {
                        present = true;
                    }
                    k = k + 1;
                }
                if !present {
                    e.addrs.push(addr);
                }
                let ghost newe = e;
                self.user_map.insert(i, e);
                proof {
                    let post = *self;
                    assert(post.user_map@ =~= oldmap.update(i as int, newe)) by {
                        assert(post.user_map@.len() == oldmap.len());
                    }
                    assert(newe.base == olde.base);
                    assert(present ==> newe == olde);
                    assert(!present ==> newe.addrs@ =~= olde.addrs@.push(addr));
                    lemma_registry_transfer(*old(self), post);
                    assert forall|j: int|
                        0 <= j < post.user_map@.len() implies (
                    #[trigger] post.user_map@[j]).base@ == oldmap[j].base@ by {}
                    assert forall|j: int, k2: int, l: int|
                        0 <= j < post.user_map@.len() && 0 <= k2 < l
                            < post.user_map@[j].addrs@.len() implies (
                    #[trigger] post.user_map@[j].addrs@[k2]) != (
                    #[trigger] post.user_map@[j].addrs@[l]) by {
                        if j == i as int && !present {
                            let na = post.user_map@[j].addrs@;
                            assert(na =~= olde.addrs@.push(addr));
                            if l == na.len() - 1 {
                                assert(na[k2] == olde.addrs@[k2]);
                                assert(olde.addrs@[k2] != addr);
                            } else {
                                assert(na[k2] == olde.addrs@[k2] && na[l] == olde.addrs@[l]);
                            }
                        }
                    }
                    assert forall|b: Seq<char>, a: u64|
                        #![trigger post.user_has_addr(b, a)]
                        post.user_has_addr(b, a) <==> (seq_user_has(oldmap, b, a) || (b == b0 && a
                            == addr)) by {
                        if post.user_has_addr(b, a) {
                            let j = choose|j: int|
                                0 <= j < post.user_map@.len() && (
                                #[trigger] post.user_map@[j]).base@ == b && entry_has(
                                    post.user_map@[j],
                                    a,
                                );
                            if j != i as int {
                                assert(seq_user_has(oldmap, b, a));
                            } else {
                                if !(b == b0 && a == addr) {
                                    let l = choose|l: int|
                                        0 <= l < post.user_map@[j].addrs@.len()
                                            && post.user_map@[j].addrs@[l] == a;
                                    assert(olde.addrs@[l] == a);
                                    assert(entry_has(olde, a));
                                    assert(seq_user_has(oldmap, b, a));
                                }
                            }
                        }
                        if seq_user_has(oldmap, b, a) {
                            let j = choose|j: int|
                                0 <= j < oldmap.len() && (#[trigger] oldmap[j]).base@ == b
                                    && entry_has(oldmap[j], a);
                            if j != i as int {
                                assert(post.user_map@[j] == oldmap[j]);
                                assert(post.user_has_addr(b, a));
                            } else {
                                let l = choose|l: int|
                                    0 <= l < olde.addrs@.len() && olde.addrs@[l] == a;
                                assert(post.user_map@[i as int].addrs@[l] == a);
                                assert(post.user_has_addr(b, a));
                            }
                        }
                        if b == b0 && a == addr {
                            if present {
                                let l = choose|l: int|
                                    0 <= l < olde.addrs@.len() && olde.addrs@[l] == addr;
                                assert(post.user_map@[i as int].addrs@[l] == addr);
                            } else {
                                let e2 = post.user_map@[i as int];
                                assert(e2.addrs@[e2.addrs@.len() - 1] == addr);
                            }
                            assert(post.user_has_addr(b, a));
                        }
                    }
                    assert forall|b: Seq<char>|
                        #![trigger post.has_user(b)]
                        post.has_user(b) <==> (seq_has_user(oldmap, b) || b == b0) by {
                        if post.has_user(b) {
                            let j = choose|j: int|
                                0 <= j < post.user_map@.len() && (
                                #[trigger] post.user_map@[j]).base@ == b;
                            assert(oldmap[j].base@ == b);
                        }
                        if seq_has_user(oldmap, b) {
                            let j = choose|j: int|
                                0 <= j < oldmap.len() && (#[trigger] oldmap[j]).base@ == b;
                            assert(post.user_map@[j].base@ == b);
                        }
                        if b == b0 {
                            assert(post.user_map@[i as int].base@ == b);
                        }
                    }
                }
            },
            None => {
                let mut addrs: Vec<u64> = Vec::new();
                addrs.push(addr);
                let entry = UserEntry { base, addrs };
                self.user_map.push(entry);
                proof {
                    let post = *self;
                    lemma_registry_transfer(*old(self), post);
                    let newlen = post.user_map@.len() as int;
                    assert(post.user_map@[newlen - 1].base@ == b0);
                    assert(post.user_map@[newlen - 1].addrs@[0] == addr);
                    assert(post.user_map@[newlen - 1].addrs@.len() == 1);
                    assert forall|j1: int, j2: int|
                        0 <= j1 < j2 < post.user_map@.len() implies (
                    #[trigger] post.user_map@[j1]).base@ != (#[trigger] post.user_map@[j2]).base@ by {
                        if j2 == newlen - 1 {
                            assert(oldmap[j1].base@ != b0);
                        }
                    }
                    assert forall|j: int, k: int, l: int|
                        0 <= j < post.user_map@.len() && 0 <= k < l
                            < post.user_map@[j].addrs@.len() implies (
                    #[trigger] post.user_map@[j].addrs@[k]) != (
                    #[trigger] post.user_map@[j].addrs@[l]) by {
                        if j < newlen - 1 {
                            assert(post.user_map@[j] == oldmap[j]);
                        }
                    }
                    assert forall|b: Seq<char>, a: u64|
                        #![trigger post.user_has_addr(b, a)]
                        post.user_has_addr(b, a) <==> (seq_user_has(oldmap, b, a) || (b == b0 && a
                            == addr)) by {
                        if post.user_has_addr(b, a) {
                            let j = choose|j: int|
                                0 <= j < post.user_map@.len() && (
                                #[trigger] post.user_map@[j]).base@ == b && entry_has(
                                    post.user_map@[j],
                                    a,
                                );
                            if j < newlen - 1 {
                                assert(seq_user_has(oldmap, b, a));
                            } else {
                                let l = choose|l: int|
                                    0 <= l < post.user_map@[j].addrs@.len()
                                        && post.user_map@[j].addrs@[l] == a;
                                assert(a == addr && b == b0);
                            }
                        }
                        if seq_user_has(oldmap, b, a) {
                            let j = choose|j: int|
                                0 <= j < oldmap.len() && (#[trigger] oldmap[j]).base@ == b
                                    && entry_has(oldmap[j], a);
                            assert(post.user_map@[j] == oldmap[j]);
                            assert(post.user_has_addr(b, a));
                        }
                        if b == b0 && a == addr {
                            assert(entry_has(post.user_map@[newlen - 1], addr));
                            assert(post.user_has_addr(b, a));
                        }
                    }
                    assert forall|b: Seq<char>|
                        #![trigger post.has_user(b)]
                        post.has_user(b) <==> (seq_has_user(oldmap, b) || b == b0) by {
                        if post.has_user(b) {
                            let j = choose|j: int|
                                0 <= j < post.user_map@.len() && (
                                #[trigger] post.user_map@[j]).base@ == b;
                            if j < newlen - 1 {
                                assert(oldmap[j].base@ == b);
                            }
                        }
                        if seq_has_user(oldmap, b) {
                            let j = choose|j: int|
                                0 <= j < oldmap.len() && (#[trigger] oldmap[j]).base@ == b;
                            assert(post.user_map@[j].base@ == b);
                        }
                    }
                }
            },
        }
    }

    /// The addresses recorded under the base form of this callsign, or an
    /// empty list when none are known.
    pub fn find_user_peers(&self, callsign: &str) -> (r: Vec<u64>)
        requires
            self.wf(),
        ensures
            forall|a: u64|
                #[trigger] r@.contains(a) <==> self.user_has_addr(
                    spec_base_callsign(callsign@),
                    a,
                ),
            forall|k: int, l: int| 0 <= k < l < r@.len() ==> r@[k] != r@[l],
    {
        let base = base_callsign(callsign);
        let ghost b0 = spec_base_callsign(callsign@);
        let n = self.user_map.len();
        let mut i: usize = 0;
        while i < n
            invariant
                self.wf(),
                n == self.user_map@.len(),
                i <= n,
                base@ == b0,
                b0 == spec_base_callsign(callsign@),
                forall|j: int| 0 <= j < i ==> (#[trigger] self.user_map@[j]).base@ != b0,
            decreases n - i,
        {
            if self.user_map[i].base == base {
                let e = &self.user_map[i];
                let m = e.addrs.len();
                let mut r: Vec<u64> = Vec::new();
                let mut k: usize = 0;
                while k < m
                    invariant
                        m == e.addrs@.len(),
                        k <= m,
                        r@ =~= e.addrs@.subrange(0, k as int),
                    decreases m - k,
                {
                    r.push(e.addrs[k]);
                    proof {
                        assert(r@ =~= e.addrs@.subrange(0, k as int + 1));
                    }
                    k = k + 1;
                }
                proof {
                    assert(r@ =~= e.addrs@);
                    assert forall|a: u64| #[trigger] r@.contains(a) <==> self.user_has_addr(
                        b0,
                        a,
                    ) by {
                        if r@.contains(a) {
                            let l = choose|l: int| 0 <= l < r@.len() && r@[l] == a;
                            assert(self.user_map@[i as int].addrs@[l] == a);
                            assert(self.user_has_addr(b0, a));
                        }
                        if self.user_has_addr(b0, a) {
                            let j = choose|j: int|
                                0 <= j < self.user_map@.len() && (
                                #[trigger] self.user_map@[j]).base@ == b0 && entry_has(
                                    self.user_map@[j],
                                    a,
                                );
                            assert(j == i as int);
                            let l = choose|l: int|
                                0 <= l < e.addrs@.len() && e.addrs@[l] == a;
                            assert(r@[l] == a);
                        }
                    }
                }
                return r;
            }
            i = i + 1;
        }
        let r: Vec<u64> = Vec::new();
        proof {
            assert forall|a: u64| !(#[trigger] self.user_has_addr(b0, a)) by {
                if self.user_has_addr(b0, a) {
                    let j = choose|j: int|
                        0 <= j < self.user_map@.len() && (#[trigger] self.user_map@[j]).base@ == b0
                            && entry_has(self.user_map@[j], a);
                }
            }
        }
        r
    }

    /// The peer attached at this address, if any.
    pub fn find_peer(&self, addr: u64) -> (r: Option<&Peer>)
        ensures
            match r {
                Some(p) => self.peer_with(addr, *p),
                None => !self.has_peer(addr),
            },
    {
        match self.locate_peer(addr) {
            Some((mi, pi)) => Some(&self.modules[mi].peers[pi]),
            None => None,
        }
    }
}

/// Removes one address from an entry's address set.
fn purge_addr_entry(e: &mut UserEntry, addr: u64)
    requires
        forall|k: int, l: int|
            0 <= k < l < old(e).addrs@.len() ==> (#[trigger] old(e).addrs@[k]) != (
            #[trigger] old(e).addrs@[l]),
    ensures
        final(e).base == old(e).base,
        forall|k: int, l: int|
            0 <= k < l < final(e).addrs@.len() ==> (#[trigger] final(e).addrs@[k]) != (
            #[trigger] final(e).addrs@[l]),
        !entry_has(*final(e), addr),
        forall|a: u64| a != addr ==> (entry_has(*final(e), a) <==> entry_has(*old(e), a)),
        final(e).addrs@.len() > 0 <==> exists|a: u64| a != addr && entry_has(*old(e), a),
{
    let m = e.addrs.len();
    let mut k: usize = 0;
    let mut hit: Option<usize> = None;
    while k < m
        invariant
            *e == *old(e),
            m == e.addrs@.len(),
            k <= m,
            match hit {
                Some(h) => h < m && e.addrs@[h as int] == addr,
                None => forall|l: int| 0 <= l < k ==> e.addrs@[l] != addr,
            },
        decreases m - k,
    {
        if e.addrs[k] == addr {
            hit = Some(k);
        }
        k = k + 1;
    }
    match hit {
        None => {
            proof {
                assert(!entry_has(*e, addr)) by {
                    if entry_has(*e, addr) {
                        let l = choose|l: int| 0 <= l < e.addrs@.len() && e.addrs@[l] == addr;
                        assert(e.addrs@[l] != addr);
                    }
                }
                if e.addrs@.len() > 0 {
                    let a0 = e.addrs@[0];
                    assert(a0 != addr);
                    assert(entry_has(*old(e), a0));
                }
                if exists|a: u64| a != addr && entry_has(*old(e), a) {
                    assert(e.addrs@.len() > 0);
                }
            }
        },
        Some(h) => {
            let ghost prea = e.addrs@;
            e.addrs.remove(h);
            proof {
                assert forall|l: int|
                    0 <= l < e.addrs@.len() implies #[trigger] e.addrs@[l] == (if l < h as int {
                    prea[l]
                } else {
                    prea[l + 1]
                }) by {}
                assert(!entry_has(*e, addr)) by {
                    if entry_has(*e, addr) {
                        let l = choose|l: int| 0 <= l < e.addrs@.len() && e.addrs@[l] == addr;
                        let ol = if l < h as int {
                            l
                        } else {
                            l + 1
                        };
                        assert(prea[ol] == addr && prea[h as int] == addr && ol != h as int);
                    }
                }
                assert forall|a: u64| a != addr implies (entry_has(*e, a) <==> exists|l: int|
                    0 <= l < prea.len() && prea[l] == a) by {
                    if entry_has(*e, a) {
                        let l = choose|l: int| 0 <= l < e.addrs@.len() && e.addrs@[l] == a;
                        let ol = if l < h as int {
                            l
                        } else {
                            l + 1
                        };
                        assert(prea[ol] == a);
                    }
                    if exists|l: int| 0 <= l < prea.len() && prea[l] == a {
                        let l = choose|l: int| 0 <= l < prea.len() && prea[l] == a;
                        assert(l != h as int);
                        if l < h as int {
                            assert(e.addrs@[l] == a);
                        } else {
                            assert(e.addrs@[l - 1] == a);
                        }
                    }
                }
                if e.addrs@.len() > 0 {
                    let a0 = e.addrs@[0];
                    assert(a0 != addr);
                    assert(exists|l: int| 0 <= l < prea.len() && prea[l] == a0);
                    assert(entry_has(*old(e), a0));
                }
                if exists|a: u64| a != addr && entry_has(*old(e), a) {
                    let a = choose|a: u64| a != addr && entry_has(*old(e), a);
                    assert(entry_has(*e, a));
                    assert(e.addrs@.len() > 0);
                }
            }
        },
    }
}

/// The user-index pair characterization after a purge of `addr` followed by
/// pruning of emptied entries: `pre` is the index before, `um` after the
/// in-place purge, `pst` after the prune.
proof fn lemma_purge_prune(pre: Seq<UserEntry>, um: Seq<UserEntry>, pst: Seq<UserEntry>, addr: u64)
    requires
        um.len() == pre.len(),
        forall|j: int| 0 <= j < um.len() ==> (#[trigger] um[j]).base == pre[j].base,
        forall|j: int| 0 <= j < um.len() ==> !entry_has(#[trigger] um[j], addr),
        forall|j: int|
            0 <= j < um.len() ==> ((#[trigger] um[j]).addrs@.len() > 0 <==> exists|a: u64|
                a != addr && entry_has(pre[j], a)),
        forall|j: int, a: u64|
            0 <= j < um.len() && a != addr ==> ((#[trigger] entry_has(um[j], a)) <==> entry_has(
                pre[j],
                a,
            )),
        forall|j: int| 0 <= j < pst.len() ==> (#[trigger] pst[j]).addrs@.len() > 0,
        entries_from(pst, um),
        nonempty_entries_kept(um, pst),
        forall|j1: int, j2: int|
            0 <= j1 < j2 < pre.len() ==> (#[trigger] pre[j1]).base@ != (#[trigger] pre[j2]).base@,
        forall|j1: int, j2: int|
            0 <= j1 < j2 < pst.len() ==> (#[trigger] pst[j1]).base@ != (#[trigger] pst[j2]).base@,
    ensures
        forall|b: Seq<char>, a: u64|
            #![trigger seq_user_has(pst, b, a)]
            #![trigger seq_user_has(pre, b, a)]
            seq_user_has(pst, b, a) <==> (seq_user_has(pre, b, a) && a != addr),
        forall|b: Seq<char>|
            #![trigger seq_has_user(pst, b)]
            seq_has_user(pst, b) <==> exists|a: u64|
                a != addr && #[trigger] seq_user_has(pre, b, a),
        forall|j: int| 0 <= j < pst.len() ==> !entry_has(#[trigger] pst[j], addr),
{
    assert forall|j: int| 0 <= j < pst.len() implies !entry_has(#[trigger] pst[j], addr) by {
        let j2 = choose|j2: int| 0 <= j2 < um.len() && #[trigger] um[j2] == pst[j];
    }
    assert forall|b: Seq<char>, a: u64|
        #![trigger seq_user_has(pst, b, a)]
        #![trigger seq_user_has(pre, b, a)]
        seq_user_has(pst, b, a) <==> (seq_user_has(pre, b, a) && a != addr) by {
        if seq_user_has(pst, b, a) {
            let j = choose|j: int|
                0 <= j < pst.len() && (#[trigger] pst[j]).base@ == b && entry_has(pst[j], a);
            let w = choose|w: int| 0 <= w < um.len() && #[trigger] um[w] == pst[j];
            assert(entry_has(um[w], a));
            assert(a != addr);
            assert(entry_has(pre[w], a));
            assert(pre[w].base@ == b);
            assert(seq_user_has(pre, b, a));
        }
        if seq_user_has(pre, b, a) && a != addr {
            let w = choose|w: int|
                0 <= w < pre.len() && (#[trigger] pre[w]).base@ == b && entry_has(pre[w], a);
            assert(entry_has(um[w], a));
            assert(um[w].addrs@.len() > 0);
            assert(entry_from(um[w], pst));
            let j = choose|j: int| 0 <= j < pst.len() && #[trigger] pst[j] == um[w];
            assert(pst[j].base@ == b && entry_has(pst[j], a));
        }
    }
    assert forall|b: Seq<char>|
        #![trigger seq_has_user(pst, b)]
        seq_has_user(pst, b) <==> exists|a: u64|
            a != addr && #[trigger] seq_user_has(pre, b, a) by {
        if seq_has_user(pst, b) {
            let j = choose|j: int| 0 <= j < pst.len() && (#[trigger] pst[j]).base@ == b;
            let w = choose|w: int| 0 <= w < um.len() && #[trigger] um[w] == pst[j];
            assert(um[w].addrs@.len() > 0);
            let a = choose|a: u64| a != addr && entry_has(pre[w], a);
            assert(pre[w].base@ == b);
            assert(seq_user_has(pre, b, a));
        }
        if exists|a: u64| a != addr && #[trigger] seq_user_has(pre, b, a) {
            let a = choose|a: u64| a != addr && #[trigger] seq_user_has(pre, b, a);
            let w = choose|w: int|
                0 <= w < pre.len() && (#[trigger] pre[w]).base@ == b && entry_has(pre[w], a);
            assert(entry_has(um[w], a));
            assert(um[w].addrs@.len() > 0);
            assert(entry_from(um[w], pst));
            let j = choose|j: int| 0 <= j < pst.len() && #[trigger] pst[j] == um[w];
            assert(pst[j].base@ == b);
        }
    }
}

/// User-index facts carry over between registries with equal user indexes.
pub proof fn lemma_user_transfer(a: Reflector, b: Reflector)
    requires
        a.user_map == b.user_map,
    ensures
        forall|bb: Seq<char>, aa: u64|
            #![trigger a.user_has_addr(bb, aa)]
            #![trigger b.user_has_addr(bb, aa)]
            a.user_has_addr(bb, aa) == b.user_has_addr(bb, aa),
        forall|bb: Seq<char>|
            #![trigger a.has_user(bb)]
            #![trigger b.has_user(bb)]
            a.has_user(bb) == b.has_user(bb),
{
}

/// Stream-list facts carry over between registries with equal stream lists.
pub proof fn lemma_streams_transfer(a: Reflector, b: Reflector)
    requires
        a.active_streams == b.active_streams,
    ensures
        forall|id: u16| #![trigger a.active_has(id)] #![trigger b.active_has(id)] a.active_has(id)
            == b.active_has(id),
        forall|c: char|
            #![trigger a.has_broadcast_on(c)]
            #![trigger b.has_broadcast_on(c)]
            a.has_broadcast_on(c) == b.has_broadcast_on(c),
{
    assert forall|id: u16|
        #![trigger a.active_has(id)]
        #![trigger b.active_has(id)]
        a.active_has(id) == b.active_has(id) by {
        if a.active_has(id) {
            let i = choose|i: int|
                0 <= i < a.active_streams@.len() && (#[trigger] a.active_streams@[i]).stream_id
                    == id;
            assert(b.active_streams@[i].stream_id == id);
        }
        if b.active_has(id) {
            let i = choose|i: int|
                0 <= i < b.active_streams@.len() && (#[trigger] b.active_streams@[i]).stream_id
                    == id;
            assert(a.active_streams@[i].stream_id == id);
        }
    }
    assert forall|c: char|
        #![trigger a.has_broadcast_on(c)]
        #![trigger b.has_broadcast_on(c)]
        a.has_broadcast_on(c) == b.has_broadcast_on(c) by {
        if a.has_broadcast_on(c) {
            let i = choose|i: int|
                0 <= i < a.active_streams@.len() && (#[trigger] a.active_streams@[i]).module == c
                    && a.active_streams@[i].is_broadcast;
            assert(b.active_streams@[i].module == c && b.active_streams@[i].is_broadcast);
        }
        if b.has_broadcast_on(c) {
            let i = choose|i: int|
                0 <= i < b.active_streams@.len() && (#[trigger] b.active_streams@[i]).module == c
                    && b.active_streams@[i].is_broadcast;
            assert(a.active_streams@[i].module == c && a.active_streams@[i].is_broadcast);
        }
    }
}

/// Peer-membership facts carry over when every module keeps its peers.
pub proof fn lemma_peers_preserved(a: Reflector, b: Reflector)
    requires
        b.modules@.len() == a.modules@.len(),
        forall|mi: int|
            0 <= mi < a.modules@.len() ==> (#[trigger] b.modules@[mi]).peers
                == a.modules@[mi].peers,
    ensures
        a.addr_unique() ==> b.addr_unique(),
        forall|mi: int, ad: u64, p: Peer|
            #![trigger a.module_peer_with(mi, ad, p)]
            #![trigger b.module_peer_with(mi, ad, p)]
            a.module_peer_with(mi, ad, p) == b.module_peer_with(mi, ad, p),
        forall|ad: u64|
            #![trigger a.has_peer(ad)]
            #![trigger b.has_peer(ad)]
            a.has_peer(ad) == b.has_peer(ad),
        forall|ad: u64, p: Peer|
            #![trigger a.peer_with(ad, p)]
            #![trigger b.peer_with(ad, p)]
            a.peer_with(ad, p) == b.peer_with(ad, p),
{
    assert forall|mi: int, pi: int|
        a.valid_peer_idx(mi, pi) implies #[trigger] a.peer_at(mi, pi) == b.peer_at(mi, pi)
            && b.valid_peer_idx(mi, pi) by {}
    assert forall|mi: int, pi: int|
        b.valid_peer_idx(mi, pi) implies #[trigger] b.peer_at(mi, pi) == a.peer_at(mi, pi)
            && a.valid_peer_idx(mi, pi) by {}
    if a.addr_unique() {
        assert forall|mi: int, pi: int, mj: int, pj: int|
            b.valid_peer_idx(mi, pi) && b.valid_peer_idx(mj, pj) && (mi != mj || pi != pj) implies (
        #[trigger] b.peer_at(mi, pi)).address != (#[trigger] b.peer_at(mj, pj)).address by {
            assert(a.peer_at(mi, pi) == b.peer_at(mi, pi));
            assert(a.peer_at(mj, pj) == b.peer_at(mj, pj));
        }
    }
    assert forall|mi: int, ad: u64, p: Peer|
        #![trigger a.module_peer_with(mi, ad, p)]
        #![trigger b.module_peer_with(mi, ad, p)]
        a.module_peer_with(mi, ad, p) == b.module_peer_with(mi, ad, p) by {
        if a.module_peer_with(mi, ad, p) {
            let pi = choose|pi: int|
                0 <= pi < a.modules@[mi].peers@.len() && #[trigger] a.peer_at(mi, pi) == p
                    && p.address == ad;
            assert(b.peer_at(mi, pi) == p);
        }
        if b.module_peer_with(mi, ad, p) {
            let pi = choose|pi: int|
                0 <= pi < b.modules@[mi].peers@.len() && #[trigger] b.peer_at(mi, pi) == p
                    && p.address == ad;
            assert(a.peer_at(mi, pi) == p);
        }
    }
    assert forall|ad: u64|
        #![trigger a.has_peer(ad)]
        #![trigger b.has_peer(ad)]
        a.has_peer(ad) == b.has_peer(ad) by {
        if a.has_peer(ad) {
            let (mi, pi) = choose|mi: int, pi: int|
                a.valid_peer_idx(mi, pi) && (#[trigger] a.peer_at(mi, pi)).address == ad;
            assert(b.peer_at(mi, pi).address == ad && b.valid_peer_idx(mi, pi));
        }
        if b.has_peer(ad) {
            let (mi, pi) = choose|mi: int, pi: int|
                b.valid_peer_idx(mi, pi) && (#[trigger] b.peer_at(mi, pi)).address == ad;
            assert(a.peer_at(mi, pi).address == ad && a.valid_peer_idx(mi, pi));
        }
    }
    assert forall|ad: u64, p: Peer|
        #![trigger a.peer_with(ad, p)]
        #![trigger b.peer_with(ad, p)]
        a.peer_with(ad, p) == b.peer_with(ad, p) by {
        if a.peer_with(ad, p) {
            let (mi, pi) = choose|mi: int, pi: int|
                a.valid_peer_idx(mi, pi) && #[trigger] a.peer_at(mi, pi) == p && p.address == ad;
            assert(b.peer_at(mi, pi) == p && b.valid_peer_idx(mi, pi));
        }
        if b.peer_with(ad, p) {
            let (mi, pi) = choose|mi: int, pi: int|
                b.valid_peer_idx(mi, pi) && #[trigger] b.peer_at(mi, pi) == p && p.address == ad;
            assert(a.peer_at(mi, pi) == p && a.valid_peer_idx(mi, pi));
        }
    }
}

/// Peer-membership facts carry over between registries with equal modules.
pub proof fn lemma_registry_transfer(a: Reflector, b: Reflector)
    requires
        a.modules == b.modules,
    ensures
        a.addr_unique() ==> b.addr_unique(),
        forall|mi: int, ad: u64, p: Peer|
            #![trigger a.module_peer_with(mi, ad, p)]
            #![trigger b.module_peer_with(mi, ad, p)]
            a.module_peer_with(mi, ad, p) == b.module_peer_with(mi, ad, p),
        forall|ad: u64|
            #![trigger a.has_peer(ad)]
            #![trigger b.has_peer(ad)]
            a.has_peer(ad) == b.has_peer(ad),
        forall|ad: u64, p: Peer|
            #![trigger a.peer_with(ad, p)]
            #![trigger b.peer_with(ad, p)]
            a.peer_with(ad, p) == b.peer_with(ad, p),
{
    if a.addr_unique() {
        assert forall|mi: int, pi: int, mj: int, pj: int|
            b.valid_peer_idx(mi, pi) && b.valid_peer_idx(mj, pj) && (mi != mj || pi != pj) implies (
        #[trigger] b.peer_at(mi, pi)).address != (#[trigger] b.peer_at(mj, pj)).address by {
            assert(b.peer_at(mi, pi) == a.peer_at(mi, pi));
            assert(b.peer_at(mj, pj) == a.peer_at(mj, pj));
            assert(a.valid_peer_idx(mi, pi) && a.valid_peer_idx(mj, pj));
        }
    }
    assert forall|mi: int, ad: u64, p: Peer|
        #![trigger a.module_peer_with(mi, ad, p)]
        #![trigger b.module_peer_with(mi, ad, p)]
        a.module_peer_with(mi, ad, p) == b.module_peer_with(mi, ad, p) by {
        if a.module_peer_with(mi, ad, p) {
            let pi = choose|pi: int|
                0 <= pi < a.modules@[mi].peers@.len() && #[trigger] a.peer_at(mi, pi) == p
                    && p.address == ad;
            assert(b.peer_at(mi, pi) == p);
        }
        if b.module_peer_with(mi, ad, p) {
            let pi = choose|pi: int|
                0 <= pi < b.modules@[mi].peers@.len() && #[trigger] b.peer_at(mi, pi) == p
                    && p.address == ad;
            assert(a.peer_at(mi, pi) == p);
        }
    }
    assert forall|ad: u64|
        #![trigger a.has_peer(ad)]
        #![trigger b.has_peer(ad)]
        a.has_peer(ad) == b.has_peer(ad) by {
        if a.has_peer(ad) {
            let (mi, pi) = choose|mi: int, pi: int|
                a.valid_peer_idx(mi, pi) && (#[trigger] a.peer_at(mi, pi)).address == ad;
            assert(b.peer_at(mi, pi).address == ad && b.valid_peer_idx(mi, pi));
        }
        if b.has_peer(ad) {
            let (mi, pi) = choose|mi: int, pi: int|
                b.valid_peer_idx(mi, pi) && (#[trigger] b.peer_at(mi, pi)).address == ad;
            assert(a.peer_at(mi, pi).address == ad && a.valid_peer_idx(mi, pi));
        }
    }
    assert forall|ad: u64, p: Peer|
        #![trigger a.peer_with(ad, p)]
        #![trigger b.peer_with(ad, p)]
        a.peer_with(ad, p) == b.peer_with(ad, p) by {
        if a.peer_with(ad, p) {
            let (mi, pi) = choose|mi: int, pi: int|
                a.valid_peer_idx(mi, pi) && #[trigger] a.peer_at(mi, pi) == p && p.address == ad;
            assert(b.peer_at(mi, pi) == p && b.valid_peer_idx(mi, pi));
        }
        if b.peer_with(ad, p) {
            let (mi, pi) = choose|mi: int, pi: int|
                b.valid_peer_idx(mi, pi) && #[trigger] b.peer_at(mi, pi) == p && p.address == ad;
            assert(a.peer_at(mi, pi) == p && a.valid_peer_idx(mi, pi));
        }
    }
}

/// Copies a borrowed string.
pub fn copy_str(s: &str) -> (r: String)
    ensures
        r@ == s@,
{
    let mut r = String::new();
    let n = s.unicode_len();
    let mut i: usize = 0;
    while i < n
        invariant
            n == s@.len(),
            i <= n,
            r@ =~= s@.subrange(0, i as int),
        decreases n - i,
    {
        push_char(&mut r, s.get_char(i));
        proof {
            assert(r@.drop_last() =~= s@.subrange(0, i as int));
            assert(r@ =~= s@.subrange(0, i as int + 1));
        }
        i = i + 1;
    }
    proof {
        assert(s@.subrange(0, n as int) =~= s@);
    }
    r
}

} // verus!

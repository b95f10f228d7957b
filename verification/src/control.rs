//! Control-plane handling: `CONN` and `LSTN` attach a peer (or draw a
//! `NACK` for an unknown module), `PING` refreshes liveness and draws a
//! `PONG`, `DISC` detaches the peer, and the handler builds the reply
//! datagram for the caller to send back to the origin address.
//!
//! Replies that carry a callsign field (`PONG`, `DISC`) carry the
//! reflector's own callsign.

use vstd::prelude::*;
use crate::callsign::{encode_callsign, spec_encode_callsign};
use crate::packet::ControlKind;
use crate::peer::{spec_apply_update, Peer, PeerRole, PeerUpdate};
use crate::reflector::Reflector;

verus! {

/// The four bytes of a control magic, as a sequence.
pub open spec fn spec_magic4(m0: u8, m1: u8, m2: u8, m3: u8) -> Seq<u8> {
    seq![m0, m1, m2, m3]
}

/// `ACKN`.
pub open spec fn spec_ackn() -> Seq<u8> {
    spec_magic4(0x41, 0x43, 0x4B, 0x4E)
}

/// `NACK`.
pub open spec fn spec_nack() -> Seq<u8> {
    spec_magic4(0x4E, 0x41, 0x43, 0x4B)
}

/// A magic followed by an encoded callsign field.
pub open spec fn spec_magic_callsign(m0: u8, m1: u8, m2: u8, m3: u8, name: Seq<char>) -> Seq<u8> {
    spec_magic4(m0, m1, m2, m3) + spec_encode_callsign(name)
}

fn build_magic(m0: u8, m1: u8, m2: u8, m3: u8) -> (r: Vec<u8>)
    ensures
        r@ == spec_magic4(m0, m1, m2, m3),
{
    let mut r: Vec<u8> = Vec::new();
    r.push(m0);
    r.push(m1);
    r.push(m2);
    r.push(m3);
    proof {
        assert(r@ =~= spec_magic4(m0, m1, m2, m3));
    }
    r
}

fn build_magic_callsign(m0: u8, m1: u8, m2: u8, m3: u8, name: &str) -> (r: Vec<u8>)
    ensures
        r@ == spec_magic_callsign(m0, m1, m2, m3, name@),
{
    let mut r = build_magic(m0, m1, m2, m3);
    let field = encode_callsign(name);
    let mut i: usize = 0;
    while i < 6
        invariant
            i <= 6,
            field@ == spec_encode_callsign(name@),
            r@ =~= spec_magic4(m0, m1, m2, m3) + field@.subrange(0, i as int),
        decreases 6 - i,
    {
        r.push(field[i]);
        proof {
            assert(r@ =~= spec_magic4(m0, m1, m2, m3) + field@.subrange(0, i as int + 1));
        }
        i = i + 1;
    }
    proof {
        assert(field@.subrange(0, 6) =~= field@);
    }
    r
}

/// The `PING` datagram sent to keep a peer alive, carrying this
/// reflector's callsign.
pub fn build_ping(name: &str) -> (r: Vec<u8>)
    ensures
        r@ == spec_magic_callsign(0x50, 0x49, 0x4E, 0x47, name@),
{
    build_magic_callsign(0x50, 0x49, 0x4E, 0x47, name)
}

/// The `DISC` datagram announcing a disconnection, carrying this
/// reflector's callsign.
pub fn build_disc(name: &str) -> (r: Vec<u8>)
    ensures
        r@ == spec_magic_callsign(0x44, 0x49, 0x53, 0x43, name@),
{
    build_magic_callsign(0x44, 0x49, 0x53, 0x43, name)
}

/// The `CONN` datagram used to attach to a module of another reflector.
pub fn build_conn(name: &str, module: char) -> (r: Vec<u8>)
    ensures
        r@ == spec_magic_callsign(0x43, 0x4F, 0x4E, 0x4E, name@).push(module as u8),
{
    let mut r = build_magic_callsign(0x43, 0x4F, 0x4E, 0x4E, name);
    r.push(module as u8);
    r
}

/// What the control handler decides: the datagram to send back to the
/// origin address, if any.
pub enum ControlReply {
    Silent,
    Reply(Vec<u8>),
}

/// Reacts to one parsed control packet from `addr`: attaches, refreshes or
/// detaches the peer and hands back the reply datagram to send to `addr`.
pub fn handle_control_packet(
    pkt: &ControlKind,
    addr: u64,
    reflector: &mut Reflector,
    now_wall: u64,
    now_mono: u64,
) -> (reply: ControlReply)
    requires
        old(reflector).wf(),
    ensures
        final(reflector).wf(),
        final(reflector).name == old(reflector).name,
        match pkt {
            ControlKind::Conn { from, module } => {
                if old(reflector).has_module(*module) {
                    &&& (reply matches ControlReply::Reply(r) && r@ == spec_ackn())
                    &&& final(reflector).has_peer(addr)
                    &&& forall|mi: int, a: u64, p: Peer|
                        #[trigger] final(reflector).module_peer_with(mi, a, p) ==> ((a != addr
                            && old(reflector).module_peer_with(mi, a, p)) || (a == addr && old(
                            reflector,
                        ).modules@[mi].name == *module && Peer::spec_new(
                            from@,
                            addr,
                            now_wall,
                            now_mono,
                            false,
                            false,
                            p,
                        )))
                    &&& forall|mi: int, a: u64, p: Peer|
                        a != addr && (#[trigger] old(reflector).module_peer_with(mi, a, p))
                            ==> final(reflector).module_peer_with(mi, a, p)
                } else {
                    &&& (reply matches ControlReply::Reply(r) && r@ == spec_nack())
                    &&& *final(reflector) == *old(reflector)
                }
            },
            ControlKind::Lstn { from, module } => {
                if old(reflector).has_module(*module) {
                    &&& (reply matches ControlReply::Reply(r) && r@ == spec_ackn())
                    &&& final(reflector).has_peer(addr)
                    &&& forall|mi: int, a: u64, p: Peer|
                        #[trigger] final(reflector).module_peer_with(mi, a, p) ==> ((a != addr
                            && old(reflector).module_peer_with(mi, a, p)) || (a == addr && old(
                            reflector,
                        ).modules@[mi].name == *module && Peer::spec_new(
                            from@,
                            addr,
                            now_wall,
                            now_mono,
                            false,
                            true,
                            p,
                        )))
                    &&& forall|mi: int, a: u64, p: Peer|
                        a != addr && (#[trigger] old(reflector).module_peer_with(mi, a, p))
                            ==> final(reflector).module_peer_with(mi, a, p)
                } else {
                    &&& (reply matches ControlReply::Reply(r) && r@ == spec_nack())
                    &&& *final(reflector) == *old(reflector)
                }
            },
            ControlKind::Ping { .. } => {
                &&& (reply matches ControlReply::Reply(r) && r@ == spec_magic_callsign(
                    0x50,
                    0x4F,
                    0x4E,
                    0x47,
                    old(reflector).name@,
                ))
                &&& forall|mi: int, a: u64, p: Peer|
                    #[trigger] final(reflector).module_peer_with(mi, a, p) ==> ((a != addr && old(
                        reflector,
                    ).module_peer_with(mi, a, p)) || (a == addr && p.last_seen == now_mono
                        && exists|q: Peer|
                        #[trigger] old(reflector).module_peer_with(mi, a, q) && p == Peer {
                            last_seen: now_mono,
                            ..q
                        }))
                &&& forall|mi: int, a: u64, p: Peer|
                    a != addr && (#[trigger] old(reflector).module_peer_with(mi, a, p)) ==> final(reflector).module_peer_with(mi, a, p)
                &&& forall|mi: int, q: Peer|
                    #[trigger] old(reflector).module_peer_with(mi, addr, q) ==> final(reflector).module_peer_with(mi, addr, Peer { last_seen: now_mono, ..q })
                &&& (!old(reflector).has_peer(addr) ==> *final(reflector) == *old(reflector))
                &&& final(reflector).same_but_modules(*old(reflector))
            },
            ControlKind::Pong { .. } => {
                &&& reply is Silent
                &&& forall|mi: int, a: u64, p: Peer|
                    #[trigger] final(reflector).module_peer_with(mi, a, p) ==> ((a != addr && old(
                        reflector,
                    ).module_peer_with(mi, a, p)) || (a == addr && p.last_seen == now_mono
                        && exists|q: Peer|
                        #[trigger] old(reflector).module_peer_with(mi, a, q) && p == Peer {
                            last_seen: now_mono,
                            ..q
                        }))
                &&& forall|mi: int, a: u64, p: Peer|
                    a != addr && (#[trigger] old(reflector).module_peer_with(mi, a, p)) ==> final(reflector).module_peer_with(mi, a, p)
                &&& forall|mi: int, q: Peer|
                    #[trigger] old(reflector).module_peer_with(mi, addr, q) ==> final(reflector).module_peer_with(mi, addr, Peer { last_seen: now_mono, ..q })
                &&& (!old(reflector).has_peer(addr) ==> *final(reflector) == *old(reflector))
                &&& final(reflector).same_but_modules(*old(reflector))
            },
            ControlKind::Disc { .. } => {
                &&& (reply matches ControlReply::Reply(r) && r@ == spec_magic_callsign(
                    0x44,
                    0x49,
                    0x53,
                    0x43,
                    old(reflector).name@,
                ))
                &&& !final(reflector).has_peer(addr)
                &&& forall|mi: int, a: u64, p: Peer|
                    #![trigger final(reflector).module_peer_with(mi, a, p)]
                    #![trigger old(reflector).module_peer_with(mi, a, p)]
                    final(reflector).module_peer_with(mi, a, p) <==> (a != addr && old(
                        reflector,
                    ).module_peer_with(mi, a, p))
                &&& forall|b: Seq<char>, a: u64|
                    #![trigger final(reflector).user_has_addr(b, a)]
                    #![trigger old(reflector).user_has_addr(b, a)]
                    final(reflector).user_has_addr(b, a) <==> (old(reflector).user_has_addr(b, a)
                        && a != addr)
                &&& crate::reflector::user_keys_shrunk(
                    final(reflector).user_map@,
                    old(reflector).user_map@,
                    addr,
                )
            },
            ControlKind::Ackn => reply is Silent && *final(reflector) == *old(reflector),
            ControlKind::Nack => reply is Silent && *final(reflector) == *old(reflector),
        },
{
    match pkt {
        ControlKind::Conn { from, module } => {
            let cs = crate::reflector::copy_str(from.as_str());
            let ok = reflector.add_peer(*module, cs, addr, PeerRole::Client, now_wall, now_mono);
            if ok {
                proof {
                    let w = choose|mi: int|
                        old(reflector).valid_mi(mi) && (#[trigger] old(
                            reflector,
                        ).modules@[mi]).name == *module;
                    assert(reflector.valid_mi(w) && reflector.modules@[w].name == *module);
                    let p = choose|p: Peer|
                        Peer::spec_new(from@, addr, now_wall, now_mono, false, false, p)
                            && #[trigger] reflector.module_peer_with(w, addr, p);
                    let pi = choose|pi: int|
                        0 <= pi < reflector.modules@[w].peers@.len() && #[trigger] reflector.peer_at(
                            w,
                            pi,
                        ) == p && p.address == addr;
                    assert(reflector.valid_peer_idx(w, pi) && reflector.peer_at(w, pi).address
                        == addr);
                }
                ControlReply::Reply(build_magic(0x41, 0x43, 0x4B, 0x4E))
            } else {
                ControlReply::Reply(build_magic(0x4E, 0x41, 0x43, 0x4B))
            }
        },
        ControlKind::Lstn { from, module } => {
            let cs = crate::reflector::copy_str(from.as_str());
            let ok = reflector.add_peer(*module, cs, addr, PeerRole::Listen, now_wall, now_mono);
            if ok {
                proof {
                    let w = choose|mi: int|
                        old(reflector).valid_mi(mi) && (#[trigger] old(
                            reflector,
                        ).modules@[mi]).name == *module;
                    assert(reflector.valid_mi(w) && reflector.modules@[w].name == *module);
                    let p = choose|p: Peer|
                        Peer::spec_new(from@, addr, now_wall, now_mono, false, true, p)
                            && #[trigger] reflector.module_peer_with(w, addr, p);
                    let pi = choose|pi: int|
                        0 <= pi < reflector.modules@[w].peers@.len() && #[trigger] reflector.peer_at(
                            w,
                            pi,
                        ) == p && p.address == addr;
                    assert(reflector.valid_peer_idx(w, pi) && reflector.peer_at(w, pi).address
                        == addr);
                }
                ControlReply::Reply(build_magic(0x41, 0x43, 0x4B, 0x4E))
            } else {
                ControlReply::Reply(build_magic(0x4E, 0x41, 0x43, 0x4B))
            }
        },
        ControlKind::Ping { .. } => {
            reflector.apply_peer_update(addr, PeerUpdate::Touch { now_mono });
            let name = crate::reflector::copy_str(reflector.name.as_str());
            ControlReply::Reply(build_magic_callsign(0x50, 0x4F, 0x4E, 0x47, name.as_str()))
        },
        ControlKind::Pong { .. } => {
            reflector.apply_peer_update(addr, PeerUpdate::Touch { now_mono });
            ControlReply::Silent
        },
        ControlKind::Disc { .. } => {
            let name = crate::reflector::copy_str(reflector.name.as_str());
            reflector.remove_peer(addr);
            ControlReply::Reply(build_magic_callsign(0x44, 0x49, 0x53, 0x43, name.as_str()))
        },
        ControlKind::Ackn => ControlReply::Silent,
        ControlKind::Nack => ControlReply::Silent,
    }
}

} // verus!

//! The stream router: decides, for one parsed stream frame, whether it is
//! dropped and why, which peers receive it, and how the stream lifecycle
//! advances. The caller sends the raw bytes verbatim to each address in
//! `recipients`.
//!
//! The recipient list never echoes to the origin, never carries a frame
//! from one link peer to another, and on a broadcast skips every peer that
//! is busy receiving a unicast stream; within those rules it reaches every
//! peer of the sender's module (broadcast) or every address recorded under
//! the destination's base callsign (unicast).

use vstd::prelude::*;
use vstd::string::StringExecFns;
use vstd::string::StrSliceExecFns;
use crate::callsign::spec_base_callsign;
use crate::packet::StreamPacket;
use crate::peer::{spec_apply_update, Peer, PeerUpdate};
use crate::counter::spec_sat_add32;
use crate::reflector::{StreamInfo, lemma_peers_preserved, lemma_registry_transfer, lemma_streams_transfer, lemma_user_transfer, Reflector};
use crate::strutil::{push_char, spec_starts_with, starts_with};

verus! {

/// Why a stream frame was dropped.
pub enum RouteDrop {
    /// Checksum failed and strict checking is on.
    BadCrc,
    /// Source or destination is the reserved invalid value.
    InvalidAddress,
    /// Source or destination is in the reserved range.
    ReservedAddress,
    /// The origin address is not attached to any module.
    UnknownSender,
    /// The origin peer attached listen-only.
    ListenOnlySender,
    /// Another broadcast stream is already running on the module.
    BroadcastBusy,
}

/// What the router decided for one frame.
pub enum RouteOutcome {
    Dropped(RouteDrop),
    Forwarded { recipients: Vec<u64>, ended: bool },
}

/// Pads a name with trailing spaces to the nine characters a decoded
/// callsign field always has.
pub open spec fn spec_pad9(s: Seq<char>) -> Seq<char>
    decreases 9 - s.len(),
{
    if s.len() >= 9 {
        s
    } else {
        spec_pad9(s.push(' '))
    }
}

/// The broadcast destinations: `BROADCAST`, `ALL`, or the reflector's own
/// callsign followed by a space and the module letter, each padded as a
/// decoded callsign is.
pub open spec fn spec_is_broadcast_dst(dst: Seq<char>, name: Seq<char>, module: char) -> bool {
    dst == "BROADCAST"@ || dst == spec_pad9("ALL"@) || dst == spec_pad9(name + seq![' ', module])
}

/// Checksum policy drop.
pub open spec fn spec_drop_crc(stream: StreamPacket, strict_crc: bool) -> bool {
    strict_crc && !stream.crc_ok
}

/// Invalid-address drop.
pub open spec fn spec_drop_invalid(stream: StreamPacket) -> bool {
    stream.src@ == "INVALID"@ || stream.dst@ == "INVALID"@
}

/// Reserved-address drop.
pub open spec fn spec_drop_reserved(stream: StreamPacket) -> bool {
    spec_starts_with(stream.src@, "RESERVED-"@) || spec_starts_with(stream.dst@, "RESERVED-"@)
}

/// The origin peer is attached as a link.
pub open spec fn spec_sender_link(r: Reflector, addr: u64) -> bool {
    exists|p: Peer| #[trigger] r.peer_with(addr, p) && p.is_link
}

/// The origin peer is attached listen-only.
pub open spec fn spec_drop_listen(r: Reflector, addr: u64) -> bool {
    exists|p: Peer| #[trigger] r.peer_with(addr, p) && p.listen_only
}

/// The frame's destination classifies as a broadcast on the module the
/// origin address is attached to.
pub open spec fn spec_classified_broadcast(r: Reflector, stream: StreamPacket, addr: u64) -> bool {
    exists|mi: int|
        r.valid_mi(mi) && (#[trigger] r.modules@[mi]).has_addr(addr) && spec_is_broadcast_dst(
            stream.dst@,
            r.name@,
            r.modules@[mi].name,
        )
}

/// A new broadcast-classified stream collides with a broadcast already
/// running on the origin's module.
pub open spec fn spec_drop_busy(r: Reflector, stream: StreamPacket, addr: u64) -> bool {
    !r.active_has(stream.stream_id) && spec_classified_broadcast(r, stream, addr) && exists|
        mi: int,
    |
        r.valid_mi(mi) && (#[trigger] r.modules@[mi]).has_addr(addr) && r.has_broadcast_on(
            r.modules@[mi].name,
        )
}

/// The address is attached to the same module as the origin `addr`.
pub open spec fn spec_in_sender_module(r: Reflector, addr: u64, a2: u64) -> bool {
    exists|mi: int, q: Peer|
        r.valid_mi(mi) && r.modules@[mi].has_addr(addr) && #[trigger] r.module_peer_with(mi, a2, q)
}

/// What a freshly admitted stream record holds: the frame's source and
/// destination, the origin address and its callsign, the broadcast
/// classification, one frame, both clocks at now, not ended.
pub open spec fn spec_admitted_stream(
    s: StreamInfo,
    r: Reflector,
    stream: StreamPacket,
    addr: u64,
    now_mono: u64,
) -> bool {
    &&& s.stream_id == stream.stream_id
    &&& s.callsign@ == stream.src@
    &&& s.destination@ == stream.dst@
    &&& s.peer == addr
    &&& s.is_broadcast == spec_classified_broadcast(r, stream, addr)
    &&& s.frames == 1
    &&& s.start_time == now_mono
    &&& s.last_frame_time == now_mono
    &&& s.end_time is None
    &&& (forall|q: Peer| #[trigger] r.peer_with(addr, q) ==> s.peer_callsign@ == q.callsign@)
}

/// The update applied to every recipient of this frame.
pub open spec fn spec_frame_delivery(
    r: Reflector,
    stream: StreamPacket,
    addr: u64,
    frame_len: usize,
) -> PeerUpdate {
    PeerUpdate::Deliver {
        bytes: frame_len,
        is_broadcast: spec_classified_broadcast(r, stream, addr),
        is_new: !r.active_has(stream.stream_id),
        last_frame: stream.last_frame,
        stream_id: stream.stream_id,
    }
}

/// Routes one stream frame of `frame_len` raw bytes arriving from `addr`:
/// applies the drop policies in order, accounts the origin's received
/// traffic, records the source under its base callsign, admits or updates
/// the stream, computes the fan-out set, accounts each recipient's sent
/// traffic and unicast latch, and ends the stream on its last frame.
#[verifier::rlimit(100)]
pub fn route_stream_packet(
    stream: &StreamPacket,
    frame_len: usize,
    addr: u64,
    reflector: &mut Reflector,
    strict_crc: bool,
    now_mono: u64,
) -> (outcome: RouteOutcome)
    requires
        old(reflector).wf(),
    ensures
        final(reflector).wf(),
        final(reflector).name == old(reflector).name,
        final(reflector).start_time == old(reflector).start_time,
        // the drop policies, in order, each an if-and-only-if
        (outcome matches RouteOutcome::Dropped(RouteDrop::BadCrc)) <==> spec_drop_crc(
            *stream,
            strict_crc,
        ),
        spec_drop_crc(*stream, strict_crc) ==> *final(reflector) == *old(reflector),
        !spec_drop_crc(*stream, strict_crc) ==> ((outcome matches RouteOutcome::Dropped(
            RouteDrop::InvalidAddress,
        )) <==> spec_drop_invalid(*stream)),
        !spec_drop_crc(*stream, strict_crc) && spec_drop_invalid(*stream) ==> *final(reflector)
            == *old(reflector),
        !spec_drop_crc(*stream, strict_crc) && !spec_drop_invalid(*stream) ==> ((outcome matches
        RouteOutcome::Dropped(RouteDrop::ReservedAddress)) <==> spec_drop_reserved(*stream)),
        !spec_drop_crc(*stream, strict_crc) && !spec_drop_invalid(*stream) && spec_drop_reserved(
            *stream,
        ) ==> *final(reflector) == *old(reflector),
        !spec_drop_crc(*stream, strict_crc) && !spec_drop_invalid(*stream) && !spec_drop_reserved(
            *stream,
        ) ==> ((outcome matches RouteOutcome::Dropped(RouteDrop::UnknownSender)) <==> !old(
            reflector,
        ).has_peer(addr)),
        (outcome matches RouteOutcome::Dropped(RouteDrop::UnknownSender)) ==> *final(reflector)
            == *old(reflector),
        !spec_drop_crc(*stream, strict_crc) && !spec_drop_invalid(*stream) && !spec_drop_reserved(
            *stream,
        ) && old(reflector).has_peer(addr) ==> ((outcome matches RouteOutcome::Dropped(
            RouteDrop::ListenOnlySender,
        )) <==> spec_drop_listen(*old(reflector), addr)),
        (outcome matches RouteOutcome::Dropped(RouteDrop::ListenOnlySender)) ==> *final(reflector)
            == *old(reflector),
        !spec_drop_crc(*stream, strict_crc) && !spec_drop_invalid(*stream) && !spec_drop_reserved(
            *stream,
        ) && old(reflector).has_peer(addr) && !spec_drop_listen(*old(reflector), addr) ==> ((
        outcome matches RouteOutcome::Dropped(RouteDrop::BroadcastBusy)) <==> spec_drop_busy(
            *old(reflector),
            *stream,
            addr,
        )),
        !spec_drop_crc(*stream, strict_crc) && !spec_drop_invalid(*stream) && !spec_drop_reserved(
            *stream,
        ) && old(reflector).has_peer(addr) && !spec_drop_listen(*old(reflector), addr)
            && !spec_drop_busy(*old(reflector), *stream, addr) ==> (outcome matches
        RouteOutcome::Forwarded { .. }),
        // what the frame did when it was not fully dropped
        match outcome {
            RouteOutcome::Dropped(d) => match d {
                RouteDrop::BroadcastBusy => {
                    // the frame was seen: origin accounted, source recorded,
                    // but no stream admitted and nothing forwarded
                    &&& final(reflector).active_streams == old(reflector).active_streams
                    &&& final(reflector).recent_streams == old(reflector).recent_streams
                    &&& forall|b: Seq<char>, a2: u64|
                        #![trigger final(reflector).user_has_addr(b, a2)]
                        #![trigger old(reflector).user_has_addr(b, a2)]
                        final(reflector).user_has_addr(b, a2) <==> (old(reflector).user_has_addr(
                            b,
                            a2,
                        ) || (b == spec_base_callsign(stream.src@) && a2 == addr))
                    &&& forall|mi: int, q: Peer|
                        #[trigger] old(reflector).module_peer_with(mi, addr, q) ==> final(reflector).module_peer_with(
                            mi,
                            addr,
                            spec_apply_update(PeerUpdate::Rx { bytes: frame_len, now_mono }, q),
                        )
                    &&& forall|mi: int, a2: u64, p: Peer|
                        a2 != addr && (#[trigger] old(reflector).module_peer_with(mi, a2, p))
                            ==> final(reflector).module_peer_with(mi, a2, p)
                },
                _ => true,
            },
            RouteOutcome::Forwarded { recipients, ended } => {
                // no echo to the origin, and no duplicates
                &&& forall|k: int| 0 <= k < recipients@.len() ==> recipients@[k] != addr
                &&& forall|k: int, l: int|
                    0 <= k < l < recipients@.len() ==> recipients@[k] != recipients@[l]
                // soundness: a broadcast reaches only peers of the sender's
                // module, a unicast only addresses recorded under the
                // destination's base callsign
                &&& (spec_classified_broadcast(*old(reflector), *stream, addr) ==> forall|k: int|
                    0 <= k < recipients@.len() ==> spec_in_sender_module(
                        *old(reflector),
                        addr,
                        #[trigger] recipients@[k],
                    ))
                &&& (!spec_classified_broadcast(*old(reflector), *stream, addr) ==> forall|k: int|
                    0 <= k < recipients@.len() ==> old(reflector).user_has_addr(
                        spec_base_callsign(stream.dst@),
                        #[trigger] recipients@[k],
                    ))
                // link-to-link loop prevention
                &&& forall|k: int, p: Peer, q: Peer|
                    0 <= k < recipients@.len() && (#[trigger] old(reflector).peer_with(addr, p))
                        && p.is_link && (#[trigger] old(reflector).peer_with(
                        recipients@[k],
                        q,
                    )) ==> !q.is_link
                // unicast shield: on any broadcast-classified frame, no
                // latched peer receives
                &&& forall|k: int, q: Peer|
                    0 <= k < recipients@.len() && spec_classified_broadcast(
                        *old(reflector),
                        *stream,
                        addr,
                    ) && (#[trigger] old(reflector).peer_with(recipients@[k], q))
                        ==> q.receiving_unicast is None
                // broadcast completeness: every eligible peer of the
                // sender's module is reached
                &&& forall|mi: int, a2: u64, q: Peer|
                    spec_classified_broadcast(*old(reflector), *stream, addr) && old(
                        reflector,
                    ).valid_mi(mi) && old(reflector).modules@[mi].has_addr(addr) && (
                    #[trigger] old(reflector).module_peer_with(mi, a2, q)) && a2 != addr && !(
                    spec_sender_link(*old(reflector), addr) && q.is_link)
                        && q.receiving_unicast is None ==> recipients@.contains(a2)
                // unicast completeness: every address under the
                // destination's base callsign is reached
                &&& forall|a2: u64|
                    !spec_classified_broadcast(*old(reflector), *stream, addr) && (
                    #[trigger] old(reflector).user_has_addr(
                        spec_base_callsign(stream.dst@),
                        a2,
                    )) && a2 != addr && !(spec_sender_link(*old(reflector), addr) && exists|
                        q: Peer,
                    |
                        #[trigger] old(reflector).peer_with(a2, q) && q.is_link)
                        ==> recipients@.contains(a2)
                // the source is recorded under its base callsign
                &&& forall|b: Seq<char>, a2: u64|
                    #![trigger final(reflector).user_has_addr(b, a2)]
                    #![trigger old(reflector).user_has_addr(b, a2)]
                    final(reflector).user_has_addr(b, a2) <==> (old(reflector).user_has_addr(b, a2)
                        || (b == spec_base_callsign(stream.src@) && a2 == addr))
                // peer records: the origin's received traffic is
                // accounted, every recipient's sent traffic and unicast
                // latch advance, and every other peer is untouched
                &&& forall|mi: int, q: Peer|
                    #[trigger] old(reflector).module_peer_with(mi, addr, q) ==> final(reflector).module_peer_with(
                        mi,
                        addr,
                        spec_apply_update(PeerUpdate::Rx { bytes: frame_len, now_mono }, q),
                    )
                &&& forall|k: int, mi: int, q: Peer|
                    0 <= k < recipients@.len() && (#[trigger] old(reflector).module_peer_with(
                        mi,
                        recipients@[k],
                        q,
                    )) ==> final(reflector).module_peer_with(
                        mi,
                        recipients@[k],
                        spec_apply_update(
                            spec_frame_delivery(*old(reflector), *stream, addr, frame_len),
                            q,
                        ),
                    )
                &&& forall|mi: int, a2: u64, p: Peer|
                    a2 != addr && !recipients@.contains(a2) && (#[trigger] old(reflector).module_peer_with(mi, a2, p)) ==> final(reflector).module_peer_with(mi, a2, p)
                // stream lifecycle, with the admitted or archived record
                // pinned field by field
                &&& (ended <==> stream.last_frame)
                &&& (!stream.last_frame ==> final(reflector).active_has(stream.stream_id))
                &&& (!stream.last_frame && !old(reflector).active_has(stream.stream_id) ==> final(reflector).active_streams@.len() == old(reflector).active_streams@.len() + 1
                    && final(reflector).active_streams@.drop_last() == old(reflector).active_streams@
                    && spec_admitted_stream(
                    final(reflector).active_streams@.last(),
                    *old(reflector),
                    *stream,
                    addr,
                    now_mono,
                ))
                &&& (!stream.last_frame && old(reflector).active_has(stream.stream_id) ==> exists|i: int|
                    0 <= i < old(reflector).active_streams@.len() && (#[trigger] old(reflector).active_streams@[i]).stream_id == stream.stream_id
                        && final(reflector).active_streams@ == old(reflector).active_streams@.update(
                        i,
                        StreamInfo {
                            frames: spec_sat_add32(old(reflector).active_streams@[i].frames, 1),
                            last_frame_time: now_mono,
                            ..old(reflector).active_streams@[i]
                        },
                    ))
                &&& (stream.last_frame ==> !final(reflector).active_has(stream.stream_id)
                    && final(reflector).recent_streams@.len() > 0 && final(reflector).recent_streams@.last().stream_id == stream.stream_id && final(reflector).recent_streams@.last().end_time == Some(now_mono))
                &&& (stream.last_frame && !old(reflector).active_has(stream.stream_id) ==> final(reflector).active_streams@ == old(reflector).active_streams@
                    && spec_admitted_stream(
                    StreamInfo {
                        end_time: None,
                        ..final(reflector).recent_streams@.last()
                    },
                    *old(reflector),
                    *stream,
                    addr,
                    now_mono,
                ))
                &&& (stream.last_frame && old(reflector).active_has(stream.stream_id) ==> exists|i: int|
                    0 <= i < old(reflector).active_streams@.len() && (#[trigger] old(reflector).active_streams@[i]).stream_id == stream.stream_id
                        && final(reflector).active_streams@ == old(reflector).active_streams@.remove(i)
                        && final(reflector).recent_streams@.last() == StreamInfo {
                        end_time: Some(now_mono),
                        frames: spec_sat_add32(old(reflector).active_streams@[i].frames, 1),
                        last_frame_time: now_mono,
                        ..old(reflector).active_streams@[i]
                    })
            },
        },
{
    proof {
        reveal_strlit("RESERVED-");
    }
    if strict_crc && !stream.crc_ok {
        return RouteOutcome::Dropped(RouteDrop::BadCrc);
    }
    let invalid = String::from_str("INVALID");
    if stream.src == invalid || stream.dst == invalid {
        return RouteOutcome::Dropped(RouteDrop::InvalidAddress);
    }
    if starts_with(stream.src.as_str(), "RESERVED-") || starts_with(
        stream.dst.as_str(),
        "RESERVED-",
    ) {
        return RouteOutcome::Dropped(RouteDrop::ReservedAddress);
    }

    let located = reflector.locate_peer(addr);
    let (sender_module, sender_is_link, origin_g, smi_g): (char, bool, Ghost<Peer>, Ghost<int>) = match located {
        None => {
            proof {
                assert(!spec_drop_listen(*reflector, addr)) by {
                    if spec_drop_listen(*reflector, addr) {
                        let p = choose|p: Peer|
                            #[trigger] reflector.peer_with(addr, p) && p.listen_only;
                        lemma_peer_with_has(*reflector, addr, p);
                    }
                }
            }
            return RouteOutcome::Dropped(RouteDrop::UnknownSender);
        },
        Some((mi, pi)) => {
            let p = &reflector.modules[mi].peers[pi];
            if p.listen_only {
                proof {
                    assert(reflector.peer_with(addr, *p));
                }
                return RouteOutcome::Dropped(RouteDrop::ListenOnlySender);
            }
            proof {
                assert(reflector.peer_with(addr, *p));
                assert(!spec_drop_listen(*reflector, addr)) by {
                    if spec_drop_listen(*reflector, addr) {
                        let p2 = choose|p2: Peer|
                            #[trigger] reflector.peer_with(addr, p2) && p2.listen_only;
                        lemma_peer_unique(*reflector, addr, p2, *p);
                    }
                }
            }
            proof {
                assert(reflector.modules@[mi as int].has_addr(addr));
            }
            (reflector.modules[mi].name, p.is_link, Ghost(*p), Ghost(mi as int))
        },
    };
    let ghost pre = *reflector;
    proof {
        assert(pre == *old(reflector));
    }
    proof {
        assert(pre.peer_with(addr, origin_g@));
        assert(origin_g@.is_link == sender_is_link);
        assert(sender_is_link == spec_sender_link(pre, addr)) by {
            if spec_sender_link(pre, addr) {
                let p2 = choose|p2: Peer| #[trigger] pre.peer_with(addr, p2) && p2.is_link;
                lemma_peer_unique(pre, addr, p2, origin_g@);
            }
        }
    }
    let ghost smi = smi_g@;
    proof {
        assert(pre.valid_mi(smi) && pre.modules@[smi].has_addr(addr) && pre.modules@[smi].name
            == sender_module);
    }

    // broadcast classification; the decoded destination is always the
    // padded nine-character form, so the names are padded the same way
    let broadcast_name = String::from_str("BROADCAST");
    let all_name = pad9(String::from_str("ALL"));
    let mut reflector_call = crate::reflector::copy_str(reflector.name.as_str());
    push_char(&mut reflector_call, ' ');
    push_char(&mut reflector_call, sender_module);
    let reflector_call = pad9(reflector_call);
    let is_broadcast = stream.dst == broadcast_name || stream.dst == all_name || stream.dst
        == reflector_call;
    proof {
        lemma_sender_module_unique(pre, addr);
        assert(reflector_call@ == spec_pad9(pre.name@ + seq![' ', sender_module])) by {
            assert(pre.name@.push(' ').push(sender_module) =~= pre.name@ + seq![
                ' ',
                sender_module,
            ]);
        }
        assert(is_broadcast == spec_classified_broadcast(pre, *stream, addr)) by {
            if is_broadcast {
                assert(pre.modules@[smi].has_addr(addr));
            }
            if spec_classified_broadcast(pre, *stream, addr) {
                let mj = choose|mj: int|
                    pre.valid_mi(mj) && (#[trigger] pre.modules@[mj]).has_addr(addr)
                        && spec_is_broadcast_dst(stream.dst@, pre.name@, pre.modules@[mj].name);
                assert(mj == smi);
            }
        }
    }

    let is_new = !reflector.has_active(stream.stream_id);
    reflector.apply_peer_update(addr, PeerUpdate::Rx { bytes: frame_len, now_mono });
    let ghost s1 = *reflector;
    reflector.record_user(stream.src.as_str(), addr);
    let ghost s2 = *reflector;
    proof {
        lemma_streams_transfer(pre, s2);
        lemma_registry_transfer(s1, s2);
        lemma_user_transfer(pre, s1);
        assert(is_new == !pre.active_has(stream.stream_id));
        // for any address other than the origin, the registry still holds
        // the peers it held before
        assert forall|mj: int, a2: u64, q: Peer|
            a2 != addr implies ((#[trigger] s2.module_peer_with(mj, a2, q)) <==>
        pre.module_peer_with(mj, a2, q)) by {}
    }
    let allowed = reflector.record_stream_frame(
        stream.stream_id,
        stream.src.as_str(),
        sender_module,
        stream.dst.as_str(),
        addr,
        is_broadcast,
        now_mono,
    );
    let ghost s3 = *reflector;
    proof {
        lemma_peers_preserved(s2, s3);
        lemma_user_transfer(s2, s3);
        assert(!allowed <==> spec_drop_busy(pre, *stream, addr)) by {
            if !allowed {
                assert(pre.modules@[smi].has_addr(addr) && pre.has_broadcast_on(
                    pre.modules@[smi].name,
                ));
            }
            if spec_drop_busy(pre, *stream, addr) {
                let mj = choose|mj: int|
                    pre.valid_mi(mj) && (#[trigger] pre.modules@[mj]).has_addr(addr)
                        && pre.has_broadcast_on(pre.modules@[mj].name);
                assert(mj == smi);
            }
        }
        assert forall|mj: int, a2: u64, q: Peer|
            a2 != addr implies ((#[trigger] s3.module_peer_with(mj, a2, q)) <==>
        pre.module_peer_with(mj, a2, q)) by {
            assert(s3.module_peer_with(mj, a2, q) == s2.module_peer_with(mj, a2, q));
        }
    }
    if !allowed {
        proof {
            assert forall|mj: int, q: Peer|
                #[trigger] pre.module_peer_with(mj, addr, q) implies s3.module_peer_with(
                mj,
                addr,
                spec_apply_update(PeerUpdate::Rx { bytes: frame_len, now_mono }, q),
            ) by {
                assert(s1.module_peer_with(
                    mj,
                    addr,
                    spec_apply_update(PeerUpdate::Rx { bytes: frame_len, now_mono }, q),
                ));
                assert(s2.module_peer_with(
                    mj,
                    addr,
                    spec_apply_update(PeerUpdate::Rx { bytes: frame_len, now_mono }, q),
                ));
            }
        }
        return RouteOutcome::Dropped(RouteDrop::BroadcastBusy);
    }


    // fan-out set, computed over the filters of the original
    let mut recipients: Vec<u64> = Vec::new();
    if is_broadcast {
        match reflector.module_idx(sender_module) {
            None => {
                proof {
                    let w = choose|mj: int|
                        pre.valid_mi(mj) && (#[trigger] pre.modules@[mj]).name == sender_module;
                    assert(reflector.modules@[w].name == sender_module);
                    assert(false);
                }
            },
            Some(mi) => {
                let m = &reflector.modules[mi];
                let n = m.peers.len();
                let mut pi: usize = 0;
                while pi < n
                    invariant
                        pre.wf(),
                        *reflector == s3,
                        reflector.wf(),
                        m == reflector.modules@[mi as int],
                        reflector.valid_mi(mi as int),
                        pre.modules@.len() == reflector.modules@.len(),
                        forall|mj: int, a2: u64, q: Peer|
                            a2 != addr ==> ((#[trigger] reflector.module_peer_with(mj, a2, q))
                                <==> pre.module_peer_with(mj, a2, q)),
                        n == m.peers@.len(),
                        pi <= n,
                        forall|j: int|
                            0 <= j < recipients@.len() ==> exists|pj: int|
                                0 <= pj < pi && #[trigger] recipients@[j] == m.peers@[pj].address,
                        forall|k: int, l: int|
                            0 <= k < l < recipients@.len() ==> recipients@[k] != recipients@[l],
                        forall|k: int| 0 <= k < recipients@.len() ==> recipients@[k] != addr,
                        forall|k: int, q: Peer|
                            0 <= k < recipients@.len() && (#[trigger] pre.peer_with(
                                recipients@[k],
                                q,
                            )) ==> !(sender_is_link && q.is_link) && q.receiving_unicast is None,
                        forall|pj: int|
                            0 <= pj < pi && (#[trigger] m.peers@[pj]).address != addr && !(
                            sender_is_link && m.peers@[pj].is_link)
                                && m.peers@[pj].receiving_unicast is None ==> recipients@.contains(
                                m.peers@[pj].address,
                            ),
                    decreases n - pi,
                {
                    let p = &m.peers[pi];
                    if p.address != addr && !(sender_is_link && p.is_link)
                        && p.receiving_unicast.is_none() {
                        let ghost r0 = recipients@;
                        recipients.push(p.address);
                        proof {
                            assert(recipients@[recipients@.len() - 1] == m.peers@[pi as int].address);
                            assert forall|k: int, q: Peer|
                                0 <= k < recipients@.len() && (#[trigger] pre.peer_with(
                                    recipients@[k],
                                    q,
                                )) implies !(sender_is_link && q.is_link) && q.receiving_unicast
                                is None by {
                                if k < r0.len() {
                                    assert(recipients@[k] == r0[k]);
                                } else {
                                    assert(recipients@[k] == p.address);
                                    assert(reflector.peer_at(mi as int, pi as int) == *p);
                                    assert(reflector.valid_peer_idx(mi as int, pi as int));
                                    assert(reflector.module_peer_with(mi as int, p.address, *p));
                                    assert(pre.module_peer_with(mi as int, p.address, *p));
                                    lemma_module_peer_with_peer_with(pre, p.address, *p);
                                    lemma_peer_unique(pre, p.address, q, *p);
                                }
                            }
                            assert forall|k: int, l: int|
                                0 <= k < l < recipients@.len() implies recipients@[k]
                                != recipients@[l] by {
                                if l == recipients@.len() - 1 {
                                    assert(recipients@[k] == r0[k]);
                                    let pj = choose|pj: int|
                                        0 <= pj < pi && #[trigger] r0[k] == m.peers@[pj].address;
                                    assert(reflector.peer_at(mi as int, pj).address != reflector.peer_at(
                                        mi as int,
                                        pi as int,
                                    ).address);
                                }
                            }
                            assert forall|pj: int|
                                0 <= pj < pi + 1 && (#[trigger] m.peers@[pj]).address != addr && !(
                            sender_is_link && m.peers@[pj].is_link)
                                && m.peers@[pj].receiving_unicast is None implies recipients@.contains(
                                m.peers@[pj].address,
                            ) by {
                                if pj < pi {
                                    let w = choose|w: int|
                                        0 <= w < r0.len() && r0[w] == m.peers@[pj].address;
                                    assert(recipients@[w] == m.peers@[pj].address);
                                } else {
                                    assert(recipients@[recipients@.len() - 1]
                                        == m.peers@[pj].address);
                                }
                            }
                        }
                    }
                    pi = pi + 1;
                }
                proof {
                    assert forall|mj: int, a2: u64, q: Peer|
                        spec_classified_broadcast(pre, *stream, addr) && pre.valid_mi(mj)
                            && pre.modules@[mj].has_addr(addr) && (
                        #[trigger] pre.module_peer_with(mj, a2, q)) && a2 != addr && !(
                        spec_sender_link(pre, addr) && q.is_link)
                            && q.receiving_unicast is None implies recipients@.contains(a2) by {
                        lemma_sender_module_unique(pre, addr);
                        assert(mj == smi);
                        assert(smi == mi as int) by {
                            if smi != mi as int {
                                assert(pre.modules@[smi].name == pre.modules@[mi as int].name);
                            }
                        }
                        let pj = choose|pj: int|
                            0 <= pj < pre.modules@[mj].peers@.len() && #[trigger] pre.peer_at(
                                mj,
                                pj,
                            ) == q && q.address == a2;
                        assert(pre.module_peer_with(mj, a2, q));
                        assert(reflector.module_peer_with(mj, a2, q));
                        let pj2 = choose|pj2: int|
                            0 <= pj2 < reflector.modules@[mj].peers@.len()
                                && #[trigger] reflector.peer_at(mj, pj2) == q && q.address == a2;
                        assert(m.peers@[pj2] == q);
                        assert(recipients@.contains(q.address));
                    }
                    assert forall|kk: int|
                        0 <= kk < recipients@.len() implies spec_in_sender_module(
                        pre,
                        addr,
                        #[trigger] recipients@[kk],
                    ) by {
                        let pj = choose|pj: int|
                            0 <= pj < pi && #[trigger] recipients@[kk] == m.peers@[pj].address;
                        let q = m.peers@[pj];
                        assert(reflector.peer_at(mi as int, pj) == q);
                        assert(reflector.valid_peer_idx(mi as int, pj));
                        assert(reflector.module_peer_with(mi as int, q.address, q));
                        assert(pre.module_peer_with(mi as int, q.address, q));
                        assert(mi as int == smi) by {
                            if mi as int != smi {
                                assert(pre.modules@[smi].name == pre.modules@[mi as int].name);
                            }
                        }
                        assert(pre.modules@[mi as int].has_addr(addr));
                    }
                }
            },
        }
    } else {
        let targets = reflector.find_user_peers(stream.dst.as_str());
        let n = targets.len();
        let mut k: usize = 0;
        while k < n
            invariant
                pre.wf(),
                *reflector == s3,
                reflector.wf(),
                pre.modules@.len() == reflector.modules@.len(),
                forall|mj: int, a2: u64, q: Peer|
                    a2 != addr ==> ((#[trigger] reflector.module_peer_with(mj, a2, q)) <==>
                    pre.module_peer_with(mj, a2, q)),
                n == targets@.len(),
                k <= n,
                forall|ki: int, li: int|
                    0 <= ki < li < n ==> (#[trigger] targets@[ki]) != (#[trigger] targets@[li]),
                forall|j: int, l: int|
                    0 <= j < l < recipients@.len() ==> recipients@[j] != recipients@[l],
                forall|j: int| 0 <= j < recipients@.len() ==> recipients@[j] != addr,
                forall|j: int|
                    0 <= j < recipients@.len() ==> exists|ki: int|
                        0 <= ki < k && #[trigger] recipients@[j] == targets@[ki],
                forall|j: int, q: Peer|
                    0 <= j < recipients@.len() && (#[trigger] pre.peer_with(recipients@[j], q))
                        ==> !(sender_is_link && q.is_link),
                forall|ki: int|
                    0 <= ki < k && (#[trigger] targets@[ki]) != addr && !(sender_is_link && exists|
                        q: Peer,
                    |
                        #[trigger] pre.peer_with(targets@[ki], q) && q.is_link)
                        ==> recipients@.contains(targets@[ki]),
            decreases n - k,
        {
            let a = targets[k];
            let mut skip = a == addr;
            if !skip && sender_is_link {
                match reflector.find_peer(a) {
                    Some(q) => {
                        if q.is_link {
                            skip = true;
                            proof {
                                lemma_peer_with_module(*reflector, a, *q);
                                let mj = choose|mj: int|
                                    #[trigger] reflector.module_peer_with(mj, a, *q);
                                assert(pre.module_peer_with(mj, a, *q));
                                lemma_module_peer_with_peer_with(pre, a, *q);
                                assert(pre.peer_with(a, *q) && q.is_link);
                            }
                        }
                    },
                    None => {},
                }
            }
            if !skip {
                let ghost r0 = recipients@;
                recipients.push(a);
                proof {
                    assert forall|j: int, q: Peer|
                        0 <= j < recipients@.len() && (#[trigger] pre.peer_with(
                            recipients@[j],
                            q,
                        )) implies !(sender_is_link && q.is_link) by {
                        if j < r0.len() {
                            assert(recipients@[j] == r0[j]);
                        } else {
                            assert(recipients@[j] == a);
                            if sender_is_link && pre.peer_with(a, q) && q.is_link {
                                lemma_peer_with_module(pre, a, q);
                                let mj = choose|mj: int| #[trigger] pre.module_peer_with(mj, a, q);
                                assert(reflector.module_peer_with(mj, a, q));
                                lemma_module_peer_with_peer_with(*reflector, a, q);
                                lemma_peer_with_has(*reflector, a, q);
                                assert(false);
                            }
                        }
                    }
                    assert forall|j: int, l: int|
                        0 <= j < l < recipients@.len() implies recipients@[j] != recipients@[l] by {
                        if l == recipients@.len() - 1 {
                            assert(recipients@[j] == r0[j]);
                            let ki = choose|ki: int|
                                0 <= ki < k && #[trigger] r0[j] == targets@[ki];
                            assert(targets@[ki] != targets@[k as int]);
                        }
                    }
                    assert forall|ki: int|
                        0 <= ki < k + 1 && (#[trigger] targets@[ki]) != addr && !(sender_is_link
                        && exists|q: Peer|
                        #[trigger] pre.peer_with(targets@[ki], q) && q.is_link) implies recipients@.contains(
                        targets@[ki],
                    ) by {
                        if ki < k {
                            let w = choose|w: int| 0 <= w < r0.len() && r0[w] == targets@[ki];
                            assert(recipients@[w] == targets@[ki]);
                        } else {
                            assert(recipients@[recipients@.len() - 1] == targets@[ki]);
                        }
                    }
                }
            }
            k = k + 1;
        }
        proof {
            assert forall|a2: u64|
                (#[trigger] pre.user_has_addr(spec_base_callsign(stream.dst@), a2)) && a2 != addr
                    && !(spec_sender_link(pre, addr) && exists|q: Peer|
                    #[trigger] pre.peer_with(a2, q) && q.is_link) implies recipients@.contains(
                a2,
            ) by {
                assert(s2.user_has_addr(spec_base_callsign(stream.dst@), a2));
                assert(s3.user_has_addr(spec_base_callsign(stream.dst@), a2));
                assert(targets@.contains(a2));
                let ki = choose|ki: int| 0 <= ki < targets@.len() && targets@[ki] == a2;
            }
            assert forall|kk: int|
                0 <= kk < recipients@.len() implies pre.user_has_addr(
                spec_base_callsign(stream.dst@),
                #[trigger] recipients@[kk],
            ) by {
                let ki = choose|ki: int|
                    0 <= ki < targets@.len() && #[trigger] recipients@[kk] == targets@[ki];
                assert(targets@.contains(targets@[ki]));
                assert(s3.user_has_addr(spec_base_callsign(stream.dst@), recipients@[kk]));
                assert(s2.user_has_addr(spec_base_callsign(stream.dst@), recipients@[kk]));
                assert(recipients@[kk] != addr);
            }
        }
    }
    let ghost recs = recipients@;
    let ghost dl = spec_frame_delivery(pre, *stream, addr, frame_len);
    proof {
        assert(dl == PeerUpdate::Deliver {
            bytes: frame_len,
            is_broadcast,
            is_new,
            last_frame: stream.last_frame,
            stream_id: stream.stream_id,
        });
    }

    // deliver accounting and the unicast latch, one recipient at a time
    let nrec = recipients.len();
    let mut k: usize = 0;
    while k < nrec
        invariant
            reflector.wf(),
            reflector.same_but_modules(s3),
            nrec == recipients@.len(),
            recipients@ == recs,
            k <= nrec,
            dl == (PeerUpdate::Deliver {
                bytes: frame_len,
                is_broadcast,
                is_new,
                last_frame: stream.last_frame,
                stream_id: stream.stream_id,
            }),
            forall|j: int, l: int| 0 <= j < l < recs.len() ==> recs[j] != recs[l],
            forall|j: int| 0 <= j < recs.len() ==> recs[j] != addr,
            forall|j: int, mj: int, q: Peer|
                0 <= j < k && (#[trigger] s3.module_peer_with(mj, recs[j], q)) ==> reflector.module_peer_with(
                    mj,
                    recs[j],
                    spec_apply_update(dl, q),
                ),
            forall|mj: int, a2: u64, p: Peer|
                !recs.subrange(0, k as int).contains(a2) && (#[trigger] s3.module_peer_with(
                    mj,
                    a2,
                    p,
                )) ==> reflector.module_peer_with(mj, a2, p),
        decreases nrec - k,
    {
        let a = recipients[k];
        let ghost sb = *reflector;
        reflector.apply_peer_update(
            a,
            PeerUpdate::Deliver {
                bytes: frame_len,
                is_broadcast,
                is_new,
                last_frame: stream.last_frame,
                stream_id: stream.stream_id,
            },
        );
        proof {
            let sc = *reflector;
            assert(recs.subrange(0, k as int + 1) =~= recs.subrange(0, k as int).push(
                recs[k as int],
            ));
            assert forall|j: int, mj: int, q: Peer|
                0 <= j < k + 1 && (#[trigger] s3.module_peer_with(mj, recs[j], q)) implies sc.module_peer_with(
                mj,
                recs[j],
                spec_apply_update(dl, q),
            ) by {
                if j < k as int {
                    assert(sb.module_peer_with(mj, recs[j], spec_apply_update(dl, q)));
                    assert(recs[j] != recs[k as int]);
                } else {
                    assert(recs[j] == a);
                    assert(!recs.subrange(0, k as int).contains(a));
                    assert(sb.module_peer_with(mj, a, q));
                }
            }
            assert forall|mj: int, a2: u64, p: Peer|
                !recs.subrange(0, k as int + 1).contains(a2) && (#[trigger] s3.module_peer_with(
                    mj,
                    a2,
                    p,
                )) implies sc.module_peer_with(mj, a2, p) by {
                assert(!recs.subrange(0, k as int).contains(a2));
                assert(a2 != a) by {
                    if a2 == a {
                        assert(recs.subrange(0, k as int + 1)[k as int] == a);
                    }
                }
                assert(sb.module_peer_with(mj, a2, p));
            }
        }
        k = k + 1;
    }
    let ghost s4 = *reflector;
    proof {
        assert(recs.subrange(0, nrec as int) =~= recs);
    }

    let ended = stream.last_frame;
    if ended {
        reflector.end_stream(stream.stream_id, now_mono);
    }
    proof {
        let fin = *reflector;
        lemma_user_transfer(s2, s3);
        lemma_user_transfer(s3, s4);
        lemma_user_transfer(s4, fin);
        lemma_streams_transfer(s3, s4);
        lemma_registry_transfer(s4, fin);
        assert(!recs.contains(addr)) by {
            if recs.contains(addr) {
                let j = choose|j: int| 0 <= j < recs.len() && recs[j] == addr;
            }
        }
        // peer records: compose the origin bump, the deliveries, and the
        // untouched remainder through every intermediate state
        assert forall|mj: int, q: Peer|
            #[trigger] pre.module_peer_with(mj, addr, q) implies fin.module_peer_with(
            mj,
            addr,
            spec_apply_update(PeerUpdate::Rx { bytes: frame_len, now_mono }, q),
        ) by {
            let q2 = spec_apply_update(PeerUpdate::Rx { bytes: frame_len, now_mono }, q);
            assert(s1.module_peer_with(mj, addr, q2));
            assert(s3.module_peer_with(mj, addr, q2));
            assert(s4.module_peer_with(mj, addr, q2));
        }
        assert forall|j: int, mj: int, q: Peer|
            0 <= j < recs.len() && (#[trigger] pre.module_peer_with(mj, recs[j], q)) implies fin.module_peer_with(
            mj,
            recs[j],
            spec_apply_update(dl, q),
        ) by {
            assert(recs[j] != addr);
            assert(s1.module_peer_with(mj, recs[j], q));
            assert(s3.module_peer_with(mj, recs[j], q));
            assert(s4.module_peer_with(mj, recs[j], spec_apply_update(dl, q)));
        }
        assert forall|mj: int, a2: u64, p: Peer|
            a2 != addr && !recs.contains(a2) && (#[trigger] pre.module_peer_with(
                mj,
                a2,
                p,
            )) implies fin.module_peer_with(mj, a2, p) by {
            assert(s1.module_peer_with(mj, a2, p));
            assert(s3.module_peer_with(mj, a2, p));
            assert(!recs.subrange(0, nrec as int).contains(a2));
            assert(s4.module_peer_with(mj, a2, p));
        }
        // the stream lists, by case
        assert(pre.active_streams == s2.active_streams);
        if !ended {
            assert(s3.active_has(stream.stream_id));
            assert(fin.active_has(stream.stream_id));
        } else {
            assert(s4.active_has(stream.stream_id));
            assert(!fin.active_has(stream.stream_id));
            assert(fin.recent_streams@.len() > 0 && fin.recent_streams@.last().stream_id
                == stream.stream_id && fin.recent_streams@.last().end_time == Some(now_mono));
        }
        assert(fin.active_streams == s4.active_streams || ended);
        if is_new {
            // a fresh stream was admitted at the end of the active list
            assert(s3.active_streams@.drop_last() == pre.active_streams@);
            let news = s3.active_streams@.last();
            assert(news.stream_id == stream.stream_id && news.frames == 1 && news.start_time
                == now_mono && news.last_frame_time == now_mono && news.end_time is None);
            assert(news.callsign@ == stream.src@ && news.destination@ == stream.dst@ && news.peer
                == addr && news.is_broadcast == is_broadcast);
            assert(spec_admitted_stream(news, pre, *stream, addr, now_mono)) by {
                assert forall|q: Peer| #[trigger] pre.peer_with(addr, q) implies news.peer_callsign@
                    == q.callsign@ by {
                    lemma_peer_with_module(pre, addr, q);
                    let mj = choose|mj: int| #[trigger] pre.module_peer_with(mj, addr, q);
                    let q2 = spec_apply_update(PeerUpdate::Rx { bytes: frame_len, now_mono }, q);
                    assert(s1.module_peer_with(mj, addr, q2));
                    assert(s2.module_peer_with(mj, addr, q2));
                    lemma_module_peer_with_peer_with(s2, addr, q2);
                    assert(q2.callsign == q.callsign);
                }
            }
            if !ended {
                assert(fin.active_streams@.len() == pre.active_streams@.len() + 1);
                assert(fin.active_streams@.drop_last() == pre.active_streams@);
                assert(spec_admitted_stream(
                    fin.active_streams@.last(),
                    pre,
                    *stream,
                    addr,
                    now_mono,
                ));
            } else {
                // the single-frame stream was archived at once
                let i = choose|i: int|
                    0 <= i < s4.active_streams@.len() && (
                    #[trigger] s4.active_streams@[i]).stream_id == stream.stream_id
                        && fin.active_streams@ =~= s4.active_streams@.remove(i)
                        && fin.recent_streams@ =~= (
                    if s4.recent_streams@.len() < 50 {
                        s4.recent_streams@
                    } else {
                        s4.recent_streams@.subrange(1, s4.recent_streams@.len() as int)
                    }).push(StreamInfo { end_time: Some(now_mono), ..s4.active_streams@[i] });
                assert(i == s4.active_streams@.len() - 1) by {
                    if i < s4.active_streams@.len() - 1 {
                        assert(s4.active_streams@[i] == pre.active_streams@[i]);
                        assert(pre.active_has(stream.stream_id));
                    }
                }
                assert(fin.active_streams@ =~= pre.active_streams@);
                assert(fin.recent_streams@.last() == StreamInfo {
                    end_time: Some(now_mono),
                    ..news
                });
                assert(StreamInfo { end_time: None, ..fin.recent_streams@.last() } == news);
            }
        } else {
            // a running stream advanced by one frame
            let i0 = choose|i: int|
                0 <= i < pre.active_streams@.len() && (#[trigger] pre.active_streams@[i]).stream_id
                    == stream.stream_id && s3.active_streams@ =~= pre.active_streams@.update(
                    i,
                    StreamInfo {
                        frames: spec_sat_add32(pre.active_streams@[i].frames, 1),
                        last_frame_time: now_mono,
                        ..pre.active_streams@[i]
                    },
                );
            let bumped = StreamInfo {
                frames: spec_sat_add32(pre.active_streams@[i0].frames, 1),
                last_frame_time: now_mono,
                ..pre.active_streams@[i0]
            };
            if !ended {
                assert(fin.active_streams@ == pre.active_streams@.update(i0, bumped));
            } else {
                let i = choose|i: int|
                    0 <= i < s4.active_streams@.len() && (
                    #[trigger] s4.active_streams@[i]).stream_id == stream.stream_id
                        && fin.active_streams@ =~= s4.active_streams@.remove(i)
                        && fin.recent_streams@ =~= (
                    if s4.recent_streams@.len() < 50 {
                        s4.recent_streams@
                    } else {
                        s4.recent_streams@.subrange(1, s4.recent_streams@.len() as int)
                    }).push(StreamInfo { end_time: Some(now_mono), ..s4.active_streams@[i] });
                assert(i == i0) by {
                    if i != i0 {
                        assert(s4.active_streams@[i] == pre.active_streams@[i]);
                        assert(pre.active_streams@[i].stream_id
                            != pre.active_streams@[i0].stream_id);
                    }
                }
                assert(fin.active_streams@ =~= pre.active_streams@.remove(i0));
                assert(fin.recent_streams@.last() == StreamInfo {
                    end_time: Some(now_mono),
                    ..bumped
                });
                assert(fin.recent_streams@.last() == StreamInfo {
                    end_time: Some(now_mono),
                    frames: spec_sat_add32(pre.active_streams@[i0].frames, 1),
                    last_frame_time: now_mono,
                    ..pre.active_streams@[i0]
                });
            }
        }
    }
    RouteOutcome::Forwarded { recipients, ended }
}

/// In a well-formed registry the address names at most one module.
proof fn lemma_sender_module_unique(r: Reflector, addr: u64)
    requires
        r.wf(),
    ensures
        forall|mi: int, mj: int|
            r.valid_mi(mi) && r.valid_mi(mj) && (#[trigger] r.modules@[mi]).has_addr(addr) && (
            #[trigger] r.modules@[mj]).has_addr(addr) ==> mi == mj,
{
    assert forall|mi: int, mj: int|
        r.valid_mi(mi) && r.valid_mi(mj) && (#[trigger] r.modules@[mi]).has_addr(addr) && (
    #[trigger] r.modules@[mj]).has_addr(addr) implies mi == mj by {
        let pi = choose|pi: int|
            0 <= pi < r.modules@[mi].peers@.len() && (#[trigger] r.modules@[mi].peers@[pi]).address
                == addr;
        let pj = choose|pj: int|
            0 <= pj < r.modules@[mj].peers@.len() && (#[trigger] r.modules@[mj].peers@[pj]).address
                == addr;
        assert(r.peer_at(mi, pi).address == addr && r.peer_at(mj, pj).address == addr);
    }
}

/// Two peer records at one address are the same record.
proof fn lemma_peer_unique(r: Reflector, addr: u64, p: Peer, q: Peer)
    requires
        r.wf(),
        r.peer_with(addr, p),
        r.peer_with(addr, q),
    ensures
        p == q,
{
    let (mi, pi) = choose|mi: int, pi: int|
        r.valid_peer_idx(mi, pi) && #[trigger] r.peer_at(mi, pi) == p && p.address == addr;
    let (mj, pj) = choose|mj: int, pj: int|
        r.valid_peer_idx(mj, pj) && #[trigger] r.peer_at(mj, pj) == q && q.address == addr;
    assert(mi == mj && pi == pj);
}

/// A peer record held somewhere makes the address attached.
proof fn lemma_peer_with_has(r: Reflector, addr: u64, p: Peer)
    requires
        r.peer_with(addr, p),
    ensures
        r.has_peer(addr),
{
    let (mi, pi) = choose|mi: int, pi: int|
        r.valid_peer_idx(mi, pi) && #[trigger] r.peer_at(mi, pi) == p && p.address == addr;
    assert(r.peer_at(mi, pi).address == addr);
}

/// `peer_with` seen as membership in its module.
proof fn lemma_peer_with_module(r: Reflector, addr: u64, p: Peer)
    requires
        r.peer_with(addr, p),
    ensures
        exists|mi: int| #[trigger] r.module_peer_with(mi, addr, p),
{
    let (mi, pi) = choose|mi: int, pi: int|
        r.valid_peer_idx(mi, pi) && #[trigger] r.peer_at(mi, pi) == p && p.address == addr;
    assert(r.module_peer_with(mi, addr, p));
}

/// Module membership seen as `peer_with`.
proof fn lemma_module_peer_with_peer_with(r: Reflector, addr: u64, p: Peer)
    requires
        exists|mi: int| #[trigger] r.module_peer_with(mi, addr, p),
    ensures
        r.peer_with(addr, p),
{
    let mi = choose|mi: int| #[trigger] r.module_peer_with(mi, addr, p);
    let pi = choose|pi: int|
        0 <= pi < r.modules@[mi].peers@.len() && #[trigger] r.peer_at(mi, pi) == p && p.address
            == addr;
    assert(r.valid_peer_idx(mi, pi));
}

/// Pads a string with trailing spaces to nine characters.
fn pad9(s: String) -> (r: String)
    ensures
        r@ == spec_pad9(s@),
{
    let ghost orig = s@;
    let mut r = s;
    while r.unicode_len() < 9
        invariant
            spec_pad9(r@) == spec_pad9(orig),
        decreases 9 - r@.len(),
    {
        push_char(&mut r, ' ');
    }
    proof {
        assert(spec_pad9(r@) == r@);
    }
    r
}

} // verus!

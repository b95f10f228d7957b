//! The telemetry snapshot: a pure, read-only derivation of the registry
//! for the HTTP/WebSocket surface. The caller hands in both clocks; the
//! result is plain values that the surface serializes. The active and
//! recent stream lists are read directly from the registry's public
//! fields, which already hold plain values.

use vstd::prelude::*;
use crate::counter::{sat_add64, spec_sat_add64};
use crate::module::Module;
use crate::peer::Peer;
use crate::reflector::{Reflector, StreamInfo};

verus! {

/// One attached client, with its liveness stamp converted to wall time.
pub struct ClientRecord {
    pub address: u64,
    pub callsign: String,
    pub module: char,
    pub connected_at: u64,
    pub last_seen_wall: u64,
    pub packets_in: u64,
    pub bytes_in: u64,
}

/// Per-module aggregates.
pub struct ModuleCounts {
    pub module: char,
    pub clients: usize,
    pub active_streams: usize,
    pub total_packets: u64,
    pub total_bytes: u64,
}

/// The whole derived view.
pub struct Snapshot {
    pub name: String,
    pub uptime_ms: u64,
    pub total_clients: usize,
    pub total_packets: u64,
    pub total_bytes: u64,
    pub clients: Vec<ClientRecord>,
    pub modules: Vec<ModuleCounts>,
}

/// A monotonic liveness stamp converted to the wall clock: the wall time
/// minus the stamp's age, clamped at zero.
pub open spec fn spec_wall_of(last_seen: u64, now_wall: u64, now_mono: u64) -> u64 {
    let age = if last_seen <= now_mono {
        (now_mono - last_seen) as u64
    } else {
        0
    };
    if age <= now_wall {
        (now_wall - age) as u64
    } else {
        0
    }
}

/// Whether a client record presents this peer of this module.
pub open spec fn spec_client_of(
    c: ClientRecord,
    m: char,
    p: Peer,
    now_wall: u64,
    now_mono: u64,
) -> bool {
    c.address == p.address && c.callsign@ == p.callsign@ && c.module == m && c.connected_at
        == p.connected_at && c.last_seen_wall == spec_wall_of(p.last_seen, now_wall, now_mono)
        && c.packets_in == p.packets_in && c.bytes_in == p.bytes_in
}

/// The record presents some attached peer of the registry.
pub open spec fn client_in(c: ClientRecord, r: Reflector, now_wall: u64, now_mono: u64) -> bool {
    exists|mi: int, pi: int|
        r.valid_peer_idx(mi, pi) && spec_client_of(
            c,
            r.modules@[mi].name,
            #[trigger] r.peer_at(mi, pi),
            now_wall,
            now_mono,
        )
}

/// The record presents a peer from the slots before (`mcap`, `pcap`) in
/// module-major order.
pub open spec fn client_in_prefix(
    c: ClientRecord,
    r: Reflector,
    mcap: int,
    pcap: int,
    now_wall: u64,
    now_mono: u64,
) -> bool {
    exists|m: int, p: int|
        r.valid_peer_idx(m, p) && (m < mcap || (m == mcap && p < pcap)) && spec_client_of(
            c,
            r.modules@[m].name,
            #[trigger] r.peer_at(m, p),
            now_wall,
            now_mono,
        )
}

/// Some record of the list presents this peer of this module.
pub open spec fn peer_in_clients(
    m: char,
    p: Peer,
    cs: Seq<ClientRecord>,
    now_wall: u64,
    now_mono: u64,
) -> bool {
    exists|ci: int| 0 <= ci < cs.len() && spec_client_of(#[trigger] cs[ci], m, p, now_wall, now_mono)
}

/// Packets received by the first `n` peers, saturating.
pub open spec fn spec_sum_packets(peers: Seq<Peer>, n: int) -> u64
    decreases n,
{
    if n <= 0 {
        0
    } else {
        spec_sat_add64(spec_sum_packets(peers, n - 1), peers[n - 1].packets_in)
    }
}

/// Bytes received by the first `n` peers, saturating.
pub open spec fn spec_sum_bytes(peers: Seq<Peer>, n: int) -> u64
    decreases n,
{
    if n <= 0 {
        0
    } else {
        spec_sat_add64(spec_sum_bytes(peers, n - 1), peers[n - 1].bytes_in)
    }
}

/// Active streams on the module among the first `n`.
pub open spec fn spec_count_active(streams: Seq<StreamInfo>, m: char, n: int) -> int
    decreases n,
{
    if n <= 0 {
        0
    } else {
        spec_count_active(streams, m, n - 1) + (if streams[n - 1].module == m {
            1int
        } else {
            0
        })
    }
}

/// The aggregates of one module.
pub open spec fn spec_counts_of(mc: ModuleCounts, m: Module, active: Seq<StreamInfo>) -> bool {
    mc.module == m.name && mc.clients == m.peers@.len() && mc.active_streams as int
        == spec_count_active(active, m.name, active.len() as int) && mc.total_packets
        == spec_sum_packets(m.peers@, m.peers@.len() as int) && mc.total_bytes == spec_sum_bytes(
        m.peers@,
        m.peers@.len() as int,
    )
}

/// Packets across the first `n` aggregates, saturating.
pub open spec fn spec_total_packets(counts: Seq<ModuleCounts>, n: int) -> u64
    decreases n,
{
    if n <= 0 {
        0
    } else {
        spec_sat_add64(spec_total_packets(counts, n - 1), counts[n - 1].total_packets)
    }
}

/// Bytes across the first `n` aggregates, saturating.
pub open spec fn spec_total_bytes(counts: Seq<ModuleCounts>, n: int) -> u64
    decreases n,
{
    if n <= 0 {
        0
    } else {
        spec_sat_add64(spec_total_bytes(counts, n - 1), counts[n - 1].total_bytes)
    }
}

/// Derives the telemetry snapshot: one client record per attached peer,
/// one aggregate record per module in order, the uptime, and the client
/// total. The stream lists are read from the registry itself.
pub fn export_state(r: &Reflector, now_wall: u64, now_mono: u64) -> (s: Snapshot)
    requires
        r.wf(),
    ensures
        s.name@ == r.name@,
        s.uptime_ms == (if r.start_time <= now_mono {
            (now_mono - r.start_time) as u64
        } else {
            0
        }),
        s.total_clients == s.clients@.len(),
        // one record per peer, nothing else, no address twice
        forall|mi: int, pi: int|
            r.valid_peer_idx(mi, pi) ==> peer_in_clients(
                r.modules@[mi].name,
                #[trigger] r.peer_at(mi, pi),
                s.clients@,
                now_wall,
                now_mono,
            ),
        forall|ci: int|
            0 <= ci < s.clients@.len() ==> client_in(
                #[trigger] s.clients@[ci],
                *r,
                now_wall,
                now_mono,
            ),
        forall|ci: int, cj: int|
            0 <= ci < cj < s.clients@.len() ==> (#[trigger] s.clients@[ci]).address != (
            #[trigger] s.clients@[cj]).address,
        // one aggregate per module, in order
        s.modules@.len() == r.modules@.len(),
        forall|mi: int|
            r.valid_mi(mi) ==> spec_counts_of(
                #[trigger] s.modules@[mi],
                r.modules@[mi],
                r.active_streams@,
            ),
        s.total_packets == spec_total_packets(s.modules@, s.modules@.len() as int),
        s.total_bytes == spec_total_bytes(s.modules@, s.modules@.len() as int),
{
    let uptime_ms = if r.start_time <= now_mono {
        now_mono - r.start_time
    } else {
        0
    };
    let nm = r.modules.len();

    let mut clients: Vec<ClientRecord> = Vec::new();
    let mut mi: usize = 0;
    while mi < nm
        invariant
            r.wf(),
            nm == r.modules@.len(),
            mi <= nm,
            forall|ci: int|
                0 <= ci < clients@.len() ==> client_in_prefix(
                    #[trigger] clients@[ci],
                    *r,
                    mi as int,
                    0,
                    now_wall,
                    now_mono,
                ),
            forall|m: int, p: int|
                0 <= m < mi && 0 <= p < r.modules@[m].peers@.len() ==> peer_in_clients(
                    r.modules@[m].name,
                    #[trigger] r.peer_at(m, p),
                    clients@,
                    now_wall,
                    now_mono,
                ),
            forall|ci: int, cj: int|
                0 <= ci < cj < clients@.len() ==> (#[trigger] clients@[ci]).address != (
                #[trigger] clients@[cj]).address,
        decreases nm - mi,
    {
        let m = &r.modules[mi];
        let np = m.peers.len();
        let mut pi: usize = 0;
        while pi < np
            invariant
                r.wf(),
                m == r.modules@[mi as int],
                mi < r.modules@.len(),
                np == m.peers@.len(),
                pi <= np,
                forall|ci: int|
                    0 <= ci < clients@.len() ==> client_in_prefix(
                        #[trigger] clients@[ci],
                        *r,
                        mi as int,
                        pi as int,
                        now_wall,
                        now_mono,
                    ),
                forall|m2: int, p: int|
                    0 <= m2 < mi && 0 <= p < r.modules@[m2].peers@.len() ==> peer_in_clients(
                        r.modules@[m2].name,
                        #[trigger] r.peer_at(m2, p),
                        clients@,
                        now_wall,
                        now_mono,
                    ),
                forall|p: int|
                    0 <= p < pi ==> peer_in_clients(
                        r.modules@[mi as int].name,
                        #[trigger] r.peer_at(mi as int, p),
                        clients@,
                        now_wall,
                        now_mono,
                    ),
                forall|ci: int, cj: int|
                    0 <= ci < cj < clients@.len() ==> (#[trigger] clients@[ci]).address != (
                    #[trigger] clients@[cj]).address,
            decreases np - pi,
        {
            let p = &m.peers[pi];
            let age = if p.last_seen <= now_mono {
                now_mono - p.last_seen
            } else {
                0
            };
            let last_seen_wall = if age <= now_wall {
                now_wall - age
            } else {
                0
            };
            let rec = ClientRecord {
                address: p.address,
                callsign: crate::reflector::copy_str(p.callsign.as_str()),
                module: m.name,
                connected_at: p.connected_at,
                last_seen_wall,
                packets_in: p.packets_in,
                bytes_in: p.bytes_in,
            };
            let ghost c0 = clients@;
            proof {
                assert(r.peer_at(mi as int, pi as int) == *p);
                assert(r.valid_peer_idx(mi as int, pi as int));
                assert(spec_client_of(rec, m.name, *p, now_wall, now_mono));
            }
            clients.push(rec);
            proof {
                assert(clients@[clients@.len() - 1] == rec);
                assert forall|ci: int, cj: int|
                    0 <= ci < cj < clients@.len() implies (#[trigger] clients@[ci]).address != (
                #[trigger] clients@[cj]).address by {
                    if cj == clients@.len() - 1 {
                        assert(clients@[ci] == c0[ci]);
                        assert(client_in_prefix(c0[ci], *r, mi as int, pi as int, now_wall, now_mono));
                        let (m2, p2) = choose|m2: int, p2: int|
                            r.valid_peer_idx(m2, p2) && (m2 < mi as int || (m2 == mi as int && p2
                                < pi as int)) && spec_client_of(
                                c0[ci],
                                r.modules@[m2].name,
                                #[trigger] r.peer_at(m2, p2),
                                now_wall,
                                now_mono,
                            );
                        assert(r.peer_at(m2, p2).address != r.peer_at(mi as int, pi as int).address);
                    }
                }
                assert forall|ci: int|
                    0 <= ci < clients@.len() implies client_in_prefix(
                    #[trigger] clients@[ci],
                    *r,
                    mi as int,
                    pi as int + 1,
                    now_wall,
                    now_mono,
                ) by {
                    if ci < c0.len() {
                        assert(clients@[ci] == c0[ci]);
                        assert(client_in_prefix(c0[ci], *r, mi as int, pi as int, now_wall, now_mono));
                        let (m2, p2) = choose|m2: int, p2: int|
                            r.valid_peer_idx(m2, p2) && (m2 < mi as int || (m2 == mi as int && p2
                                < pi as int)) && spec_client_of(
                                c0[ci],
                                r.modules@[m2].name,
                                #[trigger] r.peer_at(m2, p2),
                                now_wall,
                                now_mono,
                            );
                        assert(spec_client_of(
                            clients@[ci],
                            r.modules@[m2].name,
                            r.peer_at(m2, p2),
                            now_wall,
                            now_mono,
                        ));
                    } else {
                        assert(spec_client_of(
                            clients@[ci],
                            r.modules@[mi as int].name,
                            r.peer_at(mi as int, pi as int),
                            now_wall,
                            now_mono,
                        ));
                    }
                }
                assert forall|p2: int|
                    0 <= p2 < pi + 1 implies peer_in_clients(
                    r.modules@[mi as int].name,
                    #[trigger] r.peer_at(mi as int, p2),
                    clients@,
                    now_wall,
                    now_mono,
                ) by {
                    if p2 < pi {
                        let ci = choose|ci: int|
                            0 <= ci < c0.len() && spec_client_of(
                                #[trigger] c0[ci],
                                r.modules@[mi as int].name,
                                r.peer_at(mi as int, p2),
                                now_wall,
                                now_mono,
                            );
                        assert(clients@[ci] == c0[ci]);
                        assert(spec_client_of(
                            clients@[ci],
                            r.modules@[mi as int].name,
                            r.peer_at(mi as int, p2),
                            now_wall,
                            now_mono,
                        ));
                    } else {
                        assert(spec_client_of(
                            clients@[clients@.len() - 1],
                            r.modules@[mi as int].name,
                            r.peer_at(mi as int, p2),
                            now_wall,
                            now_mono,
                        ));
                    }
                }
                assert forall|m2: int, p2: int|
                    0 <= m2 < mi as int && 0 <= p2 < r.modules@[m2].peers@.len() implies peer_in_clients(
                    r.modules@[m2].name,
                    #[trigger] r.peer_at(m2, p2),
                    clients@,
                    now_wall,
                    now_mono,
                ) by {
                    let ci = choose|ci: int|
                        0 <= ci < c0.len() && spec_client_of(
                            #[trigger] c0[ci],
                            r.modules@[m2].name,
                            r.peer_at(m2, p2),
                            now_wall,
                            now_mono,
                        );
                    assert(clients@[ci] == c0[ci]);
                    assert(spec_client_of(
                        clients@[ci],
                        r.modules@[m2].name,
                        r.peer_at(m2, p2),
                        now_wall,
                        now_mono,
                    ));
                }
            }
            pi = pi + 1;
        }
        proof {
            assert forall|ci: int|
                0 <= ci < clients@.len() implies client_in_prefix(
                #[trigger] clients@[ci],
                *r,
                mi as int + 1,
                0,
                now_wall,
                now_mono,
            ) by {
                assert(client_in_prefix(clients@[ci], *r, mi as int, np as int, now_wall, now_mono));
                let (m2, p2) = choose|m2: int, p2: int|
                    r.valid_peer_idx(m2, p2) && (m2 < mi as int || (m2 == mi as int && p2
                        < np as int)) && spec_client_of(
                        clients@[ci],
                        r.modules@[m2].name,
                        #[trigger] r.peer_at(m2, p2),
                        now_wall,
                        now_mono,
                    );
                assert(m2 < mi as int + 1);
            }
        }
        mi = mi + 1;
    }

    let na = r.active_streams.len();
    let mut counts: Vec<ModuleCounts> = Vec::new();
    let mut mi: usize = 0;
    while mi < nm
        invariant
            r.wf(),
            nm == r.modules@.len(),
            na == r.active_streams@.len(),
            mi <= nm,
            counts@.len() == mi,
            forall|m: int|
                0 <= m < mi ==> spec_counts_of(
                    #[trigger] counts@[m],
                    r.modules@[m],
                    r.active_streams@,
                ),
        decreases nm - mi,
    {
        let m = &r.modules[mi];
        let np = m.peers.len();
        let mut total_packets: u64 = 0;
        let mut total_bytes: u64 = 0;
        let mut pi: usize = 0;
        while pi < np
            invariant
                m == r.modules@[mi as int],
                mi < r.modules@.len(),
                np == m.peers@.len(),
                pi <= np,
                total_packets == spec_sum_packets(m.peers@, pi as int),
                total_bytes == spec_sum_bytes(m.peers@, pi as int),
            decreases np - pi,
        {
            total_packets = sat_add64(total_packets, m.peers[pi].packets_in);
            total_bytes = sat_add64(total_bytes, m.peers[pi].bytes_in);
            pi = pi + 1;
        }
        let mut active: usize = 0;
        let mut si: usize = 0;
        while si < na
            invariant
                m == r.modules@[mi as int],
                mi < r.modules@.len(),
                na == r.active_streams@.len(),
                si <= na,
                active as int == spec_count_active(r.active_streams@, m.name, si as int),
                active <= si,
            decreases na - si,
        {
            if r.active_streams[si].module == m.name {
                active = active + 1;
            }
            si = si + 1;
        }
        counts.push(
            ModuleCounts {
                module: m.name,
                clients: np,
                active_streams: active,
                total_packets,
                total_bytes,
            },
        );
        mi = mi + 1;
    }

    let nmc = counts.len();
    let mut total_packets: u64 = 0;
    let mut total_bytes: u64 = 0;
    let mut ci: usize = 0;
    while ci < nmc
        invariant
            nmc == counts@.len(),
            ci <= nmc,
            total_packets == spec_total_packets(counts@, ci as int),
            total_bytes == spec_total_bytes(counts@, ci as int),
        decreases nmc - ci,
    {
        total_packets = sat_add64(total_packets, counts[ci].total_packets);
        total_bytes = sat_add64(total_bytes, counts[ci].total_bytes);
        ci = ci + 1;
    }

    let total_clients = clients.len();
    let ghost csv = clients@;
    proof {
        assert forall|ci: int| 0 <= ci < csv.len() implies client_in(
            #[trigger] csv[ci],
            *r,
            now_wall,
            now_mono,
        ) by {
            assert(client_in_prefix(csv[ci], *r, nm as int, 0, now_wall, now_mono));
            let (m2, p2) = choose|m2: int, p2: int|
                r.valid_peer_idx(m2, p2) && (m2 < nm as int || (m2 == nm as int && p2 < 0))
                    && spec_client_of(
                    csv[ci],
                    r.modules@[m2].name,
                    #[trigger] r.peer_at(m2, p2),
                    now_wall,
                    now_mono,
                );
        }
    }
    let ghost countsv = counts@;
    let s = Snapshot {
        name: crate::reflector::copy_str(r.name.as_str()),
        uptime_ms,
        total_clients,
        total_packets,
        total_bytes,
        clients,
        modules: counts,
    };
    proof {
        assert(s.clients@ == csv);
        assert(s.modules@ == countsv);
    }
    s
}

} // verus!

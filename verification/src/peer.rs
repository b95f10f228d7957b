//! A peer: a remote UDP endpoint attached to one module. The endpoint is
//! identified by an opaque 64-bit address handle; the caller maps real
//! socket addresses to and from these handles. Times are milliseconds:
//! `connected_at` on the wall clock, `last_seen` on the monotonic clock.

use vstd::prelude::*;
use crate::counter::{sat_add64, spec_sat_add64};

verus! {

/// The role a peer attaches with.
pub enum PeerRole {
    /// An ordinary client: may source and receive streams.
    Client,
    /// Attached listen-only: may not source streams.
    Listen,
    /// A reflector-to-reflector link.
    Link,
}

/// A remote endpoint attached to a module.
pub struct Peer {
    pub callsign: String,
    pub address: u64,
    pub connected_at: u64,
    pub last_seen: u64,
    pub packets_in: u64,
    pub packets_out: u64,
    pub bytes_in: u64,
    pub bytes_out: u64,
    pub is_link: bool,
    pub listen_only: bool,
    pub receiving_unicast: Option<u16>,
}

impl Peer {
    /// A fresh peer record with zeroed counters and the given role flags.
    pub open spec fn spec_new(
        callsign: Seq<char>,
        address: u64,
        now_wall: u64,
        now_mono: u64,
        is_link: bool,
        listen_only: bool,
        p: Peer,
    ) -> bool {
        p.callsign@ == callsign && p.address == address && p.connected_at == now_wall
            && p.last_seen == now_mono && p.packets_in == 0 && p.packets_out == 0 && p.bytes_in == 0
            && p.bytes_out == 0 && p.is_link == is_link && p.listen_only == listen_only
            && p.receiving_unicast is None
    }

    /// A new ordinary client peer.
    pub fn new(callsign: String, address: u64, now_wall: u64, now_mono: u64) -> (p: Self)
        ensures
            Self::spec_new(callsign@, address, now_wall, now_mono, false, false, p),
    {
        Peer {
            callsign,
            address,
            connected_at: now_wall,
            last_seen: now_mono,
            packets_in: 0,
            packets_out: 0,
            bytes_in: 0,
            bytes_out: 0,
            is_link: false,
            listen_only: false,
            receiving_unicast: None,
        }
    }

    /// A new reflector-to-reflector link peer.
    pub fn new_link(callsign: String, address: u64, now_wall: u64, now_mono: u64) -> (p: Self)
        ensures
            Self::spec_new(callsign@, address, now_wall, now_mono, true, false, p),
    {
        let mut p = Self::new(callsign, address, now_wall, now_mono);
        p.is_link = true;
        p
    }

    /// A new listen-only peer.
    pub fn new_listen(callsign: String, address: u64, now_wall: u64, now_mono: u64) -> (p: Self)
        ensures
            Self::spec_new(callsign@, address, now_wall, now_mono, false, true, p),
    {
        let mut p = Self::new(callsign, address, now_wall, now_mono);
        p.listen_only = true;
        p
    }

    /// The peer after receiving a datagram of `bytes` bytes at `now`.
    pub open spec fn spec_rx_bumped(self, bytes: u64, now: u64) -> Peer {
        Peer {
            packets_in: spec_sat_add64(self.packets_in, 1),
            bytes_in: spec_sat_add64(self.bytes_in, bytes),
            last_seen: now,
            ..self
        }
    }

    /// The peer after being sent a datagram of `bytes` bytes.
    pub open spec fn spec_tx_bumped(self, bytes: u64) -> Peer {
        Peer {
            packets_out: spec_sat_add64(self.packets_out, 1),
            bytes_out: spec_sat_add64(self.bytes_out, bytes),
            ..self
        }
    }

    /// Accounts one received datagram.
    pub fn increment_rx(&mut self, bytes: usize, now_mono: u64)
        ensures
            *final(self) == old(self).spec_rx_bumped(bytes as u64, now_mono),
    {
        self.packets_in = sat_add64(self.packets_in, 1);
        self.bytes_in = sat_add64(self.bytes_in, bytes as u64);
        self.last_seen = now_mono;
    }

    /// Accounts one sent datagram.
    pub fn increment_tx(&mut self, bytes: usize)
        ensures
            *final(self) == old(self).spec_tx_bumped(bytes as u64),
    {
        self.packets_out = sat_add64(self.packets_out, 1);
        self.bytes_out = sat_add64(self.bytes_out, bytes as u64);
    }

    /// The unicast latch after one delivery, in the order the router applies
    /// it: a new unicast stream latches the recipient; the last frame of a
    /// unicast stream unlatches a recipient latched on that stream.
    pub open spec fn spec_latch_after(
        latch: Option<u16>,
        is_broadcast: bool,
        is_new: bool,
        last_frame: bool,
        stream_id: u16,
    ) -> Option<u16> {
        let set = if !is_broadcast && is_new {
            Some(stream_id)
        } else {
            latch
        };
        if !is_broadcast && last_frame && set == Some(stream_id) {
            None
        } else {
            set
        }
    }

    /// The peer after one delivery: sent-traffic counters bumped and the
    /// unicast latch advanced.
    pub open spec fn spec_delivered(
        self,
        bytes: u64,
        is_broadcast: bool,
        is_new: bool,
        last_frame: bool,
        stream_id: u16,
    ) -> Peer {
        Peer {
            receiving_unicast: Self::spec_latch_after(
                self.receiving_unicast,
                is_broadcast,
                is_new,
                last_frame,
                stream_id,
            ),
            ..self.spec_tx_bumped(bytes)
        }
    }

    /// Accounts one delivered datagram and advances the unicast latch.
    pub fn deliver(
        &mut self,
        bytes: usize,
        is_broadcast: bool,
        is_new: bool,
        last_frame: bool,
        stream_id: u16,
    )
        ensures
            *final(self) == old(self).spec_delivered(
                bytes as u64,
                is_broadcast,
                is_new,
                last_frame,
                stream_id,
            ),
    {
        self.increment_tx(bytes);
        if !is_broadcast && is_new {
            self.receiving_unicast = Some(stream_id);
        }
        if !is_broadcast && last_frame {
            match self.receiving_unicast {
                Some(id) => {
                    if id == stream_id {
                        self.receiving_unicast = None;
                    }
                },
                None => {},
            }
        }
    }
}

impl Peer {
    /// Applies one update in place.
    pub fn apply_update(&mut self, u: PeerUpdate)
        ensures
            *final(self) == spec_apply_update(u, *old(self)),
    {
        match u {
            PeerUpdate::Touch { now_mono } => {
                self.last_seen = now_mono;
            },
            PeerUpdate::Rx { bytes, now_mono } => {
                self.increment_rx(bytes, now_mono);
            },
            PeerUpdate::Deliver { bytes, is_broadcast, is_new, last_frame, stream_id } => {
                self.deliver(bytes, is_broadcast, is_new, last_frame, stream_id);
            },
        }
    }
}

/// One in-place change to a peer record: a liveness refresh, received-
/// traffic accounting, or delivery accounting with the unicast latch.
#[derive(Clone, Copy)]
pub enum PeerUpdate {
    Touch { now_mono: u64 },
    Rx { bytes: usize, now_mono: u64 },
    Deliver { bytes: usize, is_broadcast: bool, is_new: bool, last_frame: bool, stream_id: u16 },
}

/// The peer after applying one update. Never changes the address.
pub open spec fn spec_apply_update(u: PeerUpdate, p: Peer) -> Peer {
    match u {
        PeerUpdate::Touch { now_mono } => Peer { last_seen: now_mono, ..p },
        PeerUpdate::Rx { bytes, now_mono } => p.spec_rx_bumped(bytes as u64, now_mono),
        PeerUpdate::Deliver { bytes, is_broadcast, is_new, last_frame, stream_id } =>
            p.spec_delivered(bytes as u64, is_broadcast, is_new, last_frame, stream_id),
    }
}

} // verus!

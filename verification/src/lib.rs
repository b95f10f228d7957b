//! Verified core of a UDP voice-stream reflector for the M17 family of
//! amateur-radio protocols.
//!
//! The crate holds the wire codec (base-40 callsigns, CRC-16/M17, packet
//! parsing), the peer and module registry, the control-plane state machine,
//! the stream router, the periodic sweeps, and the telemetry snapshot.
//! Sockets, timers and the HTTP surface live outside: callers hand in the
//! received bytes together with the current clock readings, and send out
//! whatever datagrams the core returns.

use vstd::prelude::*;

pub mod callsign;
pub mod counter;
pub mod control;
pub mod crc;
pub mod reflector;
pub mod router;
pub mod snapshot;
pub mod module;
pub mod packet;
pub mod peer;
pub mod strutil;

verus! {

} // verus!

//! Wire packet parsing. A datagram is dispatched on its first four bytes:
//! the control magics `CONN`, `LSTN`, `ACKN`, `NACK`, `PING`, `PONG`,
//! `DISC`, or the stream magic `M17 ` introducing a 54-byte voice frame.
//! The packet-mode magic `M17P` is reserved and rejected.

use vstd::prelude::*;
use vstd::slice::slice_subrange;
use crate::callsign::{decode_callsign, spec_decode_callsign};
use crate::crc::{crc16_m17, spec_crc16};

verus! {

/// A parsed datagram: either a control packet or a stream frame.
pub enum Packet {
    Control(ControlKind),
    Stream(StreamPacket),
}

/// A parsed control packet.
pub enum ControlKind {
    Conn { from: String, module: char },
    Lstn { from: String, module: char },
    Ackn,
    Nack,
    Ping { from: String },
    Pong { from: String },
    Disc { from: String },
}

/// A parsed 54-byte stream frame. A CRC mismatch is surfaced in `crc_ok`,
/// not as a parse error: whether to drop such a frame is routing policy.
pub struct StreamPacket {
    pub stream_id: u16,
    pub dst: String,
    pub src: String,
    pub frame_num: u16,
    pub last_frame: bool,
    pub payload: [u8; 16],
    pub crc_ok: bool,
}

/// Why a datagram failed to parse.
#[derive(Debug, PartialEq, Eq)]
pub enum PacketError {
    InvalidLength,
    InvalidMagic,
    InvalidCrc,
}

/// Whether the datagram begins with the four given magic bytes.
pub open spec fn spec_magic_is(d: Seq<u8>, m0: u8, m1: u8, m2: u8, m3: u8) -> bool {
    d.len() >= 4 && d[0] == m0 && d[1] == m1 && d[2] == m2 && d[3] == m3
}

pub open spec fn is_conn(d: Seq<u8>) -> bool {
    spec_magic_is(d, 0x43u8, 0x4Fu8, 0x4Eu8, 0x4Eu8)
}

pub open spec fn is_lstn(d: Seq<u8>) -> bool {
    spec_magic_is(d, 0x4Cu8, 0x53u8, 0x54u8, 0x4Eu8)
}

pub open spec fn is_ackn(d: Seq<u8>) -> bool {
    spec_magic_is(d, 0x41u8, 0x43u8, 0x4Bu8, 0x4Eu8)
}

pub open spec fn is_nack(d: Seq<u8>) -> bool {
    spec_magic_is(d, 0x4Eu8, 0x41u8, 0x43u8, 0x4Bu8)
}

pub open spec fn is_ping(d: Seq<u8>) -> bool {
    spec_magic_is(d, 0x50u8, 0x49u8, 0x4Eu8, 0x47u8)
}

pub open spec fn is_pong(d: Seq<u8>) -> bool {
    spec_magic_is(d, 0x50u8, 0x4Fu8, 0x4Eu8, 0x47u8)
}

pub open spec fn is_disc(d: Seq<u8>) -> bool {
    spec_magic_is(d, 0x44u8, 0x49u8, 0x53u8, 0x43u8)
}

pub open spec fn is_m17_stream(d: Seq<u8>) -> bool {
    spec_magic_is(d, 0x4Du8, 0x31u8, 0x37u8, 0x20u8)
}

pub open spec fn is_m17_packet(d: Seq<u8>) -> bool {
    spec_magic_is(d, 0x4Du8, 0x31u8, 0x37u8, 0x50u8)
}

/// Any magic that parses to something.
pub open spec fn is_known_magic(d: Seq<u8>) -> bool {
    is_conn(d) || is_lstn(d) || is_ackn(d) || is_nack(d) || is_ping(d) || is_pong(d) || is_disc(d)
        || is_m17_stream(d)
}

/// Big-endian 16-bit value of two bytes.
pub open spec fn spec_be16(hi: u8, lo: u8) -> u16 {
    (((hi as u16) << 8) | (lo as u16)) as u16
}

/// What a successfully parsed packet holds, by variant. Each variant also
/// pins the magic and length that produce it, so a parser meeting
/// [`spec_parse_result`] cannot answer with the wrong variant.
pub open spec fn spec_packet_ok(d: Seq<u8>, p: Packet) -> bool {
    match p {
        Packet::Control(ControlKind::Conn { from, module }) => is_conn(d) && d.len() >= 11
            && from@ == spec_decode_callsign(d.subrange(4, 10)) && module == d[10] as char,
        Packet::Control(ControlKind::Lstn { from, module }) => is_lstn(d) && d.len() >= 11
            && from@ == spec_decode_callsign(d.subrange(4, 10)) && module == d[10] as char,
        Packet::Control(ControlKind::Ackn) => is_ackn(d),
        Packet::Control(ControlKind::Nack) => is_nack(d),
        Packet::Control(ControlKind::Ping { from }) => is_ping(d) && d.len() >= 10 && from@
            == spec_decode_callsign(d.subrange(4, 10)),
        Packet::Control(ControlKind::Pong { from }) => is_pong(d) && d.len() >= 10 && from@
            == spec_decode_callsign(d.subrange(4, 10)),
        Packet::Control(ControlKind::Disc { from }) => is_disc(d) && d.len() >= 10 && from@
            == spec_decode_callsign(d.subrange(4, 10)),
        Packet::Stream(sp) => is_m17_stream(d) && d.len() == 54 && sp.stream_id == spec_be16(
            d[4],
            d[5],
        ) && sp.dst@ == spec_decode_callsign(d.subrange(6, 12)) && sp.src@
            == spec_decode_callsign(d.subrange(12, 18)) && sp.frame_num == (spec_be16(d[34], d[35])
            & 0x7FFF) && sp.last_frame == ((spec_be16(d[34], d[35]) & 0x8000) != 0) && sp.payload@
            == d.subrange(36, 52) && sp.crc_ok == (spec_crc16(d.subrange(0, 52)) == spec_be16(
            d[52],
            d[53],
        )),
    }
}

/// Full characterization of the parser's answer on a datagram.
pub open spec fn spec_parse_result(d: Seq<u8>, r: Result<Packet, PacketError>) -> bool {
    match r {
        Ok(p) => spec_packet_ok(d, p),
        Err(PacketError::InvalidLength) => d.len() < 4 || ((is_conn(d) || is_lstn(d)) && d.len()
            < 11) || ((is_ping(d) || is_pong(d) || is_disc(d)) && d.len() < 10) || (is_m17_stream(d)
            && d.len() != 54),
        Err(PacketError::InvalidMagic) => d.len() >= 4 && !is_known_magic(d),
        Err(PacketError::InvalidCrc) => false,
    }
}

/// Copies six bytes starting at `off` into a callsign field.
fn read_callsign_field(data: &[u8], off: usize) -> (out: [u8; 6])
    requires
        off + 6 <= data@.len(),
    ensures
        out@ == data@.subrange(off as int, off as int + 6),
{
    let n = data.len();
    let mut out: [u8; 6] = [0u8, 0u8, 0u8, 0u8, 0u8, 0u8];
    let mut k: usize = 0;
    while k < 6
        invariant
            n == data@.len(),
            off + 6 <= n,
            k <= 6,
            forall|j: int| 0 <= j < k ==> out@[j] == data@[off + j],
        decreases 6 - k,
    {
        out[k] = data[off + k];
        k = k + 1;
    }
    proof {
        assert(out@ =~= data@.subrange(off as int, off as int + 6));
    }
    out
}

fn parse_conn(data: &[u8]) -> (r: Result<Packet, PacketError>)
    requires
        is_conn(data@),
    ensures
        spec_parse_result(data@, r),
{
    if data.len() < 11 {
        return Err(PacketError::InvalidLength);
    }
    let field = read_callsign_field(data, 4);
    let from = decode_callsign(&field);
    let module = data[10] as char;
    Ok(Packet::Control(ControlKind::Conn { from, module }))
}

fn parse_lstn(data: &[u8]) -> (r: Result<Packet, PacketError>)
    requires
        is_lstn(data@),
    ensures
        spec_parse_result(data@, r),
{
    if data.len() < 11 {
        return Err(PacketError::InvalidLength);
    }
    let field = read_callsign_field(data, 4);
    let from = decode_callsign(&field);
    let module = data[10] as char;
    Ok(Packet::Control(ControlKind::Lstn { from, module }))
}

fn parse_ping(data: &[u8]) -> (r: Result<Packet, PacketError>)
    requires
        is_ping(data@),
    ensures
        spec_parse_result(data@, r),
{
    if data.len() < 10 {
        return Err(PacketError::InvalidLength);
    }
    let field = read_callsign_field(data, 4);
    let from = decode_callsign(&field);
    Ok(Packet::Control(ControlKind::Ping { from }))
}

fn parse_pong(data: &[u8]) -> (r: Result<Packet, PacketError>)
    requires
        is_pong(data@),
    ensures
        spec_parse_result(data@, r),
{
    if data.len() < 10 {
        return Err(PacketError::InvalidLength);
    }
    let field = read_callsign_field(data, 4);
    let from = decode_callsign(&field);
    Ok(Packet::Control(ControlKind::Pong { from }))
}

fn parse_disc(data: &[u8]) -> (r: Result<Packet, PacketError>)
    requires
        is_disc(data@),
    ensures
        spec_parse_result(data@, r),
{
    if data.len() < 10 {
        return Err(PacketError::InvalidLength);
    }
    let field = read_callsign_field(data, 4);
    let from = decode_callsign(&field);
    Ok(Packet::Control(ControlKind::Disc { from }))
}

fn parse_stream(data: &[u8]) -> (r: Result<Packet, PacketError>)
    requires
        is_m17_stream(data@),
    ensures
        spec_parse_result(data@, r),
{
    if data.len() != 54 {
        return Err(PacketError::InvalidLength);
    }
    let head = slice_subrange(data, 0, 52);
    let crc_calc = crc16_m17(head);
    let crc_field = ((data[52] as u16) << 8) | (data[53] as u16);
    let crc_ok = crc_calc == crc_field;

    let stream_id = ((data[4] as u16) << 8) | (data[5] as u16);

    let dst_field = read_callsign_field(data, 6);
    let dst = decode_callsign(&dst_field);
    let src_field = read_callsign_field(data, 12);
    let src = decode_callsign(&src_field);

    let frame_num_raw = ((data[34] as u16) << 8) | (data[35] as u16);
    let last_frame = (frame_num_raw & 0x8000) != 0;
    let frame_num = frame_num_raw & 0x7FFF;

    let mut payload: [u8; 16] = [
        0u8,
        0u8,
        0u8,
        0u8,
        0u8,
        0u8,
        0u8,
        0u8,
        0u8,
        0u8,
        0u8,
        0u8,
        0u8,
        0u8,
        0u8,
        0u8,
    ];
    let mut k: usize = 0;
    while k < 16
        invariant
            data@.len() == 54,
            k <= 16,
            forall|j: int| 0 <= j < k ==> payload@[j] == data@[36 + j],
        decreases 16 - k,
    {
        payload[k] = data[36 + k];
        k = k + 1;
    }
    proof {
        assert(payload@ =~= data@.subrange(36, 52));
    }

    Ok(
        Packet::Stream(
            StreamPacket { stream_id, dst, src, frame_num, last_frame, payload, crc_ok },
        ),
    )
}

/// Parses one datagram, dispatching on its four-byte magic.
pub fn parse_packet(data: &[u8]) -> (r: Result<Packet, PacketError>)
    ensures
        spec_parse_result(data@, r),
{
    if data.len() < 4 {
        return Err(PacketError::InvalidLength);
    }
    let b0 = data[0];
    let b1 = data[1];
    let b2 = data[2];
    let b3 = data[3];
    if b0 == 0x43u8 && b1 == 0x4Fu8 && b2 == 0x4Eu8 && b3 == 0x4Eu8 {
        parse_conn(data)
    } else if b0 == 0x4Cu8 && b1 == 0x53u8 && b2 == 0x54u8 && b3 == 0x4Eu8 {
        parse_lstn(data)
    } else if b0 == 0x41u8 && b1 == 0x43u8 && b2 == 0x4Bu8 && b3 == 0x4Eu8 {
        Ok(Packet::Control(ControlKind::Ackn))
    } else if b0 == 0x4Eu8 && b1 == 0x41u8 && b2 == 0x43u8 && b3 == 0x4Bu8 {
        Ok(Packet::Control(ControlKind::Nack))
    } else if b0 == 0x50u8 && b1 == 0x49u8 && b2 == 0x4Eu8 && b3 == 0x47u8 {
        parse_ping(data)
    } else if b0 == 0x50u8 && b1 == 0x4Fu8 && b2 == 0x4Eu8 && b3 == 0x47u8 {
        parse_pong(data)
    } else if b0 == 0x44u8 && b1 == 0x49u8 && b2 == 0x53u8 && b3 == 0x43u8 {
        parse_disc(data)
    } else if b0 == 0x4Du8 && b1 == 0x31u8 && b2 == 0x37u8 && b3 == 0x20u8 {
        parse_stream(data)
    } else {
        Err(PacketError::InvalidMagic)
    }
}

} // verus!

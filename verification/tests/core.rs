use m17_reflector::callsign::{base_callsign, decode_callsign, encode_callsign};
use m17_reflector::control::{handle_control_packet, ControlReply};
use m17_reflector::crc::crc16_m17;
use m17_reflector::packet::{parse_packet, ControlKind, Packet, PacketError};
use m17_reflector::peer::PeerRole;
use m17_reflector::reflector::Reflector;
use m17_reflector::router::{route_stream_packet, RouteOutcome};
use m17_reflector::snapshot::export_state;

fn attach(r: &mut Reflector, callsign: &str, module: char, addr: u64) {
    assert!(r.add_peer(module, callsign.to_string(), addr, PeerRole::Client, 0, 0));
}

#[test]
fn crc_empty_is_ffff() {
    assert_eq!(crc16_m17(&[]), 0xFFFF);
}

#[test]
fn crc_matches_published_vectors() {
    assert_eq!(crc16_m17(b"A"), 0x206E);
    assert_eq!(crc16_m17(b"123456789"), 0x772B);
}

#[test]
fn callsign_roundtrip() {
    for s in ["N0CALL   ", "W1AW     ", "AB1CD-7  ", "K1/AB2CD ", "A........"] {
        assert_eq!(decode_callsign(&encode_callsign(s)), s);
    }
}

#[test]
fn callsign_encode_truncates_and_substitutes() {
    // longer than nine characters: only the first nine count
    assert_eq!(
        encode_callsign("ABCDEFGHIJKL"),
        encode_callsign("ABCDEFGHI")
    );
    // out-of-alphabet characters encode as space
    assert_eq!(encode_callsign("A#B"), encode_callsign("A B"));
    // lowercase is uppercased
    assert_eq!(encode_callsign("n0call"), encode_callsign("N0CALL"));
}

#[test]
fn callsign_reserved_values() {
    assert_eq!(decode_callsign(&[0xFF; 6]), "BROADCAST");
    assert_eq!(decode_callsign(&[0; 6]), "INVALID");
    // the least reserved value below BROADCAST
    assert_eq!(
        decode_callsign(&[0xEE, 0x6B, 0x28, 0x00, 0x00, 0x00]),
        "RESERVED-EE6B28000000"
    );
    assert_eq!(
        decode_callsign(&[0xFF, 0xFF, 0xFF, 0xFF, 0xFF, 0xFE]),
        "RESERVED-FFFFFFFFFFFE"
    );
}

#[test]
fn base_callsign_cuts_at_separator() {
    assert_eq!(base_callsign("  n0call-7 "), "N0CALL");
    assert_eq!(base_callsign("W1AW/M"), "W1AW");
    assert_eq!(base_callsign("K1ABC DEF"), "K1ABC");
    assert_eq!(base_callsign("   "), "");
}

#[test]
fn parse_rejects_bad_magic_and_length() {
    assert!(matches!(parse_packet(b"XY"), Err(PacketError::InvalidLength)));
    assert!(matches!(parse_packet(b"ZZZZ"), Err(PacketError::InvalidMagic)));
    assert!(matches!(parse_packet(b"M17P"), Err(PacketError::InvalidMagic)));
    assert!(matches!(parse_packet(b"CONNabc"), Err(PacketError::InvalidLength)));
}

fn conn_bytes(callsign: &str, module: u8) -> Vec<u8> {
    let mut d = b"CONN".to_vec();
    d.extend_from_slice(&encode_callsign(callsign));
    d.push(module);
    d
}

#[test]
fn attach_and_ack() {
    // a client attaches to module A and is acknowledged
    let mut r = Reflector::new("REF", &['A', 'B'], 0);
    let addr: u64 = 0x0102030400001388;
    let d = conn_bytes("N0CALL   ", b'A');
    let pkt = parse_packet(&d).unwrap();
    let ctrl = match pkt {
        Packet::Control(c) => c,
        _ => panic!("expected control"),
    };
    let reply = handle_control_packet(&ctrl, addr, &mut r, 0, 0);
    match reply {
        ControlReply::Reply(bytes) => assert_eq!(&bytes, b"ACKN"),
        _ => panic!("expected a reply"),
    }
    assert!(r.find_peer(addr).is_some());
    assert_eq!(r.find_peer(addr).unwrap().callsign, "N0CALL   ");
}

#[test]
fn reject_bad_module() {
    let mut r = Reflector::new("REF", &['A', 'B'], 0);
    let addr: u64 = 0x0102030400001388;
    let d = conn_bytes("N0CALL   ", b'Z');
    let ctrl = match parse_packet(&d).unwrap() {
        Packet::Control(c) => c,
        _ => panic!("expected control"),
    };
    let reply = handle_control_packet(&ctrl, addr, &mut r, 0, 0);
    match reply {
        ControlReply::Reply(bytes) => assert_eq!(&bytes, b"NACK"),
        _ => panic!("expected a reply"),
    }
    assert!(r.find_peer(addr).is_none());
}

#[test]
fn keepalive_ping_pong() {
    let mut r = Reflector::new("REF", &['A'], 0);
    let addr: u64 = 42;
    attach(&mut r, "N0CALL   ", 'A', addr);
    let mut d = b"PING".to_vec();
    d.extend_from_slice(&encode_callsign("N0CALL   "));
    let ctrl = match parse_packet(&d).unwrap() {
        Packet::Control(c) => c,
        _ => panic!("expected control"),
    };
    let reply = handle_control_packet(&ctrl, addr, &mut r, 7, 9);
    let mut expect = b"PONG".to_vec();
    expect.extend_from_slice(&encode_callsign("REF"));
    match reply {
        ControlReply::Reply(bytes) => assert_eq!(bytes, expect),
        _ => panic!("expected a reply"),
    }
    assert_eq!(r.find_peer(addr).unwrap().last_seen, 9);
}

#[test]
fn disconnect_removes_peer() {
    let mut r = Reflector::new("REF", &['A'], 0);
    let addr: u64 = 42;
    attach(&mut r, "N0CALL   ", 'A', addr);
    r.record_user("N0CALL   ", addr);
    let ctrl = ControlKind::Disc { from: "N0CALL   ".to_string() };
    let reply = handle_control_packet(&ctrl, addr, &mut r, 0, 0);
    assert!(matches!(reply, ControlReply::Reply(_)));
    assert!(r.find_peer(addr).is_none());
    assert!(r.find_user_peers("N0CALL   ").is_empty());
}

#[test]
fn user_map_tracks_and_purges_addresses() {
    let mut r = Reflector::new("REF", &['A'], 0);
    attach(&mut r, "W1AW     ", 'A', 7);
    attach(&mut r, "W1AW-2   ", 'A', 8);
    r.record_user("W1AW     ", 7);
    r.record_user("W1AW-2   ", 8);
    let peers = r.find_user_peers("W1AW");
    assert!(peers.contains(&7) && peers.contains(&8));
    r.remove_peer(7);
    let peers = r.find_user_peers("W1AW");
    assert!(!peers.contains(&7) && peers.contains(&8));
    assert!(r.find_peer(7).is_none());
}

#[test]
fn one_broadcast_per_module() {
    let mut r = Reflector::new("REF", &['A'], 0);
    attach(&mut r, "P1       ", 'A', 1);
    attach(&mut r, "P2       ", 'A', 2);
    assert!(r.record_stream_frame(0x1234, "P1       ", 'A', "ALL      ", 1, true, 0));
    // a second broadcast with a different id on the same module is refused
    assert!(!r.record_stream_frame(0x9999, "P2       ", 'A', "ALL      ", 2, true, 1));
    // a continuation of the running stream is fine
    assert!(r.record_stream_frame(0x1234, "P1       ", 'A', "ALL      ", 1, true, 2));
}

#[test]
fn last_frame_moves_stream_to_recent() {
    let mut r = Reflector::new("REF", &['A'], 0);
    attach(&mut r, "P1       ", 'A', 1);
    assert!(r.record_stream_frame(0x1234, "P1       ", 'A', "ALL      ", 1, true, 0));
    assert!(r.record_stream_frame(0x1234, "P1       ", 'A', "ALL      ", 1, true, 5));
    r.end_stream(0x1234, 6);
    assert_eq!(r.active_streams.len(), 0);
    let last = r.recent_streams.last().unwrap();
    assert_eq!(last.stream_id, 0x1234);
    assert_eq!(last.frames, 2);
    assert_eq!(last.end_time, Some(6));
    assert!(r.recent_streams.len() <= 50);
}

#[test]
fn recent_streams_capped_at_fifty() {
    let mut r = Reflector::new("REF", &['A'], 0);
    attach(&mut r, "P1       ", 'A', 1);
    for id in 0..60u16 {
        assert!(r.record_stream_frame(id, "P1       ", 'A', "W1AW     ", 1, false, id as u64));
        r.end_stream(id, id as u64 + 1);
    }
    assert_eq!(r.recent_streams.len(), 50);
    assert_eq!(r.recent_streams.last().unwrap().stream_id, 59);
}

#[test]
fn stream_frame_parses_with_crc() {
    let mut d = vec![0u8; 54];
    d[0..4].copy_from_slice(b"M17 ");
    d[4] = 0x12;
    d[5] = 0x34;
    d[6..12].copy_from_slice(&encode_callsign("ALL      "));
    d[12..18].copy_from_slice(&encode_callsign("N0CALL   "));
    d[34] = 0x80;
    d[35] = 0x01;
    let crc = crc16_m17(&d[..52]);
    d[52] = (crc >> 8) as u8;
    d[53] = (crc & 0xFF) as u8;
    match parse_packet(&d).unwrap() {
        Packet::Stream(sp) => {
            assert_eq!(sp.stream_id, 0x1234);
            assert_eq!(sp.dst, "ALL      ");
            assert_eq!(sp.src, "N0CALL   ");
            assert!(sp.last_frame);
            assert_eq!(sp.frame_num, 1);
            assert!(sp.crc_ok);
        },
        _ => panic!("expected stream"),
    }
    // flip one payload byte: parses, but crc_ok is false
    d[40] ^= 0xFF;
    match parse_packet(&d).unwrap() {
        Packet::Stream(sp) => assert!(!sp.crc_ok),
        _ => panic!("expected stream"),
    }
}

fn stream_bytes(src: &str, dst: &str, stream_id: u16, frame_raw: u16) -> Vec<u8> {
    let mut d = vec![0u8; 54];
    d[0..4].copy_from_slice(b"M17 ");
    d[4] = (stream_id >> 8) as u8;
    d[5] = (stream_id & 0xFF) as u8;
    d[6..12].copy_from_slice(&encode_callsign(dst));
    d[12..18].copy_from_slice(&encode_callsign(src));
    d[34] = (frame_raw >> 8) as u8;
    d[35] = (frame_raw & 0xFF) as u8;
    let crc = crc16_m17(&d[..52]);
    d[52] = (crc >> 8) as u8;
    d[53] = (crc & 0xFF) as u8;
    d
}

fn parse_stream_pkt(d: &[u8]) -> m17_reflector::packet::StreamPacket {
    match parse_packet(d).unwrap() {
        Packet::Stream(sp) => sp,
        _ => panic!("expected stream"),
    }
}

#[test]
fn broadcast_fan_out() {
    let mut r = Reflector::new("REF", &['A'], 0);
    attach(&mut r, "P1       ", 'A', 1);
    attach(&mut r, "P2       ", 'A', 2);
    attach(&mut r, "P3       ", 'A', 3);
    let d = stream_bytes("P1       ", "ALL      ", 0x1234, 0);
    let sp = parse_stream_pkt(&d);
    match route_stream_packet(&sp, 54, 1, &mut r, false, 0) {
        RouteOutcome::Forwarded { mut recipients, ended } => {
            recipients.sort();
            assert_eq!(recipients, vec![2, 3]);
            assert!(!ended);
        }
        _ => panic!("expected forward"),
    }
    assert!(r.has_active(0x1234));
    // a second broadcast on the same module is refused
    let d2 = stream_bytes("P2       ", "ALL      ", 0x9999, 0);
    let sp2 = parse_stream_pkt(&d2);
    assert!(matches!(
        route_stream_packet(&sp2, 54, 2, &mut r, false, 0),
        RouteOutcome::Dropped(_)
    ));
}

#[test]
fn unicast_routing() {
    let mut r = Reflector::new("REF", &['A'], 0);
    attach(&mut r, "P1       ", 'A', 1);
    attach(&mut r, "W1AW     ", 'A', 2);
    // P2 transmitted earlier under W1AW, so the user index knows it
    let warm = stream_bytes("W1AW     ", "ALL      ", 0x0001, 0x8000);
    let spw = parse_stream_pkt(&warm);
    route_stream_packet(&spw, 54, 2, &mut r, false, 0);
    let d = stream_bytes("P1       ", "W1AW     ", 0x2222, 0);
    let sp = parse_stream_pkt(&d);
    match route_stream_packet(&sp, 54, 1, &mut r, false, 1) {
        RouteOutcome::Forwarded { recipients, .. } => assert_eq!(recipients, vec![2]),
        _ => panic!("expected forward"),
    }
    // the recipient is latched on the new unicast stream
    assert_eq!(r.find_peer(2).unwrap().receiving_unicast, Some(0x2222));
    // while latched, a broadcast on the module is withheld from the peer
    let b = stream_bytes("P1       ", "ALL      ", 0x3333, 0);
    match route_stream_packet(&parse_stream_pkt(&b), 54, 1, &mut r, false, 2) {
        RouteOutcome::Forwarded { recipients, .. } => assert!(!recipients.contains(&2)),
        _ => panic!("expected forward"),
    }
    assert_eq!(r.find_peer(2).unwrap().receiving_unicast, Some(0x2222));
    // the unicast's last frame releases the latch
    let e = stream_bytes("P1       ", "W1AW     ", 0x2222, 0x8001);
    route_stream_packet(&parse_stream_pkt(&e), 54, 1, &mut r, false, 3);
    assert_eq!(r.find_peer(2).unwrap().receiving_unicast, None);
}

#[test]
fn stream_traffic_is_accounted() {
    let mut r = Reflector::new("REF", &['A'], 0);
    attach(&mut r, "P1       ", 'A', 1);
    attach(&mut r, "P2       ", 'A', 2);
    let d = stream_bytes("P1       ", "ALL      ", 0x1234, 0);
    match route_stream_packet(&parse_stream_pkt(&d), 54, 1, &mut r, false, 7) {
        RouteOutcome::Forwarded { .. } => {},
        _ => panic!("expected forward"),
    }
    let p1 = r.find_peer(1).unwrap();
    assert_eq!(p1.packets_in, 1);
    assert_eq!(p1.bytes_in, 54);
    assert_eq!(p1.last_seen, 7);
    let p2 = r.find_peer(2).unwrap();
    assert_eq!(p2.packets_out, 1);
    assert_eq!(p2.bytes_out, 54);
}

#[test]
fn emptied_user_map_keys_are_pruned() {
    let mut r = Reflector::new("REF", &['A'], 0);
    attach(&mut r, "W1AW     ", 'A', 7);
    r.record_user("W1AW     ", 7);
    assert_eq!(r.user_map.len(), 1);
    r.remove_peer(7);
    assert_eq!(r.user_map.len(), 0);
}

#[test]
fn strict_crc_drops_bad_frames() {
    let mut r = Reflector::new("REF", &['A'], 0);
    attach(&mut r, "P1       ", 'A', 1);
    let mut d = stream_bytes("P1       ", "ALL      ", 0x1234, 0);
    d[40] ^= 0xFF;
    let sp = parse_stream_pkt(&d);
    assert!(matches!(
        route_stream_packet(&sp, 54, 1, &mut r, true, 0),
        RouteOutcome::Dropped(_)
    ));
    assert!(!r.has_active(0x1234));
}

#[test]
fn listen_only_peer_cannot_source() {
    let mut r = Reflector::new("REF", &['A'], 0);
    assert!(r.add_peer('A', "L1       ".to_string(), 9, PeerRole::Listen, 0, 0));
    attach(&mut r, "P1       ", 'A', 1);
    let d = stream_bytes("L1       ", "ALL      ", 0x0007, 0);
    let sp = parse_stream_pkt(&d);
    assert!(matches!(
        route_stream_packet(&sp, 54, 9, &mut r, false, 0),
        RouteOutcome::Dropped(_)
    ));
}

#[test]
fn link_to_link_frames_are_not_forwarded() {
    let mut r = Reflector::new("REF", &['A'], 0);
    r.add_link_peer('A', "LINK1    ".to_string(), 11, 0, 0);
    r.add_link_peer('A', "LINK2    ".to_string(), 12, 0, 0);
    attach(&mut r, "P1       ", 'A', 1);
    let d = stream_bytes("LINK1    ", "ALL      ", 0x0042, 0);
    let sp = parse_stream_pkt(&d);
    match route_stream_packet(&sp, 54, 11, &mut r, false, 0) {
        RouteOutcome::Forwarded { recipients, .. } => {
            assert!(recipients.contains(&1));
            assert!(!recipients.contains(&12));
        }
        _ => panic!("expected forward"),
    }
}

#[test]
fn last_frame_ends_stream_via_router() {
    let mut r = Reflector::new("REF", &['A'], 0);
    attach(&mut r, "P1       ", 'A', 1);
    attach(&mut r, "P2       ", 'A', 2);
    let d = stream_bytes("P1       ", "ALL      ", 0x1234, 0);
    route_stream_packet(&parse_stream_pkt(&d), 54, 1, &mut r, false, 0);
    let d2 = stream_bytes("P1       ", "ALL      ", 0x1234, 0x8001);
    match route_stream_packet(&parse_stream_pkt(&d2), 54, 1, &mut r, false, 1) {
        RouteOutcome::Forwarded { ended, .. } => assert!(ended),
        _ => panic!("expected forward"),
    }
    assert!(!r.has_active(0x1234));
    let last = r.recent_streams.last().unwrap();
    assert_eq!(last.stream_id, 0x1234);
    assert_eq!(last.frames, 2);
    assert!(last.end_time.is_some());
}

#[test]
fn silence_timeout_archives_stream() {
    let mut r = Reflector::new("REF", &['A'], 0);
    attach(&mut r, "P1       ", 'A', 1);
    attach(&mut r, "W1AW     ", 'A', 2);
    r.record_user("W1AW     ", 2);
    // a unicast stream latches its target, then goes silent
    let d = stream_bytes("P1       ", "W1AW     ", 0x1234, 0);
    match route_stream_packet(&parse_stream_pkt(&d), 54, 1, &mut r, false, 100) {
        RouteOutcome::Forwarded { recipients, .. } => assert_eq!(recipients, vec![2]),
        _ => panic!("expected forward"),
    }
    assert_eq!(r.find_peer(2).unwrap().receiving_unicast, Some(0x1234));
    // nothing heard for more than a second: the sweep ends the stream
    // and releases the latch
    r.silence_sweep(1_300, 1_000);
    assert!(!r.has_active(0x1234));
    let last = r.recent_streams.last().unwrap();
    assert_eq!(last.stream_id, 0x1234);
    assert_eq!(last.end_time, Some(1_300));
    assert_eq!(r.find_peer(2).unwrap().receiving_unicast, None);
}

#[test]
fn stale_peers_are_listed_for_eviction() {
    let mut r = Reflector::new("REF", &['A'], 0);
    attach(&mut r, "P1       ", 'A', 1);
    attach(&mut r, "P2       ", 'A', 2);
    // refresh P2 at t=40s; P1 was last seen at t=0
    r.apply_peer_update(2, m17_reflector::peer::PeerUpdate::Touch { now_mono: 40_000 });
    let pings = r.all_peer_addrs();
    assert!(pings.contains(&1) && pings.contains(&2));
    let stale = r.stale_peers(40_000, 30_000);
    assert!(stale.contains(&1) && !stale.contains(&2));
    for a in stale {
        r.remove_peer(a);
    }
    assert!(r.find_peer(1).is_none() && r.find_peer(2).is_some());
}

#[test]
fn snapshot_reports_clients_and_aggregates() {
    let mut r = Reflector::new("REF", &['A', 'B'], 100);
    attach(&mut r, "P1       ", 'A', 1);
    attach(&mut r, "P2       ", 'A', 2);
    attach(&mut r, "P3       ", 'B', 3);
    let d = stream_bytes("P1       ", "ALL      ", 0x1234, 0);
    route_stream_packet(&parse_stream_pkt(&d), 54, 1, &mut r, false, 500);
    let s = export_state(&r, 1_000_000, 600);
    assert_eq!(s.name, "REF");
    assert_eq!(s.uptime_ms, 500);
    assert_eq!(s.total_clients, 3);
    let p1 = s.clients.iter().find(|c| c.address == 1).unwrap();
    assert_eq!(p1.callsign, "P1       ");
    assert_eq!(p1.module, 'A');
    assert_eq!(p1.packets_in, 1);
    assert_eq!(p1.bytes_in, 54);
    // last seen at monotonic 500, read at monotonic 600 and wall 1 000 000
    assert_eq!(p1.last_seen_wall, 999_900);
    let ma = s.modules.iter().find(|m| m.module == 'A').unwrap();
    assert_eq!(ma.clients, 2);
    assert_eq!(ma.active_streams, 1);
    assert_eq!(ma.total_packets, 1);
    assert_eq!(ma.total_bytes, 54);
    let mb = s.modules.iter().find(|m| m.module == 'B').unwrap();
    assert_eq!(mb.clients, 1);
    assert_eq!(mb.active_streams, 0);
    assert_eq!(s.total_packets, 1);
    assert_eq!(s.total_bytes, 54);
}

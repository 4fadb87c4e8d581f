use netmon::addr::Ipv4Address;
use netmon::sniffer::{Endpoint, TrafficCache, handle_capture};

fn udp_frame(src: [u8; 4], sport: u16, dst: [u8; 4], dport: u16, payload: usize) -> Vec<u8> {
    let mut b = vec![0u8; 20 + 8 + payload];
    b[0] = 0x45; // version 4, header length 5 * 4 = 20
    b[9] = 17; // UDP
    b[12..16].copy_from_slice(&src);
    b[16..20].copy_from_slice(&dst);
    b[20] = (sport >> 8) as u8;
    b[21] = (sport & 0xFF) as u8;
    b[22] = (dport >> 8) as u8;
    b[23] = (dport & 0xFF) as u8;
    b
}

fn ep(a: u8, b: u8, c: u8, d: u8, port: u16) -> Endpoint {
    Endpoint { ip: Ipv4Address { oct0: a, oct1: b, oct2: c, oct3: d }, port }
}

#[test]
fn outbound_packet_counts_payload_towards_destination() {
    let mut cache = TrafficCache::new();
    let tracked_ports = vec![7777u16];
    let frame = udp_frame([192, 168, 0, 2], 7777, [8, 8, 8, 8], 27015, 100);
    handle_capture(&mut cache, &tracked_ports, &frame, 1000);
    assert_eq!(cache.len(), 1);
    let e = cache.entry_at(0);
    assert_eq!(e.endpoint, ep(8, 8, 8, 8, 27015));
    assert_eq!(e.stats.total_sent, 100);
    assert_eq!(e.stats.total_recv, 0);
    assert_eq!(e.stats.last_seen, 1000);
}

#[test]
fn inbound_packet_counts_whole_frame_from_source() {
    let mut cache = TrafficCache::new();
    let tracked_ports = vec![7777u16];
    let frame = udp_frame([8, 8, 4, 4], 27015, [192, 168, 0, 2], 7777, 100);
    handle_capture(&mut cache, &tracked_ports, &frame, 2000);
    assert_eq!(cache.len(), 1);
    let e = cache.entry_at(0);
    assert_eq!(e.endpoint, ep(8, 8, 4, 4, 27015));
    assert_eq!(e.stats.total_sent, 0);
    // The whole captured frame, headers included.
    assert_eq!(e.stats.total_recv, 128);
    assert_eq!(e.stats.last_seen, 2000);
}

#[test]
fn counters_accumulate_and_refresh_last_seen() {
    let mut cache = TrafficCache::new();
    let tracked_ports = vec![7777u16];
    let f1 = udp_frame([192, 168, 0, 2], 7777, [8, 8, 8, 8], 27015, 100);
    let f2 = udp_frame([192, 168, 0, 2], 7777, [8, 8, 8, 8], 27015, 50);
    handle_capture(&mut cache, &tracked_ports, &f1, 1000);
    handle_capture(&mut cache, &tracked_ports, &f2, 3000);
    assert_eq!(cache.len(), 1);
    let e = cache.entry_at(0);
    assert_eq!(e.stats.total_sent, 150);
    assert_eq!(e.stats.last_seen, 3000);
}

#[test]
fn short_buffer_is_ignored_without_touching_the_cache() {
    let mut cache = TrafficCache::new();
    let tracked_ports = vec![7777u16];
    let seed = udp_frame([192, 168, 0, 2], 7777, [8, 8, 8, 8], 27015, 10);
    handle_capture(&mut cache, &tracked_ports, &seed, 500);
    // Shorter than a minimal IPv4 header.
    handle_capture(&mut cache, &tracked_ports, &[0x45u8; 19], 600);
    handle_capture(&mut cache, &tracked_ports, &[], 600);
    assert_eq!(cache.len(), 1);
    let e = cache.entry_at(0);
    assert_eq!(e.stats.total_sent, 10);
    assert_eq!(e.stats.last_seen, 500);
}

#[test]
fn frame_shorter_than_declared_headers_is_ignored() {
    let mut cache = TrafficCache::new();
    let tracked_ports = vec![7777u16];
    // Declares a 24-byte IPv4 header but only 26 bytes follow in all.
    let mut frame = udp_frame([192, 168, 0, 2], 7777, [8, 8, 8, 8], 27015, 0);
    frame[0] = 0x46;
    frame.truncate(26);
    handle_capture(&mut cache, &tracked_ports, &frame, 700);
    assert_eq!(cache.len(), 0);
}

#[test]
fn non_udp_protocol_is_ignored() {
    let mut cache = TrafficCache::new();
    let tracked_ports = vec![7777u16];
    let mut frame = udp_frame([192, 168, 0, 2], 7777, [8, 8, 8, 8], 27015, 10);
    frame[9] = 6; // TCP
    handle_capture(&mut cache, &tracked_ports, &frame, 700);
    assert_eq!(cache.len(), 0);
}

#[test]
fn untracked_ports_are_ignored() {
    let mut cache = TrafficCache::new();
    let tracked_ports = vec![7777u16];
    let frame = udp_frame([192, 168, 0, 2], 5000, [8, 8, 8, 8], 6000, 10);
    handle_capture(&mut cache, &tracked_ports, &frame, 700);
    assert_eq!(cache.len(), 0);
}

#[test]
fn private_remote_addresses_are_ignored() {
    let mut cache = TrafficCache::new();
    let tracked_ports = vec![7777u16];
    // Outbound to a private destination.
    let f1 = udp_frame([192, 168, 0, 2], 7777, [10, 0, 0, 1], 27015, 10);
    // Inbound from a private source.
    let f2 = udp_frame([192, 168, 0, 3], 27015, [192, 168, 0, 2], 7777, 10);
    handle_capture(&mut cache, &tracked_ports, &f1, 700);
    handle_capture(&mut cache, &tracked_ports, &f2, 700);
    assert_eq!(cache.len(), 0);
}

#[test]
fn source_port_match_takes_precedence_over_destination() {
    // Both ports tracked: the frame counts as outbound.
    let mut cache = TrafficCache::new();
    let tracked_ports = vec![7777u16, 27015u16];
    let frame = udp_frame([8, 8, 4, 4], 7777, [8, 8, 8, 8], 27015, 40);
    handle_capture(&mut cache, &tracked_ports, &frame, 700);
    assert_eq!(cache.len(), 1);
    let e = cache.entry_at(0);
    assert_eq!(e.endpoint, ep(8, 8, 8, 8, 27015));
    assert_eq!(e.stats.total_sent, 40);
    assert_eq!(e.stats.total_recv, 0);
}

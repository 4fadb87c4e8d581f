use netmon::addr::Ipv4Address;
use netmon::conn_table::{NetworkConnection, Protocol};
use netmon::session::{MonitorError, MonitorState, add_detected_ip_to_routes};
use netmon::sniffer::Endpoint;

fn ip(a: u8, b: u8, c: u8, d: u8) -> Ipv4Address {
    Ipv4Address { oct0: a, oct1: b, oct2: c, oct3: d }
}

fn game_ep() -> Endpoint {
    Endpoint { ip: ip(8, 8, 8, 8), port: 27015 }
}

#[test]
fn start_twice_fails_and_leaves_the_first_session_untouched() {
    let mut st = MonitorState::new();
    assert_eq!(st.start_monitoring("game.exe".to_string(), Some(1234)), Ok(()));
    assert!(st.is_monitoring);
    let r = st.start_monitoring("other.exe".to_string(), Some(5678));
    assert_eq!(r, Err(MonitorError::AlreadyMonitoring));
    assert!(st.is_monitoring);
    assert_eq!(st.process_name, Some("game.exe".to_string()));
}

#[test]
fn start_without_resolved_process_fails() {
    let mut st = MonitorState::new();
    let r = st.start_monitoring("absent.exe".to_string(), None);
    assert_eq!(r, Err(MonitorError::ProcessNotFound));
    assert!(!st.is_monitoring);
    assert_eq!(st.process_name, None);
}

#[test]
fn stop_without_active_session_fails() {
    let mut st = MonitorState::new();
    assert_eq!(st.stop_monitoring(), Err(MonitorError::NoActiveSession));
    st.start_monitoring("game.exe".to_string(), Some(1)).unwrap();
    assert_eq!(st.stop_monitoring(), Ok(()));
    assert!(!st.is_monitoring);
    assert_eq!(st.stop_monitoring(), Err(MonitorError::NoActiveSession));
}

#[test]
fn stopping_keeps_the_last_snapshot_readable() {
    let mut st = MonitorState::new();
    st.start_monitoring("game.exe".to_string(), Some(1)).unwrap();
    st.traffic_cache.record_sent(game_ep(), 100, 0);
    st.aggregate_tick(&Vec::new(), vec![7777], 0, 2000);
    st.stop_monitoring().unwrap();
    let snap = st.get_detected_servers().unwrap();
    assert_eq!(snap.len(), 1);
}

#[test]
fn rates_follow_the_counter_differences() {
    // total_sent samples 0, 500, 1200 at t = 0 s, 2 s, 4 s:
    // the rate is 250 B/s at t = 2 s and 350 B/s at t = 4 s.
    let mut st = MonitorState::new();
    st.start_monitoring("game.exe".to_string(), Some(1)).unwrap();

    st.traffic_cache.record_sent(game_ep(), 0, 0);
    st.aggregate_tick(&Vec::new(), vec![7777], 0, 2000);
    let snap = st.get_detected_servers().unwrap();
    assert_eq!(snap.len(), 1);
    assert_eq!(snap[0].send_rate, 0);

    st.traffic_cache.record_sent(game_ep(), 500, 2000);
    st.aggregate_tick(&Vec::new(), vec![7777], 2000, 2000);
    let snap = st.get_detected_servers().unwrap();
    assert_eq!(snap[0].send_rate, 250);

    st.traffic_cache.record_sent(game_ep(), 700, 4000);
    st.aggregate_tick(&Vec::new(), vec![7777], 4000, 2000);
    let snap = st.get_detected_servers().unwrap();
    assert_eq!(snap[0].send_rate, 350);
}

#[test]
fn counter_rollback_counts_the_whole_current_total() {
    let mut st = MonitorState::new();
    st.start_monitoring("game.exe".to_string(), Some(1)).unwrap();
    st.traffic_cache.record_sent(game_ep(), 1000, 0);
    st.aggregate_tick(&Vec::new(), vec![7777], 0, 2000);
    // The cache restarts from zero and accumulates 300 bytes.
    st.traffic_cache.retain_fresh(u64::MAX); // clear by evicting everything
    st.traffic_cache.record_sent(game_ep(), 300, 2000);
    st.aggregate_tick(&Vec::new(), vec![7777], 2000, 2000);
    let snap = st.get_detected_servers().unwrap();
    // 300 < 1000: the whole current total is the difference, not zero.
    assert_eq!(snap[0].send_rate, 150);
}

#[test]
fn stale_entries_are_evicted_and_fresh_ones_kept() {
    // An entry last seen 31 s ago is absent from the next snapshot; one
    // last seen 29 s ago is present.
    let mut st = MonitorState::new();
    st.start_monitoring("game.exe".to_string(), Some(1)).unwrap();
    let stale = Endpoint { ip: ip(1, 1, 1, 1), port: 111 };
    let fresh = Endpoint { ip: ip(8, 8, 8, 8), port: 222 };
    let now: u64 = 100_000;
    st.traffic_cache.record_sent(stale, 10, now - 31_000);
    st.traffic_cache.record_sent(fresh, 10, now - 29_000);
    st.aggregate_tick(&Vec::new(), vec![7777], now, 2000);
    let snap = st.get_detected_servers().unwrap();
    assert_eq!(snap.len(), 1);
    assert_eq!(snap[0].ip, ip(8, 8, 8, 8));
    assert_eq!(snap[0].port, 222);
    assert!(snap[0].is_game_server);
}

#[test]
fn snapshot_lists_tcp_then_udp_with_flags() {
    let mut st = MonitorState::new();
    st.start_monitoring("game.exe".to_string(), Some(1)).unwrap();
    let conn = NetworkConnection {
        remote_ip: ip(203, 0, 113, 9),
        remote_port: 443,
        local_port: 50000,
        protocol: Protocol::Tcp,
        state: Some(5),
        bytes_sent_per_sec: 0,
        bytes_recv_per_sec: 0,
    };
    st.traffic_cache.record_recv(game_ep(), 500, 1000);
    st.aggregate_tick(&vec![conn], vec![7777], 1000, 2000);
    let snap = st.get_detected_servers().unwrap();
    assert_eq!(snap.len(), 2);
    assert_eq!(snap[0].ip, ip(203, 0, 113, 9));
    assert_eq!(snap[0].protocol, Protocol::Tcp);
    assert!(!snap[0].is_game_server);
    assert_eq!(snap[0].send_rate, 0);
    assert_eq!(snap[0].recv_rate, 0);
    assert_eq!(snap[1].ip, ip(8, 8, 8, 8));
    assert_eq!(snap[1].protocol, Protocol::Udp);
    assert!(snap[1].is_game_server);
    assert_eq!(snap[1].recv_rate, 250);
}

#[test]
fn tracked_ports_are_replaced_each_tick() {
    let mut st = MonitorState::new();
    st.start_monitoring("game.exe".to_string(), Some(1)).unwrap();
    st.aggregate_tick(&Vec::new(), vec![1000, 2000], 0, 2000);
    assert_eq!(st.tracked_ports, vec![1000, 2000]);
    st.aggregate_tick(&Vec::new(), vec![3000], 2000, 2000);
    assert_eq!(st.tracked_ports, vec![3000]);
}

#[test]
fn each_address_is_asked_about_at_most_once_per_session() {
    let mut st = MonitorState::new();
    st.start_monitoring("game.exe".to_string(), Some(1)).unwrap();
    st.traffic_cache.record_sent(game_ep(), 100, 0);
    let req1 = st.aggregate_tick(&Vec::new(), vec![7777], 0, 2000);
    assert_eq!(req1, vec![ip(8, 8, 8, 8)]);
    // The next tick must not ask again, even though no answer arrived.
    st.traffic_cache.record_sent(game_ep(), 100, 2000);
    let req2 = st.aggregate_tick(&Vec::new(), vec![7777], 2000, 2000);
    assert_eq!(req2.len(), 0);
    // A failed lookup is cached as unknown and still not retried.
    st.geo_note_result(ip(8, 8, 8, 8), None);
    st.traffic_cache.record_sent(game_ep(), 100, 4000);
    let req3 = st.aggregate_tick(&Vec::new(), vec![7777], 4000, 2000);
    assert_eq!(req3.len(), 0);
}

#[test]
fn a_found_location_appears_in_later_snapshots() {
    let mut st = MonitorState::new();
    st.start_monitoring("game.exe".to_string(), Some(1)).unwrap();
    st.traffic_cache.record_sent(game_ep(), 100, 0);
    st.aggregate_tick(&Vec::new(), vec![7777], 0, 2000);
    let snap = st.get_detected_servers().unwrap();
    assert_eq!(snap[0].country, None);
    st.geo_note_result(ip(8, 8, 8, 8), Some("Seoul, South Korea".to_string()));
    st.traffic_cache.record_sent(game_ep(), 100, 2000);
    st.aggregate_tick(&Vec::new(), vec![7777], 2000, 2000);
    let snap = st.get_detected_servers().unwrap();
    assert_eq!(snap[0].country, Some("Seoul, South Korea".to_string()));
}

#[test]
fn route_addition_rejects_non_public_addresses() {
    assert_eq!(
        add_detected_ip_to_routes("192.168.1.5".to_string()),
        Err(MonitorError::InvalidAddress)
    );
    assert_eq!(
        add_detected_ip_to_routes("203.0.113.9".to_string()),
        Ok("203.0.113.9".to_string())
    );
    assert_eq!(
        add_detected_ip_to_routes("not an ip".to_string()),
        Err(MonitorError::InvalidAddress)
    );
    assert_eq!(
        add_detected_ip_to_routes("127.0.0.1".to_string()),
        Err(MonitorError::InvalidAddress)
    );
}

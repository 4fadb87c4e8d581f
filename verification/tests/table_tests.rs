use netmon::addr::Ipv4Address;
use netmon::conn_table::{NetworkConnection, Protocol, parse_tcp_connections, parse_udp_ports};

fn push_dword(buf: &mut Vec<u8>, v: u32) {
    buf.push((v & 0xFF) as u8);
    buf.push(((v >> 8) & 0xFF) as u8);
    buf.push(((v >> 16) & 0xFF) as u8);
    buf.push(((v >> 24) & 0xFF) as u8);
}

fn ip_dword(a: u8, b: u8, c: u8, d: u8) -> u32 {
    a as u32 | ((b as u32) << 8) | ((c as u32) << 16) | ((d as u32) << 24)
}

fn port_dword(p: u16) -> u32 {
    // Network byte order in the low two bytes.
    (((p >> 8) & 0xFF) | ((p & 0xFF) << 8)) as u32
}

fn tcp_table(rows: &[(u32, u32, u16, u32, u16, u32)]) -> Vec<u8> {
    // (state, local_addr, local_port, remote_addr, remote_port, pid)
    let mut buf = Vec::new();
    push_dword(&mut buf, rows.len() as u32);
    for &(state, laddr, lport, raddr, rport, pid) in rows {
        push_dword(&mut buf, state);
        push_dword(&mut buf, laddr);
        push_dword(&mut buf, port_dword(lport));
        push_dword(&mut buf, raddr);
        push_dword(&mut buf, port_dword(rport));
        push_dword(&mut buf, pid);
    }
    buf
}

#[test]
fn keeps_only_rows_of_the_process_with_public_remotes() {
    let buf = tcp_table(&[
        (5, ip_dword(192, 168, 0, 2), 50000, ip_dword(8, 8, 8, 8), 443, 1234),
        (5, ip_dword(192, 168, 0, 2), 50001, ip_dword(192, 168, 0, 1), 443, 1234),
        (5, ip_dword(192, 168, 0, 2), 50002, ip_dword(1, 1, 1, 1), 80, 9999),
        (5, ip_dword(192, 168, 0, 2), 50003, ip_dword(203, 0, 113, 9), 7777, 1234),
    ]);
    let conns = parse_tcp_connections(&buf, 1234);
    assert_eq!(conns.len(), 2);
    assert_eq!(
        conns[0],
        NetworkConnection {
            remote_ip: Ipv4Address { oct0: 8, oct1: 8, oct2: 8, oct3: 8 },
            remote_port: 443,
            local_port: 50000,
            protocol: Protocol::Tcp,
            state: Some(5),
            bytes_sent_per_sec: 0,
            bytes_recv_per_sec: 0,
        }
    );
    assert_eq!(conns[1].remote_ip, Ipv4Address { oct0: 203, oct1: 0, oct2: 113, oct3: 9 });
    assert_eq!(conns[1].remote_port, 7777);
}

#[test]
fn short_or_raced_buffers_yield_nothing() {
    // Too short for even the row count.
    assert_eq!(parse_tcp_connections(&[0, 0], 1).len(), 0);
    // Declares more rows than the buffer holds (the table grew between
    // the size query and the fill).
    let mut buf = tcp_table(&[(5, 0, 1, ip_dword(8, 8, 8, 8), 2, 1)]);
    buf[0] = 2;
    assert_eq!(parse_tcp_connections(&buf, 1).len(), 0);
    // Truncated row.
    let mut buf2 = tcp_table(&[(5, 0, 1, ip_dword(8, 8, 8, 8), 2, 1)]);
    buf2.pop();
    assert_eq!(parse_tcp_connections(&buf2, 1).len(), 0);
}

fn udp_table(rows: &[(u32, u16, u32)]) -> Vec<u8> {
    // (local_addr, local_port, pid)
    let mut buf = Vec::new();
    push_dword(&mut buf, rows.len() as u32);
    for &(laddr, lport, pid) in rows {
        push_dword(&mut buf, laddr);
        push_dword(&mut buf, port_dword(lport));
        push_dword(&mut buf, pid);
    }
    buf
}

#[test]
fn udp_ports_filtered_by_process_and_deduplicated() {
    let buf = udp_table(&[
        (ip_dword(0, 0, 0, 0), 7000, 42),
        (ip_dword(0, 0, 0, 0), 7001, 43),
        (ip_dword(127, 0, 0, 1), 7000, 42),
        (ip_dword(0, 0, 0, 0), 7002, 42),
    ]);
    let ports = parse_udp_ports(&buf, 42);
    assert_eq!(ports, vec![7000, 7002]);
}

#[test]
fn udp_ports_on_empty_table() {
    let buf = udp_table(&[]);
    assert_eq!(parse_udp_ports(&buf, 42).len(), 0);
    assert_eq!(parse_udp_ports(&[], 42).len(), 0);
}

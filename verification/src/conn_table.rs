//! Decoding of the process-owner-annotated connection tables that the OS
//! hands back as raw buffers: a row count followed by fixed-layout rows of
//! little-endian dwords.  The decoder is bounds-checked throughout; a
//! buffer whose declared row count no longer fits (the table shrank or
//! grew between the size query and the fill) yields an empty result.

use vstd::prelude::*;
use crate::addr::{Ipv4Address, is_public_spec, ipv4_from_dword, port_from_dword};

verus! {

/// The transport protocol of a connection.
#[derive(Clone, Copy, Debug, PartialEq, Eq, Structural)]
pub enum Protocol {
    Tcp,
    Udp,
}

/// One connection of the monitored process: produced fresh at each table
/// read, never persisted.  The rate fields are fixed at zero here; only
/// the traffic cache carries measured rates.
#[derive(Clone, Copy, Debug, PartialEq, Eq, Structural)]
pub struct NetworkConnection {
    pub remote_ip: Ipv4Address,
    pub remote_port: u16,
    pub local_port: u16,
    pub protocol: Protocol,
    /// The raw state dword of a TCP row; absent for UDP.
    pub state: Option<u32>,
    pub bytes_sent_per_sec: u64,
    pub bytes_recv_per_sec: u64,
}

/// The little-endian dword at byte offset `off`.
pub open spec fn dword_at(b: Seq<u8>, off: int) -> u32 {
    (b[off] as int + 256 * (b[off + 1] as int) + 65536 * (b[off + 2] as int) + 16777216 * (b[off
        + 3] as int)) as u32
}

fn read_dword(b: &[u8], off: usize) -> (r: u32)
    requires
        off + 4 <= b@.len(),
    ensures
        r == dword_at(b@, off as int),
{
    let b0 = b[off] as u32;
    let b1 = b[off + 1] as u32;
    let b2 = b[off + 2] as u32;
    let b3 = b[off + 3] as u32;
    b0 + 256 * b1 + 65536 * b2 + 16777216 * b3
}

/// The row count a table buffer declares.
pub open spec fn table_row_count(b: Seq<u8>) -> int {
    dword_at(b, 0) as int
}

/// Whether a table buffer is long enough for the rows it declares, each
/// row being `row_size` bytes after the four-byte count.
pub open spec fn table_wf(b: Seq<u8>, row_size: int) -> bool {
    b.len() >= 4 && 4 + row_size * table_row_count(b) <= b.len()
}

/// A TCP table row is six dwords: state, local address, local port,
/// remote address, remote port, owning process.
pub open spec fn tcp_row_state(b: Seq<u8>, k: int) -> u32 {
    dword_at(b, 4 + 24 * k)
}

pub open spec fn tcp_row_local_port(b: Seq<u8>, k: int) -> u32 {
    dword_at(b, 4 + 24 * k + 8)
}

pub open spec fn tcp_row_remote_ip(b: Seq<u8>, k: int) -> Ipv4Address {
    ipv4_from_dword(dword_at(b, 4 + 24 * k + 12))
}

pub open spec fn tcp_row_remote_port(b: Seq<u8>, k: int) -> u32 {
    dword_at(b, 4 + 24 * k + 16)
}

pub open spec fn tcp_row_pid(b: Seq<u8>, k: int) -> u32 {
    dword_at(b, 4 + 24 * k + 20)
}

/// A TCP row is reported when the monitored process owns it and its
/// remote address is public.
pub open spec fn tcp_row_selected(b: Seq<u8>, k: int, pid: u32) -> bool {
    tcp_row_pid(b, k) == pid && is_public_spec(tcp_row_remote_ip(b, k))
}

pub open spec fn tcp_row_conn(b: Seq<u8>, k: int) -> NetworkConnection {
    NetworkConnection {
        remote_ip: tcp_row_remote_ip(b, k),
        remote_port: port_from_dword(tcp_row_remote_port(b, k)),
        local_port: port_from_dword(tcp_row_local_port(b, k)),
        protocol: Protocol::Tcp,
        state: Some(tcp_row_state(b, k)),
        bytes_sent_per_sec: 0,
        bytes_recv_per_sec: 0,
    }
}

/// The connections selected among the first `k` rows, in row order.
pub open spec fn tcp_conns_prefix(b: Seq<u8>, pid: u32, k: int) -> Seq<NetworkConnection>
    decreases k,
{
    if k <= 0 {
        Seq::empty()
    } else {
        tcp_conns_prefix(b, pid, k - 1) + if tcp_row_selected(b, k - 1, pid) {
            seq![tcp_row_conn(b, k - 1)]
        } else {
            Seq::empty()
        }
    }
}

/// What a TCP table buffer yields for one process: its selected rows, or
/// nothing when the buffer does not hold the rows it declares.
pub open spec fn tcp_connections_spec(b: Seq<u8>, pid: u32) -> Seq<NetworkConnection> {
    if table_wf(b, 24) {
        tcp_conns_prefix(b, pid, table_row_count(b))
    } else {
        Seq::empty()
    }
}

/// Decode a TCP connection table, keeping the rows owned by `pid` whose
/// remote address is public.
pub fn parse_tcp_connections(buf: &[u8], pid: u32) -> (r: Vec<NetworkConnection>)
    ensures
        r@ == tcp_connections_spec(buf@, pid),
{
    let mut r: Vec<NetworkConnection> = Vec::new();
    if buf.len() < 4 {
        return r;
    }
    let count = read_dword(buf, 0);
    let len64 = buf.len() as u64;
    if count as u64 > (len64 - 4) / 24 {
        proof {
            assert(24 * (count as int) > len64 - 4) by (nonlinear_arith)
                requires
                    count as u64 > (len64 - 4) / 24,
                    len64 >= 4,
            ;
            assert(!table_wf(buf@, 24));
        }
        return r;
    }
    proof {
        assert(24 * (count as int) <= len64 - 4) by (nonlinear_arith)
            requires
                count as u64 <= (len64 - 4) / 24,
                len64 >= 4,
        ;
        assert(table_wf(buf@, 24));
    }
    let n = count as usize;
    let mut k: usize = 0;
    while k < n
        invariant
            n == table_row_count(buf@),
            table_wf(buf@, 24),
            4 + 24 * n <= buf@.len(),
            buf@.len() <= usize::MAX,
            k <= n,
            r@ == tcp_conns_prefix(buf@, pid, k as int),
        decreases n - k,
    {
        proof {
            assert(24 * (k as int) + 24 <= 24 * (n as int)) by (nonlinear_arith)
                requires
                    k < n,
            ;
        }
        let off = 4 + 24 * k;
        let row_pid = read_dword(buf, off + 20);
        if row_pid == pid {
            let ip_dword = read_dword(buf, off + 12);
            let remote_ip = crate::addr::dword_to_ipv4(ip_dword);
            if remote_ip.is_public() {
                let conn = NetworkConnection {
                    remote_ip,
                    remote_port: crate::addr::port_to_host(read_dword(buf, off + 16)),
                    local_port: crate::addr::port_to_host(read_dword(buf, off + 8)),
                    protocol: Protocol::Tcp,
                    state: Some(read_dword(buf, off)),
                    bytes_sent_per_sec: 0,
                    bytes_recv_per_sec: 0,
                };
                r.push(conn);
            }
        }
        k = k + 1;
        proof {
            assert(r@ =~= tcp_conns_prefix(buf@, pid, k as int));
        }
    }
    r
}

/// A UDP table row is three dwords: local address, local port, owning
/// process.
pub open spec fn udp_row_port(b: Seq<u8>, k: int) -> u16 {
    port_from_dword(dword_at(b, 4 + 12 * k + 4))
}

pub open spec fn udp_row_pid(b: Seq<u8>, k: int) -> u32 {
    dword_at(b, 4 + 12 * k + 8)
}

/// The local ports owned by `pid` among the first `k` rows, first
/// occurrence of each port only.
pub open spec fn udp_ports_prefix(b: Seq<u8>, pid: u32, k: int) -> Seq<u16>
    decreases k,
{
    if k <= 0 {
        Seq::empty()
    } else {
        let prev = udp_ports_prefix(b, pid, k - 1);
        if udp_row_pid(b, k - 1) == pid && !prev.contains(udp_row_port(b, k - 1)) {
            prev.push(udp_row_port(b, k - 1))
        } else {
            prev
        }
    }
}

/// What a UDP table buffer yields for one process: the set of its bound
/// local ports, or nothing when the buffer does not hold the rows it
/// declares.
pub open spec fn udp_ports_spec(b: Seq<u8>, pid: u32) -> Seq<u16> {
    if table_wf(b, 12) {
        udp_ports_prefix(b, pid, table_row_count(b))
    } else {
        Seq::empty()
    }
}

/// Whether a port list holds a port.
pub fn contains_port(v: &Vec<u16>, p: u16) -> (r: bool)
    ensures
        r == v@.contains(p),
{
    let mut i: usize = 0;
    while i < v.len()
        invariant
            i <= v@.len(),
            forall|j: int| 0 <= j < i ==> v@[j] != p,
        decreases v@.len() - i,
    {
        if v[i] == p {
            return true;
        }
        i = i + 1;
    }
    false
}

/// Decode a UDP table, collecting the distinct local ports bound by
/// `pid`.
pub fn parse_udp_ports(buf: &[u8], pid: u32) -> (r: Vec<u16>)
    ensures
        r@ == udp_ports_spec(buf@, pid),
{
    let mut r: Vec<u16> = Vec::new();
    if buf.len() < 4 {
        return r;
    }
    let count = read_dword(buf, 0);
    let len64 = buf.len() as u64;
    if count as u64 > (len64 - 4) / 12 {
        proof {
            assert(12 * (count as int) > len64 - 4) by (nonlinear_arith)
                requires
                    count as u64 > (len64 - 4) / 12,
                    len64 >= 4,
            ;
            assert(!table_wf(buf@, 12));
        }
        return r;
    }
    proof {
        assert(12 * (count as int) <= len64 - 4) by (nonlinear_arith)
            requires
                count as u64 <= (len64 - 4) / 12,
                len64 >= 4,
        ;
        assert(table_wf(buf@, 12));
    }
    let n = count as usize;
    let mut k: usize = 0;
    while k < n
        invariant
            n == table_row_count(buf@),
            table_wf(buf@, 12),
            4 + 12 * n <= buf@.len(),
            buf@.len() <= usize::MAX,
            k <= n,
            r@ == udp_ports_prefix(buf@, pid, k as int),
        decreases n - k,
    {
        proof {
            assert(12 * (k as int) + 12 <= 12 * (n as int)) by (nonlinear_arith)
                requires
                    k < n,
            ;
        }
        let off = 4 + 12 * k;
        let row_pid = read_dword(buf, off + 8);
        if row_pid == pid {
            let port = crate::addr::port_to_host(read_dword(buf, off + 4));
            if !contains_port(&r, port) {
                r.push(port);
            }
        }
        k = k + 1;
    }
    r
}

} // verus!

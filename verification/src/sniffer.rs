//! Per-packet logic of the capture task: bounds-checked decoding of the
//! fixed-layout IPv4 and UDP headers of a captured frame, classification
//! against the tracked local ports, and the byte accounting kept in the
//! traffic cache.  Sent traffic counts the UDP payload only; received
//! traffic counts the whole captured frame — the asymmetry is kept for
//! wire-compatibility with existing consumers of the numbers.

use vstd::prelude::*;
use crate::addr::{Ipv4Address, is_public_spec};
use crate::conn_table::contains_port;

verus! {

/// Cumulative byte counters for one remote endpoint, with the time the
/// endpoint was last seen, in milliseconds on the monitor's clock.
#[derive(Clone, Copy, Debug, PartialEq, Eq, Structural)]
pub struct TrafficStats {
    pub last_seen: u64,
    pub total_sent: u64,
    pub total_recv: u64,
}

impl TrafficStats {
    /// Fresh counters for an endpoint first seen at `now`.
    pub fn new(now: u64) -> (r: TrafficStats)
        ensures
            r == (TrafficStats { last_seen: now, total_sent: 0, total_recv: 0 }),
    {
        TrafficStats { last_seen: now, total_sent: 0, total_recv: 0 }
    }
}

/// A remote endpoint: the key of the traffic cache.
#[derive(Clone, Copy, Debug, PartialEq, Eq, Structural, Hash)]
pub struct Endpoint {
    pub ip: Ipv4Address,
    pub port: u16,
}

/// One traffic-cache entry.
#[derive(Clone, Copy, Debug, PartialEq, Eq, Structural)]
pub struct CacheEntry {
    pub endpoint: Endpoint,
    pub stats: TrafficStats,
}

/// Whether some entry holds the endpoint.
pub open spec fn has_endpoint(s: Seq<CacheEntry>, ep: Endpoint) -> bool {
    exists|i: int| 0 <= i < s.len() && s[i].endpoint == ep
}

/// The index of the entry holding the endpoint, unique in a
/// well-formed cache.
pub open spec fn index_of(s: Seq<CacheEntry>, ep: Endpoint) -> int {
    choose|i: int| 0 <= i < s.len() && s[i].endpoint == ep
}

/// Addition that stops at the counter's ceiling instead of wrapping.
pub open spec fn sat_add_spec(a: u64, b: u64) -> u64 {
    if a + b <= u64::MAX {
        (a + b) as u64
    } else {
        u64::MAX
    }
}

fn sat_add(a: u64, b: u64) -> (r: u64)
    ensures
        r == sat_add_spec(a, b),
{
    if b <= u64::MAX - a {
        a + b
    } else {
        u64::MAX
    }
}

/// An entry after an outbound packet: payload bytes added to the sent
/// counter, last-seen refreshed.
pub open spec fn bump_sent(e: CacheEntry, add: u64, now: u64) -> CacheEntry {
    CacheEntry {
        endpoint: e.endpoint,
        stats: TrafficStats {
            last_seen: now,
            total_sent: sat_add_spec(e.stats.total_sent, add),
            total_recv: e.stats.total_recv,
        },
    }
}

/// An entry after an inbound packet: frame bytes added to the received
/// counter, last-seen refreshed.
pub open spec fn bump_recv(e: CacheEntry, add: u64, now: u64) -> CacheEntry {
    CacheEntry {
        endpoint: e.endpoint,
        stats: TrafficStats {
            last_seen: now,
            total_sent: e.stats.total_sent,
            total_recv: sat_add_spec(e.stats.total_recv, add),
        },
    }
}

/// The cache after recording `add` sent bytes towards `ep` at `now`.
pub open spec fn upsert_sent_spec(s: Seq<CacheEntry>, ep: Endpoint, add: u64, now: u64) -> Seq<
    CacheEntry,
> {
    if has_endpoint(s, ep) {
        s.update(index_of(s, ep), bump_sent(s[index_of(s, ep)], add, now))
    } else {
        s.push(
            CacheEntry {
                endpoint: ep,
                stats: TrafficStats { last_seen: now, total_sent: add, total_recv: 0 },
            },
        )
    }
}

/// The cache after recording `add` received bytes from `ep` at `now`.
pub open spec fn upsert_recv_spec(s: Seq<CacheEntry>, ep: Endpoint, add: u64, now: u64) -> Seq<
    CacheEntry,
> {
    if has_endpoint(s, ep) {
        s.update(index_of(s, ep), bump_recv(s[index_of(s, ep)], add, now))
    } else {
        s.push(
            CacheEntry {
                endpoint: ep,
                stats: TrafficStats { last_seen: now, total_sent: 0, total_recv: add },
            },
        )
    }
}

/// The traffic cache: one entry per remote endpoint, filled by the
/// capture task and read and pruned by the aggregation task.
pub struct TrafficCache {
    entries: Vec<CacheEntry>,
}

impl View for TrafficCache {
    type V = Seq<CacheEntry>;

    closed spec fn view(&self) -> Seq<CacheEntry> {
        self.entries@
    }
}

impl TrafficCache {
    /// Each endpoint appears at most once.
    pub open spec fn wf(&self) -> bool {
        forall|i: int, j: int|
            0 <= i < j < self@.len() ==> self@[i].endpoint != self@[j].endpoint
    }

    /// An empty cache.
    pub fn new() -> (r: TrafficCache)
        ensures
            r@ == Seq::<CacheEntry>::empty(),
            r.wf(),
    {
        TrafficCache { entries: Vec::new() }
    }

    /// How many endpoints the cache holds.
    pub fn len(&self) -> (r: usize)
        ensures
            r == self@.len(),
    {
        self.entries.len()
    }

    /// The entry at an index.
    pub fn entry_at(&self, i: usize) -> (r: CacheEntry)
        requires
            i < self@.len(),
        ensures
            r == self@[i as int],
    {
        self.entries[i]
    }

    fn find(&self, ep: Endpoint) -> (r: Option<usize>)
        requires
            self.wf(),
        ensures
            match r {
                Some(i) => i < self@.len() && self@[i as int].endpoint == ep && i as int
                    == index_of(self@, ep),
                None => !has_endpoint(self@, ep),
            },
    {
        let n = self.entries.len();
        let mut i: usize = 0;
        while i < n
            invariant
                n == self@.len(),
                i <= n,
                self.wf(),
                forall|j: int| 0 <= j < i ==> self@[j].endpoint != ep,
            decreases n - i,
        {
            if self.entries[i].endpoint == ep {
                proof {
                    assert(has_endpoint(self@, ep));
                    let w = index_of(self@, ep);
                    assert(0 <= w < self@.len() && self@[w].endpoint == ep);
                    assert(w == i as int);
                }
                return Some(i);
            }
            i = i + 1;
        }
        None
    }

    /// Record an outbound packet of `add` payload bytes towards `ep`.
    pub fn record_sent(&mut self, ep: Endpoint, add: u64, now: u64)
        requires
            old(self).wf(),
        ensures
            final(self).wf(),
            final(self)@ == upsert_sent_spec(old(self)@, ep, add, now),
    {
        let found = self.find(ep);
        match found {
            Some(i) => {
                let e = self.entries[i];
                let updated = CacheEntry {
                    endpoint: e.endpoint,
                    stats: TrafficStats {
                        last_seen: now,
                        total_sent: sat_add(e.stats.total_sent, add),
                        total_recv: e.stats.total_recv,
                    },
                };
                self.entries[i] = updated;
            },
            None => {
                self.entries.push(
                    CacheEntry {
                        endpoint: ep,
                        stats: TrafficStats { last_seen: now, total_sent: add, total_recv: 0 },
                    },
                );
            },
        }
    }

    /// Record an inbound packet of `add` frame bytes from `ep`.
    pub fn record_recv(&mut self, ep: Endpoint, add: u64, now: u64)
        requires
            old(self).wf(),
        ensures
            final(self).wf(),
            final(self)@ == upsert_recv_spec(old(self)@, ep, add, now),
    {
        let found = self.find(ep);
        match found {
            Some(i) => {
                let e = self.entries[i];
                let updated = CacheEntry {
                    endpoint: e.endpoint,
                    stats: TrafficStats {
                        last_seen: now,
                        total_sent: e.stats.total_sent,
                        total_recv: sat_add(e.stats.total_recv, add),
                    },
                };
                self.entries[i] = updated;
            },
            None => {
                self.entries.push(
                    CacheEntry {
                        endpoint: ep,
                        stats: TrafficStats { last_seen: now, total_sent: 0, total_recv: add },
                    },
                );
            },
        }
    }
}

/// How long an endpoint may go unseen before it is evicted, in
/// milliseconds.
pub const TTL_MS: u64 = 30000;

/// Whether an entry is still fresh at `now`: strictly less than the
/// time-to-live since it was last seen.
pub open spec fn fresh_at(e: CacheEntry, now: u64) -> bool {
    now < e.stats.last_seen + TTL_MS
}

/// The fresh entries among the first `k`, in order.
pub open spec fn evict_prefix(s: Seq<CacheEntry>, now: u64, k: int) -> Seq<CacheEntry>
    decreases k,
{
    if k <= 0 {
        Seq::empty()
    } else {
        evict_prefix(s, now, k - 1) + if fresh_at(s[k - 1], now) {
            seq![s[k - 1]]
        } else {
            Seq::empty()
        }
    }
}

/// The cache after time-to-live eviction at `now`: exactly the fresh
/// entries, in their old order.
pub open spec fn evict_spec(s: Seq<CacheEntry>, now: u64) -> Seq<CacheEntry> {
    evict_prefix(s, now, s.len() as int)
}

proof fn lemma_evict_prefix_entries(s: Seq<CacheEntry>, now: u64, k: int)
    requires
        0 <= k <= s.len(),
    ensures
        forall|m: int|
            0 <= m < evict_prefix(s, now, k).len() ==> exists|idx: int|
                0 <= idx < k && #[trigger] evict_prefix(s, now, k)[m] == s[idx],
    decreases k,
{
    if k > 0 {
        lemma_evict_prefix_entries(s, now, k - 1);
        let prev = evict_prefix(s, now, k - 1);
        let cur = evict_prefix(s, now, k);
        assert forall|m: int| 0 <= m < cur.len() implies exists|idx: int|
            0 <= idx < k && #[trigger] cur[m] == s[idx] by {
            if m < prev.len() {
                assert(cur[m] == prev[m]);
                let idx = choose|idx: int| 0 <= idx < k - 1 && prev[m] == s[idx];
                assert(cur[m] == s[idx]);
            } else {
                assert(cur[m] == s[k - 1]);
            }
        };
    }
}

proof fn lemma_evict_prefix_distinct(s: Seq<CacheEntry>, now: u64, k: int)
    requires
        0 <= k <= s.len(),
        forall|i: int, j: int| 0 <= i < j < s.len() ==> s[i].endpoint != s[j].endpoint,
    ensures
        forall|m1: int, m2: int|
            0 <= m1 < m2 < evict_prefix(s, now, k).len() ==> evict_prefix(s, now, k)[m1].endpoint
                != evict_prefix(s, now, k)[m2].endpoint,
    decreases k,
{
    if k > 0 {
        lemma_evict_prefix_distinct(s, now, k - 1);
        lemma_evict_prefix_entries(s, now, k - 1);
        let prev = evict_prefix(s, now, k - 1);
        let cur = evict_prefix(s, now, k);
        assert forall|m1: int, m2: int| 0 <= m1 < m2 < cur.len() implies cur[m1].endpoint
            != cur[m2].endpoint by {
            if m2 < prev.len() {
                assert(cur[m1] == prev[m1] && cur[m2] == prev[m2]);
            } else {
                assert(cur[m2] == s[k - 1]);
                assert(cur[m1] == prev[m1]);
                let idx = choose|idx: int| 0 <= idx < k - 1 && prev[m1] == s[idx];
                assert(s[idx].endpoint != s[k - 1].endpoint);
            }
        };
    }
}

proof fn lemma_evict_prefix_membership(s: Seq<CacheEntry>, now: u64, k: int)
    requires
        0 <= k <= s.len(),
    ensures
        forall|e: CacheEntry|
            #[trigger] evict_prefix(s, now, k).contains(e) <==> exists|idx: int|
                0 <= idx < k && s[idx] == e && fresh_at(e, now),
    decreases k,
{
    if k > 0 {
        lemma_evict_prefix_membership(s, now, k - 1);
        let prev = evict_prefix(s, now, k - 1);
        let cur = evict_prefix(s, now, k);
        assert forall|e: CacheEntry| #[trigger] cur.contains(e) implies exists|idx: int|
            0 <= idx < k && s[idx] == e && fresh_at(e, now) by {
            let m = choose|m: int| 0 <= m < cur.len() && cur[m] == e;
            if m < prev.len() {
                assert(prev[m] == e);
                assert(prev.contains(e));
            } else {
                assert(e == s[k - 1]);
            }
        };
        assert forall|e: CacheEntry|
            (exists|idx: int| 0 <= idx < k && s[idx] == e && fresh_at(e, now)) implies #[trigger] cur.contains(e) by {
            let idx = choose|idx: int| 0 <= idx < k && s[idx] == e && fresh_at(e, now);
            if idx < k - 1 {
                assert(prev.contains(e));
                let m = choose|m: int| 0 <= m < prev.len() && prev[m] == e;
                assert(cur[m] == e);
            } else {
                assert(cur[cur.len() - 1] == e);
            }
        };
    }
}

/// Law: an entry survives time-to-live eviction if and only if it was in
/// the cache and had been seen within the time-to-live.
pub proof fn lemma_evict_membership(s: Seq<CacheEntry>, now: u64)
    ensures
        forall|e: CacheEntry|
            #[trigger] evict_spec(s, now).contains(e) <==> s.contains(e) && fresh_at(e, now),
{
    lemma_evict_prefix_membership(s, now, s.len() as int);
}

impl TrafficCache {
    /// Drop every entry not seen within the time-to-live.  What remains
    /// is exactly the fresh entries, in their old order.
    pub fn retain_fresh(&mut self, now: u64)
        requires
            old(self).wf(),
        ensures
            final(self).wf(),
            final(self)@ == evict_spec(old(self)@, now),
    {
        let n = self.entries.len();
        let mut kept: Vec<CacheEntry> = Vec::new();
        let mut i: usize = 0;
        while i < n
            invariant
                i <= n,
                n == self@.len(),
                old(self)@ == self@,
                kept@ == evict_prefix(self@, now, i as int),
            decreases n - i,
        {
            let e = self.entries[i];
            let fresh = match e.stats.last_seen.checked_add(TTL_MS) {
                Some(limit) => now < limit,
                None => true,
            };
            if fresh {
                kept.push(e);
            }
            i = i + 1;
            proof {
                assert(kept@ =~= evict_prefix(self@, now, i as int));
            }
        }
        proof {
            lemma_evict_prefix_distinct(self@, now, n as int);
        }
        self.entries = kept;
    }
}

/// The IPv4 header length a frame declares: the low four bits of its
/// first byte, in units of four bytes.
pub open spec fn ip_header_len_spec(b: Seq<u8>) -> int {
    (b[0] as int % 16) * 4
}

/// A frame carries a decodable UDP datagram when it is at least as long
/// as a minimal IPv4 header, declares the UDP protocol, and is long
/// enough for its declared header plus a UDP header.
pub open spec fn udp_packet_wf(b: Seq<u8>) -> bool {
    b.len() >= 20 && b[9] == 17 && b.len() >= ip_header_len_spec(b) + 8
}

pub open spec fn pkt_src_ip(b: Seq<u8>) -> Ipv4Address {
    Ipv4Address { oct0: b[12], oct1: b[13], oct2: b[14], oct3: b[15] }
}

pub open spec fn pkt_dst_ip(b: Seq<u8>) -> Ipv4Address {
    Ipv4Address { oct0: b[16], oct1: b[17], oct2: b[18], oct3: b[19] }
}

/// The UDP source port, big-endian at the start of the UDP header.
pub open spec fn pkt_src_port(b: Seq<u8>) -> u16 {
    (b[ip_header_len_spec(b)] as int * 256 + b[ip_header_len_spec(b) + 1] as int) as u16
}

/// The UDP destination port.
pub open spec fn pkt_dst_port(b: Seq<u8>) -> u16 {
    (b[ip_header_len_spec(b) + 2] as int * 256 + b[ip_header_len_spec(b) + 3] as int) as u16
}

/// The UDP payload length: what remains after the declared IPv4 header
/// and the UDP header.
pub open spec fn pkt_payload_len(b: Seq<u8>) -> int {
    b.len() - ip_header_len_spec(b) - 8
}

/// What one captured frame does to the cache.  A frame that does not
/// decode leaves the cache untouched.  An outbound frame (source port
/// tracked) with a public destination adds its payload to the sent
/// counter of the destination endpoint; otherwise an inbound frame
/// (destination port tracked) with a public source adds the whole frame
/// to the received counter of the source endpoint.
pub open spec fn capture_step_spec(
    s: Seq<CacheEntry>,
    tracked_ports: Seq<u16>,
    b: Seq<u8>,
    now: u64,
) -> Seq<CacheEntry> {
    if !udp_packet_wf(b) {
        s
    } else if tracked_ports.contains(pkt_src_port(b)) {
        if is_public_spec(pkt_dst_ip(b)) {
            upsert_sent_spec(
                s,
                Endpoint { ip: pkt_dst_ip(b), port: pkt_dst_port(b) },
                pkt_payload_len(b) as u64,
                now,
            )
        } else {
            s
        }
    } else if tracked_ports.contains(pkt_dst_port(b)) {
        if is_public_spec(pkt_src_ip(b)) {
            upsert_recv_spec(
                s,
                Endpoint { ip: pkt_src_ip(b), port: pkt_src_port(b) },
                b.len() as u64,
                now,
            )
        } else {
            s
        }
    } else {
        s
    }
}

/// Decode one captured frame and account it in the cache.  A buffer
/// shorter than a minimal IPv4 header, a non-UDP frame, or one too short
/// for its declared headers is ignored and the cache is left exactly as
/// it was.
pub fn handle_capture(cache: &mut TrafficCache, tracked_ports: &Vec<u16>, buf: &[u8], now: u64)
    requires
        old(cache).wf(),
        buf@.len() <= u64::MAX,
    ensures
        final(cache).wf(),
        final(cache)@ == capture_step_spec(old(cache)@, tracked_ports@, buf@, now),
        !udp_packet_wf(buf@) ==> final(cache)@ == old(cache)@,
{
    if buf.len() < 20 {
        return ;
    }
    if buf[9] != 17 {
        return ;
    }
    let ihl = (buf[0] % 16) as usize * 4;
    if buf.len() < ihl + 8 {
        return ;
    }
    let src_port: u16 = buf[ihl] as u16 * 256 + buf[ihl + 1] as u16;
    let dst_port: u16 = buf[ihl + 2] as u16 * 256 + buf[ihl + 3] as u16;
    let payload_len = buf.len() - ihl - 8;
    let src_ip = Ipv4Address { oct0: buf[12], oct1: buf[13], oct2: buf[14], oct3: buf[15] };
    let dst_ip = Ipv4Address { oct0: buf[16], oct1: buf[17], oct2: buf[18], oct3: buf[19] };
    if contains_port(tracked_ports, src_port) {
        if dst_ip.is_public() {
            cache.record_sent(
                Endpoint { ip: dst_ip, port: dst_port },
                payload_len as u64,
                now,
            );
        }
    } else if contains_port(tracked_ports, dst_port) {
        if src_ip.is_public() {
            cache.record_recv(Endpoint { ip: src_ip, port: src_port }, buf.len() as u64, now);
        }
    }
}

} // verus!

//! Per-tick aggregation: rates out of counter differences, the lookup
//! caches keyed by endpoint and by address, and the construction of the
//! published snapshot — one entry per TCP connection of the process and
//! one per surviving traffic-cache endpoint.

use vstd::prelude::*;
use crate::addr::{Ipv4Address, is_public_spec};
use crate::conn_table::{NetworkConnection, Protocol};
use crate::sniffer::{CacheEntry, Endpoint};

verus! {

/// The externally visible unit: one detected server, recomputed every
/// tick and never mutated after construction.  `detected_at` is in
/// milliseconds on the monitor's clock; a UDP entry is a game server, a
/// TCP entry a lobby server with no measured rates.
#[derive(Debug, PartialEq, Eq)]
pub struct DetectedServer {
    pub ip: Ipv4Address,
    pub port: u16,
    pub protocol: Protocol,
    pub send_rate: u64,
    pub recv_rate: u64,
    pub country: Option<String>,
    pub detected_at: u64,
    pub is_game_server: bool,
}

fn clone_location(o: &Option<String>) -> (r: Option<String>)
    ensures
        r == *o,
{
    match o {
        Some(s) => Some(s.clone()),
        None => None,
    }
}

impl Clone for DetectedServer {
    /// A clone is equal to the original, field by field.
    fn clone(&self) -> (r: Self)
        ensures
            r == *self,
    {
        DetectedServer {
            ip: self.ip,
            port: self.port,
            protocol: self.protocol,
            send_rate: self.send_rate,
            recv_rate: self.recv_rate,
            country: clone_location(&self.country),
            detected_at: self.detected_at,
            is_game_server: self.is_game_server,
        }
    }
}

/// One cached geolocation: the answer the resolver collaborator gave for
/// an address, or nothing while the answer is pending or after a failed
/// lookup.
#[derive(Debug, PartialEq, Eq)]
pub struct GeoEntry {
    pub ip: Ipv4Address,
    pub location: Option<String>,
}

/// The counter totals an endpoint had at the previous tick.
#[derive(Clone, Copy, Debug, PartialEq, Eq, Structural)]
pub struct PrevStat {
    pub endpoint: Endpoint,
    pub sent: u64,
    pub recv: u64,
}

/// The rate out of two counter samples, in bytes per second, over an
/// elapsed time in milliseconds.  A counter that appears to have rolled
/// back is read as having restarted from zero, so the whole current
/// total counts as the difference.
pub open spec fn rate_spec(current: u64, previous: u64, elapsed_ms: u64) -> u64
    recommends
        elapsed_ms > 0,
{
    let diff: int = if current >= previous {
        current - previous
    } else {
        current as int
    };
    let r = diff * 1000 / elapsed_ms as int;
    if r > u64::MAX {
        u64::MAX
    } else {
        r as u64
    }
}

/// Compute a byte rate from two counter samples.
pub fn compute_rate(current: u64, previous: u64, elapsed_ms: u64) -> (r: u64)
    requires
        elapsed_ms > 0,
    ensures
        r == rate_spec(current, previous, elapsed_ms),
{
    let diff: u64 = if current >= previous {
        current - previous
    } else {
        current
    };
    let wide: u128 = diff as u128 * 1000 / elapsed_ms as u128;
    if wide > u64::MAX as u128 {
        u64::MAX
    } else {
        wide as u64
    }
}

fn str_eq(a: &str, b: &str) -> (r: bool)
    ensures
        r == (a@ == b@),
{
    let na = a.unicode_len();
    let nb = b.unicode_len();
    if na != nb {
        proof {
            assert(a@ != b@);
        }
        return false;
    }
    let mut i: usize = 0;
    while i < na
        invariant
            i <= na,
            na == a@.len(),
            na == b@.len(),
            forall|j: int| 0 <= j < i ==> a@[j] == b@[j],
        decreases na - i,
    {
        if a.get_char(i) != b.get_char(i) {
            return false;
        }
        i = i + 1;
    }
    proof {
        assert(a@ =~= b@);
    }
    true
}

/// The location text one geolocation answer yields: the city and country
/// joined when the lookup succeeded and named a country; nothing
/// otherwise.
pub open spec fn location_of_spec(status: Seq<char>, city: Seq<char>, country: Seq<char>) -> Option<
    Seq<char>,
> {
    if status == "success"@ && country.len() > 0 {
        Some(city + ", "@ + country)
    } else {
        None
    }
}

/// Build the location text out of the fields of one geolocation answer.
pub fn location_of(status: &str, city: &str, country: &str) -> (r: Option<String>)
    ensures
        match r {
            Some(s) => location_of_spec(status@, city@, country@) == Some(s@),
            None => location_of_spec(status@, city@, country@) is None,
        },
{
    let ok = str_eq(status, "success");
    if ok && country.unicode_len() > 0 {
        let mut s = String::new();
        s.append(city);
        s.append(", ");
        s.append(country);
        Some(s)
    } else {
        None
    }
}

/// Whether the geolocation cache holds an address.
pub open spec fn geo_has(g: Seq<GeoEntry>, ip: Ipv4Address) -> bool {
    exists|i: int| 0 <= i < g.len() && g[i].ip == ip
}

/// The index of an address in the geolocation cache, unique when the
/// cache is well-formed.
pub open spec fn geo_index(g: Seq<GeoEntry>, ip: Ipv4Address) -> int {
    choose|i: int| 0 <= i < g.len() && g[i].ip == ip
}

/// What the geolocation cache knows of an address: the stored location,
/// or nothing for an address never asked about.
pub open spec fn geo_lookup(g: Seq<GeoEntry>, ip: Ipv4Address) -> Option<String> {
    if geo_has(g, ip) {
        g[geo_index(g, ip)].location
    } else {
        None
    }
}

/// Each address appears at most once in the geolocation cache.
pub open spec fn geo_wf(g: Seq<GeoEntry>) -> bool {
    forall|i: int, j: int| 0 <= i < j < g.len() ==> g[i].ip != g[j].ip
}

/// Whether the previous-totals list holds an endpoint.
pub open spec fn prev_has(p: Seq<PrevStat>, ep: Endpoint) -> bool {
    exists|i: int| 0 <= i < p.len() && p[i].endpoint == ep
}

/// The index of an endpoint in the previous-totals list, unique when the
/// list is well-formed.
pub open spec fn prev_index(p: Seq<PrevStat>, ep: Endpoint) -> int {
    choose|i: int| 0 <= i < p.len() && p[i].endpoint == ep
}

/// The totals recorded for an endpoint at the previous tick; an endpoint
/// never recorded starts from zero.
pub open spec fn prev_lookup(p: Seq<PrevStat>, ep: Endpoint) -> (u64, u64) {
    if prev_has(p, ep) {
        (p[prev_index(p, ep)].sent, p[prev_index(p, ep)].recv)
    } else {
        (0, 0)
    }
}

/// Each endpoint appears at most once in the previous-totals list.
pub open spec fn prev_wf(p: Seq<PrevStat>) -> bool {
    forall|i: int, j: int| 0 <= i < j < p.len() ==> p[i].endpoint != p[j].endpoint
}

/// The previous-totals list after recording an entry's current totals.
pub open spec fn prev_upsert(p: Seq<PrevStat>, e: CacheEntry) -> Seq<PrevStat> {
    let ns = PrevStat { endpoint: e.endpoint, sent: e.stats.total_sent, recv: e.stats.total_recv };
    if prev_has(p, e.endpoint) {
        p.update(prev_index(p, e.endpoint), ns)
    } else {
        p.push(ns)
    }
}

/// The previous-totals list after recording the first `k` cache entries.
pub open spec fn prev_after_prefix(p: Seq<PrevStat>, entries: Seq<CacheEntry>, k: int) -> Seq<
    PrevStat,
>
    decreases k,
{
    if k <= 0 {
        p
    } else {
        prev_upsert(prev_after_prefix(p, entries, k - 1), entries[k - 1])
    }
}

/// Recording one entry leaves every other endpoint's totals alone.
pub proof fn lemma_prev_upsert(p: Seq<PrevStat>, e: CacheEntry, ep: Endpoint)
    requires
        prev_wf(p),
    ensures
        prev_wf(prev_upsert(p, e)),
        ep != e.endpoint ==> prev_lookup(prev_upsert(p, e), ep) == prev_lookup(p, ep),
{
    let q = prev_upsert(p, e);
    if prev_has(p, e.endpoint) {
        let i = prev_index(p, e.endpoint);
        assert(0 <= i < p.len() && p[i].endpoint == e.endpoint);
        assert(forall|j: int| 0 <= j < q.len() ==> q[j].endpoint == p[j].endpoint);
        assert(prev_wf(q));
        if ep != e.endpoint {
            if prev_has(p, ep) {
                let w = prev_index(p, ep);
                assert(0 <= w < p.len() && p[w].endpoint == ep);
                assert(w != i);
                assert(q[w] == p[w]);
                assert(prev_has(q, ep));
                let w2 = prev_index(q, ep);
                assert(0 <= w2 < q.len() && q[w2].endpoint == ep);
                assert(q[w2].endpoint == p[w2].endpoint);
                assert(w2 == w);
            } else {
                assert(!prev_has(q, ep)) by {
                    if prev_has(q, ep) {
                        let w2 = prev_index(q, ep);
                        assert(0 <= w2 < q.len() && q[w2].endpoint == ep);
                        assert(p[w2].endpoint == ep);
                    }
                };
            }
        }
    } else {
        assert(q == p.push(PrevStat { endpoint: e.endpoint, sent: e.stats.total_sent, recv: e.stats.total_recv }));
        assert(prev_wf(q)) by {
            assert(forall|j: int| 0 <= j < p.len() ==> #[trigger] p[j].endpoint != e.endpoint);
        };
        if ep != e.endpoint {
            if prev_has(p, ep) {
                let w = prev_index(p, ep);
                assert(q[w] == p[w]);
                assert(prev_has(q, ep));
                let w2 = prev_index(q, ep);
                assert(q[w2].endpoint == ep);
                assert(w2 < p.len());
                assert(p[w2].endpoint == ep);
                assert(w2 == w);
            } else {
                assert(!prev_has(q, ep)) by {
                    if prev_has(q, ep) {
                        let w2 = prev_index(q, ep);
                        assert(q[w2].endpoint == ep);
                        assert(w2 < p.len());
                        assert(p[w2].endpoint == ep);
                    }
                };
            }
        }
    }
}

/// Recording a run of cache entries leaves an endpoint outside the run
/// untouched.
pub proof fn lemma_prev_prefix_lookup(
    p: Seq<PrevStat>,
    entries: Seq<CacheEntry>,
    k: int,
    ep: Endpoint,
)
    requires
        prev_wf(p),
        0 <= k <= entries.len(),
        forall|j: int| 0 <= j < k ==> entries[j].endpoint != ep,
    ensures
        prev_wf(prev_after_prefix(p, entries, k)),
        prev_lookup(prev_after_prefix(p, entries, k), ep) == prev_lookup(p, ep),
    decreases k,
{
    if k > 0 {
        lemma_prev_prefix_lookup(p, entries, k - 1, ep);
        lemma_prev_upsert(prev_after_prefix(p, entries, k - 1), entries[k - 1], ep);
    }
}

fn find_prev(prev: &Vec<PrevStat>, ep: Endpoint) -> (r: Option<usize>)
    requires
        prev_wf(prev@),
    ensures
        match r {
            Some(i) => i < prev@.len() && prev@[i as int].endpoint == ep && i as int == prev_index(
                prev@,
                ep,
            ),
            None => !prev_has(prev@, ep),
        },
{
    let n = prev.len();
    let mut i: usize = 0;
    while i < n
        invariant
            i <= n,
            n == prev@.len(),
            prev_wf(prev@),
            forall|j: int| 0 <= j < i ==> prev@[j].endpoint != ep,
        decreases n - i,
    {
        if prev[i].endpoint == ep {
            proof {
                assert(prev_has(prev@, ep));
                let w = prev_index(prev@, ep);
                assert(0 <= w < prev@.len() && prev@[w].endpoint == ep);
                assert(w == i as int);
            }
            return Some(i);
        }
        i = i + 1;
    }
    None
}

/// Record an entry's current totals as the previous totals for the next
/// tick.
pub fn upsert_prev(prev: &mut Vec<PrevStat>, e: CacheEntry)
    requires
        prev_wf(old(prev)@),
    ensures
        prev_wf(final(prev)@),
        final(prev)@ == prev_upsert(old(prev)@, e),
{
    proof {
        lemma_prev_upsert(prev@, e, e.endpoint);
    }
    let ns = PrevStat { endpoint: e.endpoint, sent: e.stats.total_sent, recv: e.stats.total_recv };
    let found = find_prev(prev, e.endpoint);
    match found {
        Some(i) => {
            prev[i] = ns;
        },
        None => {
            prev.push(ns);
        },
    }
}

/// Look up an endpoint's previous totals.
pub fn lookup_prev(prev: &Vec<PrevStat>, ep: Endpoint) -> (r: (u64, u64))
    requires
        prev_wf(prev@),
    ensures
        r == prev_lookup(prev@, ep),
{
    let found = find_prev(prev, ep);
    match found {
        Some(i) => (prev[i].sent, prev[i].recv),
        None => (0, 0),
    }
}

/// Look up what the geolocation cache knows of an address.
pub fn lookup_geo(geo: &Vec<GeoEntry>, ip: Ipv4Address) -> (r: Option<String>)
    requires
        geo_wf(geo@),
    ensures
        r == geo_lookup(geo@, ip),
{
    let n = geo.len();
    let mut i: usize = 0;
    while i < n
        invariant
            i <= n,
            n == geo@.len(),
            geo_wf(geo@),
            forall|j: int| 0 <= j < i ==> geo@[j].ip != ip,
        decreases n - i,
    {
        if geo[i].ip == ip {
            proof {
                assert(geo_has(geo@, ip));
                let w = geo_index(geo@, ip);
                assert(0 <= w < geo@.len() && geo@[w].ip == ip);
                assert(w == i as int);
            }
            return clone_location(&geo[i].location);
        }
        i = i + 1;
    }
    None
}

/// The snapshot entry for one TCP connection: a lobby server, no
/// measured rates.
pub open spec fn tcp_server_spec(c: NetworkConnection, geo: Seq<GeoEntry>, now: u64) -> DetectedServer {
    DetectedServer {
        ip: c.remote_ip,
        port: c.remote_port,
        protocol: Protocol::Tcp,
        send_rate: 0,
        recv_rate: 0,
        country: geo_lookup(geo, c.remote_ip),
        detected_at: now,
        is_game_server: false,
    }
}

/// The snapshot entries for the first `k` TCP connections.
pub open spec fn tcp_detected_prefix(
    conns: Seq<NetworkConnection>,
    geo: Seq<GeoEntry>,
    now: u64,
    k: int,
) -> Seq<DetectedServer>
    decreases k,
{
    if k <= 0 {
        Seq::empty()
    } else {
        tcp_detected_prefix(conns, geo, now, k - 1).push(tcp_server_spec(conns[k - 1], geo, now))
    }
}

/// The snapshot entry for one surviving traffic-cache endpoint: a game
/// server whose rates come from the counter differences since the
/// previous tick.
pub open spec fn udp_server_spec(
    e: CacheEntry,
    prev: Seq<PrevStat>,
    geo: Seq<GeoEntry>,
    now: u64,
    elapsed_ms: u64,
) -> DetectedServer {
    DetectedServer {
        ip: e.endpoint.ip,
        port: e.endpoint.port,
        protocol: Protocol::Udp,
        send_rate: rate_spec(e.stats.total_sent, prev_lookup(prev, e.endpoint).0, elapsed_ms),
        recv_rate: rate_spec(e.stats.total_recv, prev_lookup(prev, e.endpoint).1, elapsed_ms),
        country: geo_lookup(geo, e.endpoint.ip),
        detected_at: now,
        is_game_server: true,
    }
}

/// The snapshot entries for the first `k` surviving cache endpoints,
/// each rated against the previous totals as they stood before the tick.
pub open spec fn udp_detected_prefix(
    entries: Seq<CacheEntry>,
    prev: Seq<PrevStat>,
    geo: Seq<GeoEntry>,
    now: u64,
    elapsed_ms: u64,
    k: int,
) -> Seq<DetectedServer>
    decreases k,
{
    if k <= 0 {
        Seq::empty()
    } else {
        udp_detected_prefix(entries, prev, geo, now, elapsed_ms, k - 1).push(
            udp_server_spec(entries[k - 1], prev, geo, now, elapsed_ms),
        )
    }
}

/// The whole published snapshot of one tick: the TCP connections first,
/// then the surviving traffic-cache endpoints.
pub open spec fn snapshot_spec(
    conns: Seq<NetworkConnection>,
    entries: Seq<CacheEntry>,
    prev: Seq<PrevStat>,
    geo: Seq<GeoEntry>,
    now: u64,
    elapsed_ms: u64,
) -> Seq<DetectedServer> {
    tcp_detected_prefix(conns, geo, now, conns.len() as int) + udp_detected_prefix(
        entries,
        prev,
        geo,
        now,
        elapsed_ms,
        entries.len() as int,
    )
}

/// The geolocation cache after one tick: a pending entry added for each
/// public snapshot address the cache did not know yet, in snapshot
/// order.
pub open spec fn geo_after_prefix(g: Seq<GeoEntry>, servers: Seq<DetectedServer>, k: int) -> Seq<
    GeoEntry,
>
    decreases k,
{
    if k <= 0 {
        g
    } else {
        let g1 = geo_after_prefix(g, servers, k - 1);
        let ip = servers[k - 1].ip;
        if is_public_spec(ip) && !geo_has(g1, ip) {
            g1.push(GeoEntry { ip, location: None })
        } else {
            g1
        }
    }
}

/// The addresses whose location the tick asks the resolver collaborator
/// for: each public snapshot address not yet in the cache, once.
pub open spec fn geo_requests_prefix(
    g: Seq<GeoEntry>,
    servers: Seq<DetectedServer>,
    k: int,
) -> Seq<Ipv4Address>
    decreases k,
{
    if k <= 0 {
        Seq::empty()
    } else {
        let r1 = geo_requests_prefix(g, servers, k - 1);
        let g1 = geo_after_prefix(g, servers, k - 1);
        let ip = servers[k - 1].ip;
        if is_public_spec(ip) && !geo_has(g1, ip) {
            r1.push(ip)
        } else {
            r1
        }
    }
}

} // verus!

//! The monitoring session: its state machine, the per-tick aggregation
//! that publishes the detected-server snapshot, and the command surface
//! the outer layers call.  All OS work — table queries, capture, clock
//! reads, geolocation requests — happens outside; its results come in as
//! plain values.

use vstd::prelude::*;
use crate::addr::{Ipv4Address, is_public_spec, parse_ipv4_spec};
use crate::aggregate::{
    DetectedServer, GeoEntry, PrevStat, compute_rate, geo_after_prefix, geo_has, geo_index,
    geo_lookup, geo_requests_prefix, geo_wf, lemma_prev_prefix_lookup, lookup_geo, lookup_prev,
    prev_after_prefix, prev_wf, snapshot_spec, tcp_detected_prefix, udp_detected_prefix,
    upsert_prev,
};
use crate::conn_table::{NetworkConnection, Protocol};
use crate::sniffer::{CacheEntry, TrafficCache, evict_spec};

verus! {

/// What can go wrong around a monitoring session.  Per-tick failures are
/// absorbed by the caller (skip the tick, keep the last snapshot); only
/// these surface.
#[derive(Clone, Copy, Debug, PartialEq, Eq, Structural)]
pub enum MonitorError {
    /// A session is already starting or running.
    AlreadyMonitoring,
    /// No process of the given image name exists.
    ProcessNotFound,
    /// The shared state's lock could not be taken.
    LockUnavailable,
    /// An OS connection-table query failed; read as no connections this
    /// tick.
    TableQueryFailed,
    /// The capture socket could not be set up; UDP detection is disabled
    /// for the session.
    SocketSetupFailed,
    /// No session is active.
    NoActiveSession,
    /// A piece of text that does not denote a public IPv4 address.
    InvalidAddress,
}

/// One monitoring session's state, owned by the controller and handed by
/// reference to the capture and aggregation tasks.
pub struct MonitorState {
    pub is_monitoring: bool,
    pub process_name: Option<String>,
    pub detected_servers: Vec<DetectedServer>,
    pub tracked_ports: Vec<u16>,
    pub traffic_cache: TrafficCache,
    pub geo_cache: Vec<GeoEntry>,
    pub prev_stats: Vec<PrevStat>,
}

impl MonitorState {
    /// The caches are keyed: no endpoint or address appears twice.
    pub open spec fn wf(&self) -> bool {
        &&& self.traffic_cache.wf()
        &&& geo_wf(self.geo_cache@)
        &&& prev_wf(self.prev_stats@)
    }

    /// A fresh, idle session.
    pub fn new() -> (r: MonitorState)
        ensures
            r.wf(),
            !r.is_monitoring,
            r.process_name is None,
            r.detected_servers@ == Seq::<DetectedServer>::empty(),
            r.tracked_ports@ == Seq::<u16>::empty(),
            r.traffic_cache@ == Seq::<CacheEntry>::empty(),
            r.geo_cache@ == Seq::<GeoEntry>::empty(),
            r.prev_stats@ == Seq::<PrevStat>::empty(),
    {
        MonitorState {
            is_monitoring: false,
            process_name: None,
            detected_servers: Vec::new(),
            tracked_ports: Vec::new(),
            traffic_cache: TrafficCache::new(),
            geo_cache: Vec::new(),
            prev_stats: Vec::new(),
        }
    }

    /// Start a session for a process, whose resolution the caller has
    /// already attempted.  Fails, leaving the state exactly as it was,
    /// when a session is already active or when no process was resolved;
    /// otherwise all detection state is reset and the session is active.
    pub fn start_monitoring(&mut self, process_name: String, resolved_pid: Option<u32>) -> (r:
        Result<(), MonitorError>)
        requires
            old(self).wf(),
        ensures
            final(self).wf(),
            old(self).is_monitoring ==> r == Err::<(), MonitorError>(MonitorError::AlreadyMonitoring)
                && *final(self) == *old(self),
            !old(self).is_monitoring && resolved_pid is None ==> r == Err::<(), MonitorError>(
                MonitorError::ProcessNotFound,
            ) && *final(self) == *old(self),
            !old(self).is_monitoring && resolved_pid is Some ==> {
                &&& r == Ok::<(), MonitorError>(())
                &&& final(self).is_monitoring
                &&& final(self).process_name == Some(process_name)
                &&& final(self).detected_servers@ == Seq::<DetectedServer>::empty()
                &&& final(self).tracked_ports@ == Seq::<u16>::empty()
                &&& final(self).traffic_cache@ == Seq::<CacheEntry>::empty()
                &&& final(self).geo_cache@ == Seq::<GeoEntry>::empty()
                &&& final(self).prev_stats@ == Seq::<PrevStat>::empty()
            },
    {
        if self.is_monitoring {
            return Err(MonitorError::AlreadyMonitoring);
        }
        if resolved_pid.is_none() {
            return Err(MonitorError::ProcessNotFound);
        }
        self.is_monitoring = true;
        self.process_name = Some(process_name);
        self.detected_servers = Vec::new();
        self.tracked_ports = Vec::new();
        self.traffic_cache = TrafficCache::new();
        self.geo_cache = Vec::new();
        self.prev_stats = Vec::new();
        Ok(())
    }

    /// End the active session.  Fails, leaving the state as it was, when
    /// none is active; otherwise the session becomes idle while the last
    /// snapshot stays readable.
    pub fn stop_monitoring(&mut self) -> (r: Result<(), MonitorError>)
        requires
            old(self).wf(),
        ensures
            final(self).wf(),
            !old(self).is_monitoring ==> r == Err::<(), MonitorError>(MonitorError::NoActiveSession)
                && *final(self) == *old(self),
            old(self).is_monitoring ==> {
                &&& r == Ok::<(), MonitorError>(())
                &&& !final(self).is_monitoring
                &&& final(self).process_name is None
                &&& final(self).detected_servers@ == old(self).detected_servers@
                &&& final(self).tracked_ports@ == old(self).tracked_ports@
                &&& final(self).traffic_cache@ == old(self).traffic_cache@
                &&& final(self).geo_cache@ == old(self).geo_cache@
                &&& final(self).prev_stats@ == old(self).prev_stats@
            },
    {
        if !self.is_monitoring {
            return Err(MonitorError::NoActiveSession);
        }
        self.is_monitoring = false;
        self.process_name = None;
        Ok(())
    }

    /// The last published snapshot, copied out; never blocks on a tick.
    pub fn get_detected_servers(&self) -> (r: Result<Vec<DetectedServer>, MonitorError>)
        ensures
            r matches Ok(v) && v@ == self.detected_servers@,
    {
        let v = self.detected_servers.clone();
        proof {
            assert forall|i: int| 0 <= i < v@.len() implies v@[i] == self.detected_servers@[i] by {
                assert(cloned::<DetectedServer>(self.detected_servers@[i], v@[i]));
            };
            assert(v@ =~= self.detected_servers@);
        }
        Ok(v)
    }

    /// One aggregation tick.  The caller hands in this tick's decoded
    /// TCP connections and UDP local ports of the resolved process, the
    /// current time and the time since the previous tick, both in
    /// milliseconds.  The tracked ports are replaced wholesale, stale
    /// cache entries are evicted before being read, the snapshot is
    /// rebuilt — TCP connections first, then the surviving endpoints
    /// rated against the previous totals — and published in place of the
    /// old one, and the previous totals are advanced.  Returned are the
    /// addresses whose location should now be requested, each recorded
    /// as pending so that it is never requested twice in a session.
    pub fn aggregate_tick(
        &mut self,
        tcp_conns: &Vec<NetworkConnection>,
        udp_ports: Vec<u16>,
        now: u64,
        elapsed_ms: u64,
    ) -> (geo_requests: Vec<Ipv4Address>)
        requires
            old(self).wf(),
            elapsed_ms > 0,
        ensures
            final(self).wf(),
            final(self).is_monitoring == old(self).is_monitoring,
            final(self).process_name == old(self).process_name,
            final(self).tracked_ports@ == udp_ports@,
            final(self).traffic_cache@ == evict_spec(old(self).traffic_cache@, now),
            final(self).detected_servers@ == snapshot_spec(
                tcp_conns@,
                evict_spec(old(self).traffic_cache@, now),
                old(self).prev_stats@,
                old(self).geo_cache@,
                now,
                elapsed_ms,
            ),
            final(self).prev_stats@ == prev_after_prefix(
                old(self).prev_stats@,
                evict_spec(old(self).traffic_cache@, now),
                evict_spec(old(self).traffic_cache@, now).len() as int,
            ),
            final(self).geo_cache@ == geo_after_prefix(
                old(self).geo_cache@,
                final(self).detected_servers@,
                final(self).detected_servers@.len() as int,
            ),
            geo_requests@ == geo_requests_prefix(
                old(self).geo_cache@,
                final(self).detected_servers@,
                final(self).detected_servers@.len() as int,
            ),
    {
        let ghost im0 = self.is_monitoring;
        let ghost pn0 = self.process_name;
        let ghost geo0 = self.geo_cache@;
        let ghost prev0 = self.prev_stats@;
        self.tracked_ports = udp_ports;
        self.traffic_cache.retain_fresh(now);
        let ghost entries = self.traffic_cache@;

        let mut detected: Vec<DetectedServer> = Vec::new();
        let nt = tcp_conns.len();
        let mut i: usize = 0;
        while i < nt
            invariant
                i <= nt,
                nt == tcp_conns@.len(),
                self.is_monitoring == im0,
                self.process_name == pn0,
                self.tracked_ports@ == udp_ports@,
                self.traffic_cache@ == entries,
                self.traffic_cache.wf(),
                self.geo_cache@ == geo0,
                geo_wf(geo0),
                self.prev_stats@ == prev0,
                prev_wf(prev0),
                detected@ == tcp_detected_prefix(tcp_conns@, geo0, now, i as int),
            decreases nt - i,
        {
            let c = tcp_conns[i];
            let country = lookup_geo(&self.geo_cache, c.remote_ip);
            detected.push(
                DetectedServer {
                    ip: c.remote_ip,
                    port: c.remote_port,
                    protocol: Protocol::Tcp,
                    send_rate: 0,
                    recv_rate: 0,
                    country,
                    detected_at: now,
                    is_game_server: false,
                },
            );
            i = i + 1;
            proof {
                assert(detected@ =~= tcp_detected_prefix(tcp_conns@, geo0, now, i as int));
            }
        }

        let ghost tcp_part = detected@;
        let nu = self.traffic_cache.len();
        let mut k: usize = 0;
        while k < nu
            invariant
                k <= nu,
                nu == entries.len(),
                self.is_monitoring == im0,
                self.process_name == pn0,
                self.tracked_ports@ == udp_ports@,
                self.traffic_cache@ == entries,
                self.traffic_cache.wf(),
                self.geo_cache@ == geo0,
                geo_wf(geo0),
                prev_wf(prev0),
                prev_wf(self.prev_stats@),
                self.prev_stats@ == prev_after_prefix(prev0, entries, k as int),
                tcp_part == tcp_detected_prefix(tcp_conns@, geo0, now, tcp_conns@.len() as int),
                detected@ == tcp_part + udp_detected_prefix(
                    entries,
                    prev0,
                    geo0,
                    now,
                    elapsed_ms,
                    k as int,
                ),
                elapsed_ms > 0,
            decreases nu - k,
        {
            let e = self.traffic_cache.entry_at(k);
            proof {
                assert(forall|j: int| 0 <= j < k ==> entries[j].endpoint != e.endpoint);
                lemma_prev_prefix_lookup(prev0, entries, k as int, e.endpoint);
            }
            let totals = lookup_prev(&self.prev_stats, e.endpoint);
            let send_rate = compute_rate(e.stats.total_sent, totals.0, elapsed_ms);
            let recv_rate = compute_rate(e.stats.total_recv, totals.1, elapsed_ms);
            let country = lookup_geo(&self.geo_cache, e.endpoint.ip);
            upsert_prev(&mut self.prev_stats, e);
            detected.push(
                DetectedServer {
                    ip: e.endpoint.ip,
                    port: e.endpoint.port,
                    protocol: Protocol::Udp,
                    send_rate,
                    recv_rate,
                    country,
                    detected_at: now,
                    is_game_server: true,
                },
            );
            k = k + 1;
            proof {
                assert(detected@ =~= tcp_part + udp_detected_prefix(
                    entries,
                    prev0,
                    geo0,
                    now,
                    elapsed_ms,
                    k as int,
                ));
            }
        }

        self.detected_servers = detected;
        let ghost snapshot = self.detected_servers@;
        proof {
            assert(snapshot =~= snapshot_spec(tcp_conns@, entries, prev0, geo0, now, elapsed_ms));
        }

        let mut requests: Vec<Ipv4Address> = Vec::new();
        let nd = self.detected_servers.len();
        let mut g: usize = 0;
        while g < nd
            invariant
                g <= nd,
                nd == self.detected_servers@.len(),
                self.is_monitoring == im0,
                self.process_name == pn0,
                self.tracked_ports@ == udp_ports@,
                self.traffic_cache@ == entries,
                self.traffic_cache.wf(),
                self.detected_servers@ == snapshot,
                prev_wf(self.prev_stats@),
                self.prev_stats@ == prev_after_prefix(prev0, entries, entries.len() as int),
                geo_wf(geo0),
                geo_wf(self.geo_cache@),
                self.geo_cache@ == geo_after_prefix(geo0, snapshot, g as int),
                requests@ == geo_requests_prefix(geo0, snapshot, g as int),
            decreases nd - g,
        {
            let ip = self.detected_servers[g].ip;
            if ip.is_public() {
                let known = find_geo(&self.geo_cache, ip);
                if known.is_none() {
                    proof {
                        let g1 = self.geo_cache@;
                        assert(forall|j: int| 0 <= j < g1.len() ==> #[trigger] g1[j].ip != ip);
                    }
                    self.geo_cache.push(GeoEntry { ip, location: None });
                    requests.push(ip);
                }
            }
            g = g + 1;
        }
        requests
    }

    /// Note the outcome of one geolocation request: the found location,
    /// or nothing for a failed lookup — cached either way, so an address
    /// is asked about at most once per session.
    pub fn geo_note_result(&mut self, ip: Ipv4Address, location: Option<String>)
        requires
            old(self).wf(),
        ensures
            final(self).wf(),
            final(self).geo_cache@ == if geo_has(old(self).geo_cache@, ip) {
                old(self).geo_cache@.update(
                    geo_index(old(self).geo_cache@, ip),
                    GeoEntry { ip, location },
                )
            } else {
                old(self).geo_cache@.push(GeoEntry { ip, location })
            },
            final(self).is_monitoring == old(self).is_monitoring,
            final(self).process_name == old(self).process_name,
            final(self).detected_servers@ == old(self).detected_servers@,
            final(self).tracked_ports@ == old(self).tracked_ports@,
            final(self).traffic_cache@ == old(self).traffic_cache@,
            final(self).prev_stats@ == old(self).prev_stats@,
    {
        let found = find_geo(&self.geo_cache, ip);
        match found {
            Some(i) => {
                self.geo_cache[i] = GeoEntry { ip, location };
                proof {
                    let q = self.geo_cache@;
                    assert(forall|j: int|
                        0 <= j < q.len() ==> q[j].ip == old(self).geo_cache@[j].ip);
                }
            },
            None => {
                self.geo_cache.push(GeoEntry { ip, location });
                proof {
                    assert(forall|j: int|
                        0 <= j < old(self).geo_cache@.len() ==> #[trigger] old(
                            self,
                        ).geo_cache@[j].ip != ip);
                }
            },
        }
    }
}

fn find_geo(geo: &Vec<GeoEntry>, ip: Ipv4Address) -> (r: Option<usize>)
    requires
        geo_wf(geo@),
    ensures
        match r {
            Some(i) => i < geo@.len() && geo@[i as int].ip == ip && i as int == geo_index(geo@, ip),
            None => !geo_has(geo@, ip),
        },
{
    let n = geo.len();
    let mut i: usize = 0;
    while i < n
        invariant
            i <= n,
            n == geo@.len(),
            geo_wf(geo@),
            forall|j: int| 0 <= j < i ==> geo@[j].ip != ip,
        decreases n - i,
    {
        if geo[i].ip == ip {
            proof {
                assert(geo_has(geo@, ip));
                let w = geo_index(geo@, ip);
                assert(0 <= w < geo@.len() && geo@[w].ip == ip);
                assert(w == i as int);
            }
            return Some(i);
        }
        i = i + 1;
    }
    None
}

/// Validate an address for the routing collaborator: a public address is
/// handed back for delegation, anything else is rejected.
pub fn add_detected_ip_to_routes(ip: String) -> (r: Result<String, MonitorError>)
    ensures
        match parse_ipv4_spec(ip@) {
            Some(a) => if is_public_spec(a) {
                r == Ok::<String, MonitorError>(ip)
            } else {
                r == Err::<String, MonitorError>(MonitorError::InvalidAddress)
            },
            None => r == Err::<String, MonitorError>(MonitorError::InvalidAddress),
        },
{
    if crate::addr::is_public_ip(ip.as_str()) {
        Ok(ip)
    } else {
        Err(MonitorError::InvalidAddress)
    }
}

} // verus!

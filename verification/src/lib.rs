//! Verified core of a process-level network connection monitor.
//!
//! The library identifies which remote endpoints a target process is
//! communicating with: it classifies IPv4 addresses, decodes the OS
//! connection tables, selects the most likely process among candidates
//! with the same image name, parses captured IPv4/UDP frames into a
//! traffic-statistics cache, and turns counter samples into per-endpoint
//! rates with time-to-live eviction.  All I/O (table queries, raw-socket
//! capture, geolocation requests) lives outside the library and hands in
//! plain values.

pub mod addr;
pub mod aggregate;
pub mod conn_table;
pub mod resolver;
pub mod session;
pub mod sniffer;
pub mod wg_config;

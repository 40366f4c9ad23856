//! Discovery of live hosts in an IPv4 range: the decisions of a scan, verified.
//!
//! The library holds every rule of a scan and performs no I/O. A caller owns the
//! sockets and the runtime: it asks a [`scan::Scan`] what to do next, probes the
//! ports that a [`probe::HostProbe`] names, and hands the outcomes back. What
//! comes out is the list of [`host::HostResult`] records in address order and,
//! for a renderer, their [`graph::Graph`].
//!
//! - [`addr`]: addresses as numbers and as text
//! - [`range`]: the addresses of a scan
//! - [`ports`]: the ports that are probed
//! - [`os`]: the guess at an operating system
//! - [`host`]: the record of a host
//! - [`probe`]: the probe of one host
//! - [`gate`]: the bound on probes that run at a time
//! - [`scan`]: the scan of a range
//! - [`graph`]: hosts grouped by network
//! - [`error`]: the ways in which a scan fails

pub mod error;
pub mod ports;
pub mod os;
pub mod addr;
pub mod range;
pub mod host;
pub mod probe;
pub mod gate;
pub mod scan;
pub mod graph;

//! Network-health reporting for a peer-exchange address book.
//!
//! The crate takes a static address book of peer nodes, merges in peers
//! discovered from live status endpoints, and turns per-candidate probe
//! outcomes into a ranked latency report. All decision logic (port
//! parsing, peer filtering, identity resolution, geolocation gating,
//! ranking, rendering) is verified; the surrounding I/O lives outside
//! the library and hands plain values in and out.

pub mod cli;
pub mod error;
pub mod net_info;
pub mod parser;
pub mod pinger;
pub mod reporter;
pub mod writer;

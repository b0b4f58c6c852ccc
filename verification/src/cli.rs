//! Plain-value shapes of the command-line surface.
//!
//! Argument parsing and path resolution are I/O and live outside the
//! library; these types are what that layer hands in.

use vstd::prelude::*;

verus! {

/// Arguments of the latency-report command, with paths already
/// resolved by the caller.
pub struct AddrBookArgs {
    pub addrbook_path: String,
    pub output_path: Option<String>,
    pub location_api_key: Option<String>,
}

/// The selected subcommand.
pub enum Command {
    Latency(AddrBookArgs),
}

/// The whole parsed command line.
pub struct Cli {
    pub command: Command,
}

} // verus!

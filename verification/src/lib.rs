//! Concurrent TCP connect-scanner core: wildcard IPv4 range expansion,
//! per-host probe aggregation, and report construction.

pub mod addr;
pub mod scanner;

use vstd::prelude::*;

verus! {

/// Command-line arguments for a scan: the base address, an optional port
/// list, and an optional output path for the caller's own use.
pub struct Args {
    pub ip: String,
    pub ports: Option<Vec<u16>>,
    pub output: Option<String>,
}

} // verus!

//! The report-writing step's handle. The file write itself is I/O and
//! lives outside the library; with no output path the report is simply
//! not persisted.

use vstd::prelude::*;

verus! {

/// Handle for the report-writing step.
pub struct AddrBookWriter {}

impl AddrBookWriter {
    pub fn new() -> (r: Self) {
        Self {  }
    }
}

impl Default for AddrBookWriter {
    fn default() -> (r: Self) {
        Self::new()
    }
}

} // verus!

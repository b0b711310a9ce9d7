//! Content-based similarity fingerprints ("shingleprints") for the logical
//! entries of a TAR archive: a bit-exact rolling CRC hash, a bounded
//! K-smallest-unique selector, a streaming frame splitter, and a budgeted
//! buffer pool, all with verified contracts.

pub mod ingress;
pub mod pool;
pub mod shingleprint;
pub mod tar;
pub mod tunables;
pub mod util;

use vstd::prelude::*;

verus! {

/// Half-open byte range `[start, end)` inside an archive.
#[derive(Clone, Copy, Debug, PartialEq, Eq, Structural)]
pub struct Bounds {
    pub start: usize,
    pub end: usize,
}

impl Bounds {
    pub open spec fn wf(self) -> bool {
        self.start <= self.end
    }

    pub fn new(start: usize, end: usize) -> (r: Bounds)
        requires
            start <= end,
        ensures
            r.start == start,
            r.end == end,
    {
        Bounds { start, end }
    }

    /// Number of bytes the range covers.
    pub fn len(&self) -> (r: usize)
        requires
            self.wf(),
        ensures
            r == self.end - self.start,
    {
        self.end - self.start
    }
}

} // verus!

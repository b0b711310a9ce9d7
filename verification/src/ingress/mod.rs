//! Ingestion of an archive: logical frames and their sketches.
//!
//! Splitting walks the physical 512-byte records strictly in order, merging
//! metadata continuation records into the frame of the entry they describe
//! and skipping end-of-archive padding; each discovered frame then gets head
//! and tail shingleprints. Drivers that feed these functions from a file
//! mapping or a pipe live outside the verified core.

use vstd::prelude::*;

use crate::shingleprint::hash::HashTables;
use crate::shingleprint::is_shingleprint_of;
use crate::shingleprint::shingleprint_range;
use crate::shingleprint::Shingleprint;
use crate::tunables::MAX_HEAD_AND_TAIL_LEN;
use crate::Bounds;

pub mod map;
pub mod read;

verus! {

/// What made the input unreadable.
#[derive(Clone, Copy, Debug, PartialEq, Eq, Structural)]
pub enum MalformedKind {
    /// The input ended inside a header record, or a pending multi-record
    /// entry never saw its final header.
    TruncatedHeader,
    /// The input ended inside an entry's (padded) content.
    TruncatedContent,
    /// The content-length field of a header parses to no value.
    BadLengthField,
}

/// Corrupt or truncated input, reported at the offending byte offset.
/// Fatal to the scan: record offsets are self-describing, so nothing after
/// the fault can be trusted.
#[derive(Clone, Copy, Debug, PartialEq, Eq, Structural)]
pub struct MalformedInput {
    pub offset: usize,
    pub kind: MalformedKind,
}

/// One logical archive entry: its byte range plus sketches of the first and
/// last stretch of its bytes. Immutable once emitted.
#[derive(Clone, Debug, PartialEq, Eq)]
pub struct Frame {
    pub bounds: Bounds,
    pub head_sp: Shingleprint,
    pub tail_sp: Shingleprint,
}

/// The sketching rule for a frame: one sketch shared by head and tail when
/// the frame fits in `MAX_HEAD_AND_TAIL_LEN` bytes, otherwise independent
/// sketches of its first and last `MAX_HEAD_AND_TAIL_LEN` bytes.
pub open spec fn spec_frame_sketched(archive: Seq<u8>, f: Frame) -> bool {
    let start = f.bounds.start as int;
    let end = f.bounds.end as int;
    if end - start <= MAX_HEAD_AND_TAIL_LEN {
        &&& is_shingleprint_of(archive.subrange(start, end), f.head_sp@)
        &&& f.tail_sp@ == f.head_sp@
    } else {
        &&& is_shingleprint_of(archive.subrange(start, start + MAX_HEAD_AND_TAIL_LEN), f.head_sp@)
        &&& is_shingleprint_of(archive.subrange(end - MAX_HEAD_AND_TAIL_LEN, end), f.tail_sp@)
    }
}

/// A frame's sketches are a function of the archive bytes and its bounds
/// alone: any two frames over the same range meeting the sketching rule
/// carry the same head and tail sketches, whichever worker, traversal order
/// or hashing back end produced them.
pub proof fn lemma_frame_sketch_determined(archive: Seq<u8>, f1: Frame, f2: Frame)
    requires
        f1.bounds == f2.bounds,
        spec_frame_sketched(archive, f1),
        spec_frame_sketched(archive, f2),
    ensures
        f1.head_sp@ == f2.head_sp@,
        f1.tail_sp@ == f2.tail_sp@,
{
    let start = f1.bounds.start as int;
    let end = f1.bounds.end as int;
    if end - start <= MAX_HEAD_AND_TAIL_LEN {
        crate::shingleprint::lemma_shingleprint_determined(
            archive.subrange(start, end),
            f1.head_sp@,
            f2.head_sp@,
        );
    } else {
        crate::shingleprint::lemma_shingleprint_determined(
            archive.subrange(start, start + MAX_HEAD_AND_TAIL_LEN),
            f1.head_sp@,
            f2.head_sp@,
        );
        crate::shingleprint::lemma_shingleprint_determined(
            archive.subrange(end - MAX_HEAD_AND_TAIL_LEN, end),
            f1.tail_sp@,
            f2.tail_sp@,
        );
    }
}

/// Computes the head and tail sketches of the frame at `bounds`.
pub fn shingleprint_frame(tables: &HashTables, archive: &[u8], bounds: Bounds) -> (f: Frame)
    requires
        tables.wf(),
        bounds.wf(),
        bounds.end <= archive@.len(),
    ensures
        f.bounds == bounds,
        spec_frame_sketched(archive@, f),
{
    let flen = bounds.end - bounds.start;
    if flen <= MAX_HEAD_AND_TAIL_LEN {
        let sp = shingleprint_range(tables, archive, bounds.start, bounds.end);
        let copy = sp.duplicate();
        Frame { bounds, head_sp: sp, tail_sp: copy }
    } else {
        let head_sp = shingleprint_range(
            tables,
            archive,
            bounds.start,
            bounds.start + MAX_HEAD_AND_TAIL_LEN,
        );
        let tail_sp = shingleprint_range(
            tables,
            archive,
            bounds.end - MAX_HEAD_AND_TAIL_LEN,
            bounds.end,
        );
        Frame { bounds, head_sp, tail_sp }
    }
}

} // verus!

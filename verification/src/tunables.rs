//! Compile-time configuration knobs for the fingerprinting pipeline.

use vstd::prelude::*;

verus! {

/// Width in bytes of the sliding window hashed into one shingle.
pub const SHINGLE_LEN: usize = 16;

/// Number of distinct hash values kept in a shingleprint (the selector's K).
pub const SHINGLEPRINT_FEATURES: usize = 32;

/// Cutoff for the head and tail sketches of a frame: entries longer than this
/// get two independent sketches over their first and last this-many bytes.
pub const MAX_HEAD_AND_TAIL_LEN: usize = 65536;

/// Fixed capacity of one pooled buffer.
pub const BUFFER_CAP: usize = MAX_HEAD_AND_TAIL_LEN * 2;

/// Number of shingleprinting worker threads a concurrent driver should spawn.
pub const N_SHINGLEPRINTING_THREADS: usize = 4;

/// Capacity of the bounded inter-stage channels, including the recycling
/// queue of the buffer pool.
pub const CHANNEL_CAP: usize = 64;

/// Soft ceiling, in bytes, on memory committed to pooled buffers.
pub const INGRESS_BUFFER_MEMORY_TARGET: usize = BUFFER_CAP * 64;

} // verus!

//! Shingleprints: similarity sketches made of the K smallest distinct
//! rolling-hash values of a byte buffer.
//!
//! Every `SHINGLE_LEN`-byte window (stride 1) of the buffer is hashed, and
//! the `SHINGLEPRINT_FEATURES` smallest distinct hash values, ascending, form
//! the sketch. Because the selection depends only on the set of window
//! hashes, the sketch is a function of the buffer contents alone: neither
//! traversal order nor the hashing back end can change it.

use vstd::prelude::*;

use crate::tunables::SHINGLEPRINT_FEATURES;
use crate::tunables::SHINGLE_LEN;
use crate::util::is_k_smallest_unique;
use crate::util::k_smallest_unique;
use crate::util::lemma_k_smallest_unique_determined;

pub mod hash;

verus! {

/// The hash of every `SHINGLE_LEN`-byte window of `s`, in buffer order.
pub open spec fn window_hashes(s: Seq<u8>) -> Seq<u32> {
    if s.len() < SHINGLE_LEN {
        Seq::<u32>::empty()
    } else {
        Seq::new(
            (s.len() - SHINGLE_LEN + 1) as nat,
            |i: int| hash::crc32c(s.subrange(i, i + SHINGLE_LEN)),
        )
    }
}

/// `sp` is the shingleprint of the byte string `s`: the ascending sequence
/// of the `SHINGLEPRINT_FEATURES` smallest distinct window hashes.
pub open spec fn is_shingleprint_of(s: Seq<u8>, sp: Seq<u32>) -> bool {
    is_k_smallest_unique(window_hashes(s).to_set(), SHINGLEPRINT_FEATURES as nat, sp)
}

/// Similarity sketch of a byte region. The hashes are strictly ascending and
/// at most `SHINGLEPRINT_FEATURES` long.
#[derive(Clone, Debug, Eq, PartialEq)]
pub struct Shingleprint(Vec<u32>);

impl View for Shingleprint {
    type V = Seq<u32>;

    closed spec fn view(&self) -> Seq<u32> {
        self.0@
    }
}

impl Shingleprint {
    /// The selected hash values, ascending.
    pub fn hashes(&self) -> (r: &Vec<u32>)
        ensures
            r@ == self@,
    {
        &self.0
    }

    /// A copy of this sketch with the same hash values.
    pub fn duplicate(&self) -> (r: Shingleprint)
        ensures
            r@ == self@,
    {
        let copied = self.0.clone();
        proof {
            assert(copied@ =~= self.0@);
        }
        Shingleprint(copied)
    }
}

/// The shingleprint of `input[start..end]`, hashing every window with the
/// given tables and keeping the K smallest distinct values.
pub fn shingleprint_range(
    tables: &hash::HashTables,
    input: &[u8],
    start: usize,
    end: usize,
) -> (r: Shingleprint)
    requires
        tables.wf(),
        start <= end <= input@.len(),
    ensures
        is_shingleprint_of(input@.subrange(start as int, end as int), r@),
{
    let ghost region = input@.subrange(start as int, end as int);
    let mut hashes: Vec<u32> = Vec::new();
    let len = end - start;
    if len >= SHINGLE_LEN {
        let count = len - SHINGLE_LEN + 1;
        let mut i: usize = 0;
        while i < count
            invariant
                0 <= i <= count,
                count == len - SHINGLE_LEN + 1,
                len == end - start,
                start <= end <= input@.len(),
                tables.wf(),
                region == input@.subrange(start as int, end as int),
                hashes@.len() == i,
                forall|k: int|
                    0 <= k < i ==> hashes@[k] == hash::crc32c(
                        #[trigger] region.subrange(k, k + SHINGLE_LEN),
                    ),
            decreases count - i,
        {
            let h = tables.hash_range(input, start + i, start + i + SHINGLE_LEN);
            proof {
                input@.lemma_slice_of_slice(start as int, end as int, i as int, i + SHINGLE_LEN);
                assert(input@.subrange(start + i, start + i + SHINGLE_LEN) =~= region.subrange(
                    i as int,
                    i + SHINGLE_LEN,
                ));
            }
            hashes.push(h);
            i += 1;
        }
    }
    proof {
        assert(hashes@ =~= window_hashes(region));
    }
    let sel = k_smallest_unique(hashes.as_slice(), SHINGLEPRINT_FEATURES);
    Shingleprint(sel)
}

/// Builds the sketch from an already-computed sequence of window hashes, in
/// any order: the selection depends only on the set of hashes, so a hashing
/// back end may produce them however it likes (tiled, reordered,
/// hardware-accelerated) as long as the values are the same.
pub fn sketch_from_hashes(hashes: &[u32]) -> (r: Shingleprint)
    ensures
        is_k_smallest_unique(hashes@.to_set(), SHINGLEPRINT_FEATURES as nat, r@),
{
    Shingleprint(k_smallest_unique(hashes, SHINGLEPRINT_FEATURES))
}

/// Shingleprint of a whole buffer, portable back end.
pub fn shingleprint_portable(input: &[u8]) -> (r: Shingleprint)
    ensures
        is_shingleprint_of(input@, r@),
{
    let tables = hash::HashTables::new();
    let r = shingleprint_range(&tables, input, 0, input.len());
    proof {
        assert(input@.subrange(0, input@.len() as int) =~= input@);
    }
    r
}

/// A byte string has exactly one shingleprint: any two sketches meeting
/// [`is_shingleprint_of`] for the same bytes are equal. Hence the sketch
/// depends only on buffer contents, never on which hashing path or traversal
/// order produced the window hashes.
pub proof fn lemma_shingleprint_determined(s: Seq<u8>, sp1: Seq<u32>, sp2: Seq<u32>)
    requires
        is_shingleprint_of(s, sp1),
        is_shingleprint_of(s, sp2),
    ensures
        sp1 == sp2,
{
    broadcast use vstd::seq_lib::group_seq_properties;

    lemma_k_smallest_unique_determined(
        window_hashes(s).to_set(),
        SHINGLEPRINT_FEATURES as nat,
        sp1,
        sp2,
    );
}

} // verus!

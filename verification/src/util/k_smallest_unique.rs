//! The selector over arrayvec's fixed-capacity vector.
//!
//! Same selection rule as [`super::k_smallest_unique`], but the working set
//! lives in an `ArrayVec` on the stack, capped at `SHINGLEPRINT_FEATURES`,
//! as the hashing hot path wants it. The `ArrayVec` itself is an outside
//! type: what it holds is named by [`arrayvec_contents`], each method the
//! algorithm uses carries a contract over that name, and the selection is
//! verified against those contracts to meet the same final condition as the
//! growable-vector selector.

use vstd::prelude::*;

use crate::util::exceeds_all;
use crate::util::is_k_smallest_unique;
use crate::util::lemma_insert_keeps;
use crate::util::lemma_sorted_insert;
use crate::util::search_position;
use crate::util::strictly_sorted;

verus! {

#[verifier::external_type_specification]
#[verifier::external_body]
#[verifier::reject_recursive_types(T)]
pub struct ExArrayVec<T, const CAP: usize>(arrayvec::ArrayVec<T, CAP>);

/// What a working set holds, in storage order.
pub uninterp spec fn arrayvec_contents(v: arrayvec::ArrayVec<u32, 32>) -> Seq<u32>;

/// Relies on arrayvec's ArrayVec::new: a fresh vector holds nothing.
#[verifier::external_body]
fn av_new() -> (r: arrayvec::ArrayVec<u32, 32>)
    ensures
        arrayvec_contents(r) == Seq::<u32>::empty(),
{
    arrayvec::ArrayVec::new()
}

/// Relies on arrayvec's ArrayVec::len: the number of elements held.
#[verifier::external_body]
fn av_len(v: &arrayvec::ArrayVec<u32, 32>) -> (r: usize)
    ensures
        r == arrayvec_contents(*v).len(),
{
    v.len()
}

/// Relies on arrayvec's ArrayVec::as_slice: a view of exactly the held
/// elements, in order.
#[verifier::external_body]
fn av_as_slice(v: &arrayvec::ArrayVec<u32, 32>) -> (r: &[u32])
    ensures
        r@ == arrayvec_contents(*v),
{
    v.as_slice()
}

/// Relies on arrayvec's ArrayVec::insert: shifts the elements from `index`
/// up and writes `element` there. Full vectors and out-of-range indices
/// panic, so they are excluded here.
#[verifier::external_body]
fn av_insert(v: &mut arrayvec::ArrayVec<u32, 32>, index: usize, element: u32)
    requires
        index <= arrayvec_contents(*old(v)).len(),
        arrayvec_contents(*old(v)).len() < 32,
    ensures
        arrayvec_contents(*final(v)) == arrayvec_contents(*old(v)).insert(index as int, element),
{
    v.insert(index, element)
}

/// Relies on arrayvec's ArrayVec::truncate: keeps the first `new_len`
/// elements, or all of them when there are fewer.
#[verifier::external_body]
fn av_truncate(v: &mut arrayvec::ArrayVec<u32, 32>, new_len: usize)
    ensures
        arrayvec_contents(*final(v)) == if new_len < arrayvec_contents(*old(v)).len() {
            arrayvec_contents(*old(v)).subrange(0, new_len as int)
        } else {
            arrayvec_contents(*old(v))
        },
{
    v.truncate(new_len)
}

/// Keeps the `SHINGLEPRINT_FEATURES` smallest distinct values of `values`,
/// ascending, in a stack-resident working set.
///
/// While below capacity every non-duplicate goes in at its sorted position;
/// at capacity a candidate below the current maximum evicts that maximum.
/// The result depends only on the set of values, never on arrival order.
pub fn k_smallest_unique(values: &[u32]) -> (r: arrayvec::ArrayVec<u32, 32>)
    ensures
        is_k_smallest_unique(values@.to_set(), 32, arrayvec_contents(r)),
{
    let mut ws = av_new();
    let mut idx: usize = 0;
    while idx < values.len()
        invariant
            0 <= idx <= values@.len(),
            strictly_sorted(arrayvec_contents(ws)),
            arrayvec_contents(ws).len() <= 32,
            forall|i: int|
                0 <= i < arrayvec_contents(ws).len() ==> values@.contains(
                    #[trigger] arrayvec_contents(ws)[i],
                ),
            forall|j: int|
                0 <= j < idx ==> arrayvec_contents(ws).contains(#[trigger] values@[j]) || (
                arrayvec_contents(ws).len() == 32 && exceeds_all(
                    arrayvec_contents(ws),
                    values@[j],
                )),
        decreases values@.len() - idx,
    {
        let c = *vstd::slice::slice_index_get(values, idx);
        assert(values@.contains(c));
        let len = av_len(&ws);
        if len < 32 {
            let (found, pos) = search_position(av_as_slice(&ws), c);
            if !found {
                let ghost old_c = arrayvec_contents(ws);
                av_insert(&mut ws, pos, c);
                proof {
                    old_c.insert_ensures(pos as int, c);
                    lemma_sorted_insert(old_c, pos as int, c);
                    lemma_insert_keeps(old_c, pos as int, c);
                }
            }
        } else {
            let slice = av_as_slice(&ws);
            let last = *vstd::slice::slice_index_get(slice, 31);
            if c < last {
                let (found, pos) = search_position(slice, c);
                if !found {
                    let ghost old_c = arrayvec_contents(ws);
                    assert(pos < 32) by {
                        assert(old_c[31] == last);
                    }
                    av_truncate(&mut ws, 31);
                    let ghost mid_c = arrayvec_contents(ws);
                    proof {
                        assert(mid_c =~= old_c.subrange(0, 31));
                        assert(forall|i: int| 0 <= i < 31 ==> #[trigger] mid_c[i] == old_c[i]);
                        assert(strictly_sorted(mid_c));
                    }
                    av_insert(&mut ws, pos, c);
                    let ghost new_c = arrayvec_contents(ws);
                    proof {
                        mid_c.insert_ensures(pos as int, c);
                        lemma_sorted_insert(mid_c, pos as int, c);
                        lemma_insert_keeps(mid_c, pos as int, c);
                        assert(forall|i: int|
                            0 <= i < new_c.len() ==> values@.contains(#[trigger] new_c[i])) by {
                            assert(forall|i: int|
                                0 <= i < new_c.len() ==> new_c.contains(#[trigger] new_c[i]));
                        }
                        assert forall|j: int| 0 <= j <= idx implies new_c.contains(
                            #[trigger] values@[j],
                        ) || (new_c.len() == 32 && exceeds_all(new_c, values@[j])) by {
                            let x = values@[j];
                            if j == idx {
                                assert(new_c[pos as int] == c);
                                assert(new_c.contains(c));
                            } else if old_c.contains(x) {
                                let oi = choose|oi: int|
                                    0 <= oi < old_c.len() && old_c[oi] == x;
                                if oi == 31 {
                                    // the evicted maximum exceeds everything kept
                                    assert(exceeds_all(new_c, x)) by {
                                        assert(forall|i: int|
                                            0 <= i < new_c.len() ==> #[trigger] new_c[i] < last);
                                    }
                                } else {
                                    let ni = if oi < pos {
                                        oi
                                    } else {
                                        oi + 1
                                    };
                                    assert(mid_c[oi] == x);
                                    assert(new_c[ni] == x);
                                    assert(new_c.contains(x));
                                }
                            } else {
                                assert(exceeds_all(old_c, x));
                                assert(x > last);
                                assert(exceeds_all(new_c, x)) by {
                                    assert(forall|i: int|
                                        0 <= i < new_c.len() ==> #[trigger] new_c[i] <= last);
                                }
                            }
                        }
                    }
                } else {
                    assert(arrayvec_contents(ws).contains(c));
                }
            } else {
                proof {
                    let cs = arrayvec_contents(ws);
                    if c == last {
                        assert(cs[31] == c);
                        assert(cs.contains(c));
                    } else {
                        assert(exceeds_all(cs, c)) by {
                            assert(forall|i: int| 0 <= i < cs.len() ==> #[trigger] cs[i] <= last);
                        }
                    }
                }
            }
        }
        idx += 1;
    }
    proof {
        crate::util::lemma_selector_post(values@, 32, arrayvec_contents(ws));
    }
    ws
}

} // verus!

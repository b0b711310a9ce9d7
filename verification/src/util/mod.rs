//! Bounded top-K distinct-value selection: a single forward pass keeping the
//! K numerically smallest distinct values seen, in ascending order.

pub mod k_smallest_unique;

use vstd::prelude::*;
use vstd::seq_lib::group_seq_properties;
use vstd::set_lib::lemma_len_subset;
use vstd::set_lib::lemma_subset_equality;

verus! {

pub open spec fn strictly_sorted(s: Seq<u32>) -> bool {
    forall|i: int, j: int| 0 <= i < j < s.len() ==> s[i] < s[j]
}

/// `x` is larger than every element of `ws`.
pub open spec fn exceeds_all(ws: Seq<u32>, x: u32) -> bool {
    forall|i: int| 0 <= i < ws.len() ==> x > ws[i]
}

/// `r` is the ascending sequence of the (at most) `k` smallest distinct
/// values of `s`: sorted with no duplicates, drawn from `s`, as long as `s`
/// allows up to `k`, and anything of `s` left out is above everything kept.
pub open spec fn is_k_smallest_unique(s: Set<u32>, k: nat, r: Seq<u32>) -> bool {
    &&& strictly_sorted(r)
    &&& forall|i: int| 0 <= i < r.len() ==> s.contains(#[trigger] r[i])
    &&& r.len() == if s.len() < k {
        s.len()
    } else {
        k
    }
    &&& forall|x: u32| s.contains(x) ==> r.contains(x) || (r.len() == k && exceeds_all(r, x))
}

/// Binary search over a strictly ascending slice: either the index holding
/// `x`, or the position where `x` would be inserted to keep the order.
pub(crate) fn search_position(ws: &[u32], x: u32) -> (r: (bool, usize))
    requires
        strictly_sorted(ws@),
    ensures
        r.0 ==> r.1 < ws@.len() && ws@[r.1 as int] == x,
        !r.0 ==> r.1 <= ws@.len() && (forall|j: int| 0 <= j < r.1 ==> ws@[j] < x) && (forall|
        j: int|
            r.1 <= j < ws@.len() ==> ws@[j] > x),
{
    let mut lo: usize = 0;
    let mut hi: usize = ws.len();
    while lo < hi
        invariant
            0 <= lo <= hi <= ws@.len(),
            strictly_sorted(ws@),
            forall|j: int| 0 <= j < lo ==> ws@[j] < x,
            forall|j: int| hi <= j < ws@.len() ==> ws@[j] > x,
        decreases hi - lo,
    {
        let mid = lo + (hi - lo) / 2;
        let v = *vstd::slice::slice_index_get(ws, mid);
        if v < x {
            lo = mid + 1;
        } else if v > x {
            hi = mid;
        } else {
            return (true, mid);
        }
    }
    (false, lo)
}

/// Keeps the `k` smallest distinct values of `values`, ascending.
///
/// A sorted working set capped at `k` is grown by sorted insertion while
/// below capacity; at capacity a candidate below the current maximum (and not
/// already present) evicts that maximum. The result depends only on the set
/// of values, never on their order of arrival.
pub fn k_smallest_unique(values: &[u32], k: usize) -> (r: Vec<u32>)
    ensures
        is_k_smallest_unique(values@.to_set(), k as nat, r@),
{
    let mut ws: Vec<u32> = Vec::new();
    let mut idx: usize = 0;
    while idx < values.len()
        invariant
            0 <= idx <= values@.len(),
            strictly_sorted(ws@),
            ws@.len() <= k,
            forall|i: int| 0 <= i < ws@.len() ==> values@.contains(#[trigger] ws@[i]),
            forall|j: int|
                0 <= j < idx ==> ws@.contains(#[trigger] values@[j]) || (ws@.len() == k
                    && exceeds_all(ws@, values@[j])),
        decreases values@.len() - idx,
    {
        let c = values[idx];
        assert(values@.contains(c));
        if ws.len() < k {
            let (found, pos) = search_position(ws.as_slice(), c);
            if !found {
                let ghost old_ws = ws@;
                ws.insert(pos, c);
                proof {
                    old_ws.insert_ensures(pos as int, c);
                    lemma_sorted_insert(old_ws, pos as int, c);
                    lemma_insert_keeps(old_ws, pos as int, c);
                }
            }
        } else if k > 0 {
            let last = ws[k - 1];
            if c < last {
                let (found, pos) = search_position(ws.as_slice(), c);
                if !found {
                    let ghost old_ws = ws@;
                    assert(pos < k) by {
                        assert(old_ws[k - 1] == last);
                    }
                    ws.insert(pos, c);
                    proof {
                        old_ws.insert_ensures(pos as int, c);
                        lemma_sorted_insert(old_ws, pos as int, c);
                        lemma_insert_keeps(old_ws, pos as int, c);
                        // After the insertion the old maximum sits at the end.
                        assert(ws@[k as int] == old_ws[k - 1]);
                    }
                    let ghost mid_ws = ws@;
                    let evicted = ws.pop();
                    proof {
                        assert(ws@ =~= mid_ws.drop_last());
                        assert(evicted == Some(last));
                        // Every retained element was already present before.
                        assert(forall|i: int|
                            0 <= i < ws@.len() ==> #[trigger] ws@[i] == mid_ws[i]);
                        assert(forall|i: int|
                            0 <= i < ws@.len() ==> values@.contains(#[trigger] ws@[i])) by {
                            assert(forall|i: int|
                                0 <= i < mid_ws.len() - 1 ==> mid_ws.contains(#[trigger] mid_ws[i]));
                        }
                        // Everything processed so far is retained or exceeded.
                        assert forall|j: int| 0 <= j <= idx implies ws@.contains(
                            #[trigger] values@[j],
                        ) || (ws@.len() == k && exceeds_all(ws@, values@[j])) by {
                            let x = values@[j];
                            if j == idx {
                                assert(mid_ws[pos as int] == c);
                                assert(ws@[pos as int] == c);
                                assert(ws@.contains(c));
                            } else if old_ws.contains(x) {
                                let oi = choose|oi: int|
                                    0 <= oi < old_ws.len() && old_ws[oi] == x;
                                if oi == k - 1 {
                                    // The evicted maximum exceeds the new working set.
                                    assert(exceeds_all(ws@, x)) by {
                                        assert(forall|i: int|
                                            0 <= i < ws@.len() ==> #[trigger] ws@[i] < last);
                                    }
                                } else {
                                    let ni = if oi < pos {
                                        oi
                                    } else {
                                        oi + 1
                                    };
                                    assert(mid_ws[ni] == x);
                                    assert(ni < mid_ws.len() - 1);
                                    assert(ws@[ni] == x);
                                    assert(ws@.contains(x));
                                }
                            } else {
                                // exceeded the old working set, so also the new one
                                assert(exceeds_all(old_ws, x));
                                assert(x > last);
                                assert(exceeds_all(ws@, x)) by {
                                    assert(forall|i: int|
                                        0 <= i < ws@.len() ==> #[trigger] ws@[i] <= last);
                                }
                            }
                        }
                    }
                } else {
                    assert(ws@.contains(c));
                }
            } else {
                // c is at least the current maximum: either a duplicate of it
                // or larger than the whole working set.
                proof {
                    if c == last {
                        assert(ws@[k - 1] == c);
                        assert(ws@.contains(c));
                    } else {
                        assert(exceeds_all(ws@, c)) by {
                            assert(forall|i: int| 0 <= i < ws@.len() ==> #[trigger] ws@[i] <= last);
                        }
                    }
                }
            }
        }
        idx += 1;
    }
    proof {
        assert(values@.subrange(0, values@.len() as int) =~= values@);
        lemma_selector_post(values@, k as nat, ws@);
    }
    ws
}

/// Inserting `c` at its search position keeps the order strict, provided the
/// elements before the position are below `c` and those after are above it.
pub(crate) proof fn lemma_sorted_insert(ws: Seq<u32>, pos: int, c: u32)
    requires
        strictly_sorted(ws),
        0 <= pos <= ws.len(),
        forall|j: int| 0 <= j < pos ==> ws[j] < c,
        forall|j: int| pos <= j < ws.len() ==> ws[j] > c,
    ensures
        strictly_sorted(ws.insert(pos, c)),
{
    let r = ws.insert(pos, c);
    assert forall|i: int, j: int| 0 <= i < j < r.len() implies r[i] < r[j] by {
        assert(r[i] == if i < pos {
            ws[i]
        } else if i == pos {
            c
        } else {
            ws[i - 1]
        });
        assert(r[j] == if j < pos {
            ws[j]
        } else if j == pos {
            c
        } else {
            ws[j - 1]
        });
    }
}

/// Every element of `ws` is still present after inserting `c`.
pub(crate) proof fn lemma_insert_keeps(ws: Seq<u32>, pos: int, c: u32)
    requires
        0 <= pos <= ws.len(),
    ensures
        forall|x: u32| ws.contains(x) ==> #[trigger] ws.insert(pos, c).contains(x),
        ws.insert(pos, c).contains(c),
{
    let r = ws.insert(pos, c);
    assert(r[pos] == c);
    assert forall|x: u32| ws.contains(x) implies #[trigger] r.contains(x) by {
        let i = choose|i: int| 0 <= i < ws.len() && ws[i] == x;
        if i < pos {
            assert(r[i] == x);
        } else {
            assert(r[i + 1] == x);
        }
    }
}

/// Strict ascending order admits no duplicates.
pub(crate) proof fn lemma_strictly_sorted_no_duplicates(s: Seq<u32>)
    requires
        strictly_sorted(s),
    ensures
        s.no_duplicates(),
{
}

/// Lifts the loop invariant of the selector to the set-level contract.
pub(crate) proof fn lemma_selector_post(values: Seq<u32>, k: nat, ws: Seq<u32>)
    requires
        strictly_sorted(ws),
        ws.len() <= k,
        forall|i: int| 0 <= i < ws.len() ==> values.contains(#[trigger] ws[i]),
        forall|j: int|
            0 <= j < values.len() ==> ws.contains(#[trigger] values[j]) || (ws.len() == k
                && exceeds_all(ws, values[j])),
    ensures
        is_k_smallest_unique(values.to_set(), k, ws),
{
    broadcast use group_seq_properties;

    let s = values.to_set();
    assert(forall|x: u32| s.contains(x) <==> values.contains(x));
    assert(forall|i: int| 0 <= i < ws.len() ==> s.contains(#[trigger] ws[i]));
    assert forall|x: u32| s.contains(x) implies ws.contains(x) || (ws.len() == k && exceeds_all(
        ws,
        x,
    )) by {
        let j = choose|j: int| 0 <= j < values.len() && values[j] == x;
        assert(ws.contains(values[j]) || (ws.len() == k && exceeds_all(ws, values[j])));
    }
    lemma_strictly_sorted_no_duplicates(ws);
    ws.unique_seq_to_set();
    assert(ws.to_set().subset_of(s)) by {
        assert forall|x: u32| ws.to_set().contains(x) implies s.contains(x) by {
            let i = choose|i: int| 0 <= i < ws.len() && ws[i] == x;
        }
    }
    lemma_len_subset(ws.to_set(), s);
    if ws.len() < k {
        // everything distinct fit in the working set
        assert(s.subset_of(ws.to_set())) by {
            assert forall|x: u32| s.contains(x) implies ws.to_set().contains(x) by {
                assert(ws.contains(x));
            }
        }
        lemma_len_subset(s, ws.to_set());
        assert(ws.len() == s.len());
    } else {
        assert(s.len() >= k);
    }
}

/// The values of `s` strictly below `x`.
pub open spec fn values_below(s: Set<u32>, x: u32) -> Set<u32> {
    s.filter(|y: u32| y < x)
}

/// The selector's result holds exactly the members of `s` that have fewer
/// than `k` values of `s` below them: the `k` smallest distinct values.
pub proof fn lemma_k_smallest_unique_membership(s: Set<u32>, k: nat, r: Seq<u32>, x: u32)
    requires
        s.finite(),
        is_k_smallest_unique(s, k, r),
    ensures
        r.contains(x) <==> (s.contains(x) && values_below(s, x).len() < k),
{
    s.lemma_len_filter(|y: u32| y < x);
    let below = values_below(s, x);
    if r.contains(x) {
        let i = choose|i: int| 0 <= i < r.len() && r[i] == x;
        let front = r.subrange(0, i);
        assert(strictly_sorted(front));
        lemma_strictly_sorted_no_duplicates(front);
        front.unique_seq_to_set();
        assert(below =~= front.to_set()) by {
            assert forall|y: u32| below.contains(y) implies front.to_set().contains(y) by {
                assert(s.contains(y) && y < x);
                if !r.contains(y) {
                    assert(r.len() == k && exceeds_all(r, y));
                    assert(y > r[i]);
                } else {
                    let j = choose|j: int| 0 <= j < r.len() && r[j] == y;
                    assert(j < i);
                    assert(front[j] == y);
                    assert(front.contains(y));
                }
            }
            assert forall|y: u32| front.to_set().contains(y) implies below.contains(y) by {
                let j = choose|j: int| 0 <= j < front.len() && front[j] == y;
                assert(r[j] == y);
                assert(y < x);
            }
        }
        assert(below.len() == i);
    } else {
        if s.contains(x) && below.len() < k {
            assert(r.len() == k && exceeds_all(r, x));
            lemma_strictly_sorted_no_duplicates(r);
            r.unique_seq_to_set();
            assert(r.to_set().subset_of(below)) by {
                assert forall|y: u32| r.to_set().contains(y) implies below.contains(y) by {
                    let i = choose|i: int| 0 <= i < r.len() && r[i] == y;
                    assert(x > r[i]);
                    assert(s.contains(y));
                }
            }
            lemma_len_subset(r.to_set(), below);
            assert(false);
        }
    }
}

/// Two strictly ascending sequences with the same members are identical.
proof fn lemma_sorted_same_membership_equal(r1: Seq<u32>, r2: Seq<u32>)
    requires
        strictly_sorted(r1),
        strictly_sorted(r2),
        forall|x: u32| r1.contains(x) <==> r2.contains(x),
    ensures
        r1 == r2,
    decreases r1.len(),
{
    if r1.len() == 0 {
        if r2.len() > 0 {
            assert(r2.contains(r2[0]));
        }
        assert(r1 =~= r2);
    } else {
        assert(r1.contains(r1[0]));
        assert(r2.len() > 0);
        let j = choose|j: int| 0 <= j < r2.len() && r2[j] == r1[0];
        assert(r2.contains(r2[0]));
        let i = choose|i: int| 0 <= i < r1.len() && r1[i] == r2[0];
        assert(r2[0] <= r2[j]);
        assert(r1[0] <= r1[i]);
        assert(r1[0] == r2[0]);
        let t1 = r1.drop_first();
        let t2 = r2.drop_first();
        assert forall|x: u32| t1.contains(x) <==> t2.contains(x) by {
            lemma_tail_membership(r1, x);
            lemma_tail_membership(r2, x);
        }
        assert(strictly_sorted(t1)) by {
            assert(forall|a: int| 0 <= a < t1.len() ==> t1[a] == r1[a + 1]);
        }
        assert(strictly_sorted(t2)) by {
            assert(forall|a: int| 0 <= a < t2.len() ==> t2[a] == r2[a + 1]);
        }
        lemma_sorted_same_membership_equal(t1, t2);
        assert(r1 =~= r2) by {
            assert(forall|a: int| 1 <= a < r1.len() ==> r1[a] == t1[a - 1]);
            assert(forall|a: int| 1 <= a < r2.len() ==> r2[a] == t2[a - 1]);
        }
    }
}

/// In a strictly ascending sequence, the tail holds exactly the members above
/// the head.
proof fn lemma_tail_membership(r: Seq<u32>, x: u32)
    requires
        strictly_sorted(r),
        r.len() > 0,
    ensures
        r.drop_first().contains(x) <==> (r.contains(x) && x > r[0]),
{
    let t = r.drop_first();
    if t.contains(x) {
        let i = choose|i: int| 0 <= i < t.len() && t[i] == x;
        assert(r[i + 1] == x);
    }
    if r.contains(x) && x > r[0] {
        let i = choose|i: int| 0 <= i < r.len() && r[i] == x;
        assert(i > 0);
        assert(t[i - 1] == x);
    }
}

/// The selector's result is a function of the value set alone: any two
/// sequences meeting the contract for the same set and `k` are equal.
pub proof fn lemma_k_smallest_unique_determined(s: Set<u32>, k: nat, r1: Seq<u32>, r2: Seq<u32>)
    requires
        s.finite(),
        is_k_smallest_unique(s, k, r1),
        is_k_smallest_unique(s, k, r2),
    ensures
        r1 == r2,
{
    assert forall|x: u32| r1.contains(x) <==> r2.contains(x) by {
        lemma_k_smallest_unique_membership(s, k, r1, x);
        lemma_k_smallest_unique_membership(s, k, r2, x);
    }
    lemma_sorted_same_membership_equal(r1, r2);
}

/// Selection is invariant under any permutation of the input sequence: two
/// inputs holding the same values in any order and multiplicity-preserving
/// rearrangement select the same result.
pub proof fn lemma_k_smallest_unique_permutation(
    v1: Seq<u32>,
    v2: Seq<u32>,
    k: nat,
    r1: Seq<u32>,
    r2: Seq<u32>,
)
    requires
        v1.to_multiset() == v2.to_multiset(),
        is_k_smallest_unique(v1.to_set(), k, r1),
        is_k_smallest_unique(v2.to_set(), k, r2),
    ensures
        r1 == r2,
{
    broadcast use group_seq_properties;

    assert(v1.to_set() =~= v2.to_set()) by {
        assert forall|x: u32| v1.contains(x) <==> v2.contains(x) by {
            vstd::seq_lib::to_multiset_contains(v1, x);
            vstd::seq_lib::to_multiset_contains(v2, x);
        }
    }
    lemma_k_smallest_unique_determined(v1.to_set(), k, r1, r2);
}

/// With `k == 0` the selector always returns the empty sequence.
pub proof fn lemma_k_smallest_unique_zero(s: Set<u32>, r: Seq<u32>)
    requires
        is_k_smallest_unique(s, 0, r),
    ensures
        r == Seq::<u32>::empty(),
{
    assert(r =~= Seq::<u32>::empty());
}

/// With fewer than `k` distinct values the selector keeps all of them,
/// ascending.
pub proof fn lemma_k_smallest_unique_few(s: Set<u32>, k: nat, r: Seq<u32>)
    requires
        s.finite(),
        s.len() <= k,
        is_k_smallest_unique(s, k, r),
    ensures
        r.to_set() == s,
        r.len() == s.len(),
{
    lemma_strictly_sorted_no_duplicates(r);
    r.unique_seq_to_set();
    assert(r.to_set().subset_of(s)) by {
        assert forall|x: u32| r.to_set().contains(x) implies s.contains(x) by {
            let i = choose|i: int| 0 <= i < r.len() && r[i] == x;
        }
    }
    lemma_subset_equality(r.to_set(), s);
}

} // verus!

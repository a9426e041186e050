//! The comparison sorts for regions that the radix pass does not take: an
//! insertion sort for small regions and a merge sort for the others, both
//! driven by the cache-aware comparator.
use std::cmp::Ordering;
use vstd::prelude::*;
use crate::accessor::KeyAccessor;
use crate::compare::{compare_entries, lemma_not_greater};
use crate::order::{key_le, key_lt, lemma_key_order, lemma_le_trans};
use crate::ptr::{
    ids, key_of, lemma_region_perm, lemma_region_sub, ptr_ok, region_ok, SortPtr,
};

verus! {

broadcast use vstd::seq_lib::group_to_multiset_ensures;

/// Key of the row that pointer `x` names.
pub open spec fn kp<T: KeyAccessor + ?Sized>(provider: &T, x: SortPtr) -> Seq<u8> {
    key_of(provider, x.index)
}

/// Pointers `s[lo..hi)` are in key order.
pub open spec fn sorted_at<T: KeyAccessor + ?Sized>(provider: &T, s: Seq<SortPtr>, lo: int, hi: int) -> bool {
    forall|p: int, q: int|
        lo <= p < q < hi ==> key_le(kp(provider, #[trigger] s[p]), kp(provider, #[trigger] s[q]))
}

/// In `s[lo..hi)`, pointers with equal keys stand in increasing order of index.
pub open spec fn ties_at<T: KeyAccessor + ?Sized>(provider: &T, s: Seq<SortPtr>, lo: int, hi: int) -> bool {
    forall|p: int, q: int|
        lo <= p < q < hi && kp(provider, #[trigger] s[p]) == kp(provider, #[trigger] s[q])
            ==> s[p].index <= s[q].index
}

/// What a region in `[lo, hi)` of `s` gives for one of its pointers and a pair.
pub proof fn lemma_region_at<T: KeyAccessor + ?Sized>(
    provider: &T,
    s: Seq<SortPtr>,
    lo: int,
    hi: int,
    cp: int,
    p: int,
    q: int,
)
    requires
        0 <= lo <= p < hi <= s.len(),
        lo <= q < hi,
        region_ok(provider, s.subrange(lo, hi), cp),
    ensures
        ptr_ok(provider, s[p], cp),
        crate::order::agree_upto(kp(provider, s[p]), kp(provider, s[q]), cp),
{
    let t = s.subrange(lo, hi);
    assert(t[p - lo] == s[p]);
    assert(t.contains(s[p]));
    assert(ids(t)[p - lo] == s[p].index);
    assert(ids(t)[q - lo] == s[q].index);
    assert(ids(t).contains(s[p].index));
    assert(ids(t).contains(s[q].index));
}

/// Merges the sorted runs `[lo, mid)` and `[mid, hi)` of `v`; on equal keys
/// the left run goes first.
fn merge<T: KeyAccessor + ?Sized>(
    provider: &T,
    v: &mut Vec<SortPtr>,
    lo: usize,
    mid: usize,
    hi: usize,
    cp: usize,
)
    requires
        lo <= mid <= hi <= old(v).len(),
        region_ok(provider, old(v)@.subrange(lo as int, hi as int), cp as int),
        sorted_at(provider, old(v)@, lo as int, mid as int),
        sorted_at(provider, old(v)@, mid as int, hi as int),
    ensures
        final(v).len() == old(v).len(),
        forall|k: int|
            0 <= k < old(v).len() && !(lo <= k < hi) ==> #[trigger] final(v)@[k] == old(v)@[k],
        final(v)@.subrange(lo as int, hi as int).to_multiset() == old(v)@.subrange(
            lo as int,
            hi as int,
        ).to_multiset(),
        sorted_at(provider, final(v)@, lo as int, hi as int),
        ties_at(provider, old(v)@, lo as int, hi as int) ==> ties_at(
            provider,
            final(v)@,
            lo as int,
            hi as int,
        ),
{
    let ghost s = v@;
    let ghost ties = ties_at(provider, s, lo as int, hi as int);
    let mut out: Vec<SortPtr> = Vec::new();
    let mut i = lo;
    let mut j = mid;
    while i < mid || j < hi
        invariant
            v@ == s,
            ties == ties_at(provider, s, lo as int, hi as int),
            lo <= i <= mid <= j <= hi <= s.len(),
            out.len() == (i - lo) + (j - mid),
            out@.to_multiset() == s.subrange(lo as int, i as int).to_multiset().add(
                s.subrange(mid as int, j as int).to_multiset(),
            ),
            region_ok(provider, s.subrange(lo as int, hi as int), cp as int),
            sorted_at(provider, s, lo as int, mid as int),
            sorted_at(provider, s, mid as int, hi as int),
            sorted_at(provider, out@, 0, out.len() as int),
            forall|a: int, t: int|
                0 <= a < out.len() && (i <= t < mid || j <= t < hi) ==> key_le(
                    kp(provider, #[trigger] out@[a]),
                    kp(provider, #[trigger] s[t]),
                ),
            ties ==> ties_at(provider, out@, 0, out.len() as int),
            ties ==> forall|a: int, t: int|
                0 <= a < out.len() && (i <= t < mid || j <= t < hi) && kp(
                    provider,
                    #[trigger] out@[a],
                ) == kp(provider, #[trigger] s[t]) ==> out@[a].index <= s[t].index,
        decreases (mid - i) + (hi - j),
    {
        let mut take_left = true;
        if i == mid {
            take_left = false;
        } else if j < hi {
            proof {
                lemma_region_at(provider, s, lo as int, hi as int, cp as int, i as int, j as int);
                lemma_region_at(provider, s, lo as int, hi as int, cp as int, j as int, i as int);
            }
            let c = compare_entries(provider, &v[i], &v[j], cp);
            take_left = match c {
                Ordering::Greater => false,
                _ => true,
            };
            proof {
                assert(v[i as int] == s[i as int] && v[j as int] == s[j as int]);
                if c != Ordering::Greater {
                    lemma_not_greater(kp(provider, s[i as int]), kp(provider, s[j as int]), c);
                    assert(key_le(kp(provider, s[i as int]), kp(provider, s[j as int])));
                } else {
                    lemma_key_order(kp(provider, s[i as int]), kp(provider, s[j as int]));
                }
                assert(take_left ==> key_le(kp(provider, s[i as int]), kp(provider, s[j as int])));
            }
        }
        assert(take_left ==> i < mid && (j < hi ==> key_le(
            kp(provider, s[i as int]),
            kp(provider, s[j as int]),
        )));
        assert(!take_left ==> j < hi && (i < mid ==> key_le(
            kp(provider, s[j as int]),
            kp(provider, s[i as int]),
        ) && kp(provider, s[j as int]) != kp(provider, s[i as int])));
        let ghost old_out = out@;
        if take_left {
            let x = v[i];
            proof {
                // x is at most everything still to come
                assert forall|t: int| (i < t < mid || j <= t < hi) implies key_le(
                    kp(provider, x),
                    kp(provider, #[trigger] s[t]),
                ) by {
                    if t < mid {
                        assert(key_le(kp(provider, s[i as int]), kp(provider, s[t])));
                    } else {
                        assert(key_le(kp(provider, s[j as int]), kp(provider, s[t])) || t == j);
                        lemma_key_order(kp(provider, s[t]), kp(provider, s[t]));
                        lemma_le_trans(kp(provider, x), kp(provider, s[j as int]), kp(provider, s[t]), 0);
                    }
                }
                assert(s.subrange(lo as int, i + 1) =~= s.subrange(lo as int, i as int).push(x));
            }
            out.push(x);
            i = i + 1;
            proof {
                assert(out@.to_multiset() =~= s.subrange(lo as int, i as int).to_multiset().add(
                    s.subrange(mid as int, j as int).to_multiset(),
                ));
                if ties {
                    assert forall|t: int|
                        (i <= t < mid || j <= t < hi) && kp(provider, x) == kp(provider, #[trigger] s[t])
                            implies x.index <= s[t].index by {
                        assert(s[i - 1] == x);
                        assert(ties_at(provider, s, lo as int, hi as int));
                        assert(lo <= i - 1 < t < hi);
                        assert(kp(provider, s[i - 1]) == kp(provider, s[t]) ==> s[i - 1].index
                            <= s[t].index);
                    }
                }
            }
        } else {
            let x = v[j];
            proof {
                assert forall|t: int| (i <= t < mid || j < t < hi) implies key_le(
                    kp(provider, x),
                    kp(provider, #[trigger] s[t]),
                ) by {
                    if t >= mid {
                        assert(key_le(kp(provider, s[j as int]), kp(provider, s[t])));
                    } else {
                        assert(key_le(kp(provider, s[i as int]), kp(provider, s[t])) || t == i);
                        lemma_key_order(kp(provider, s[t]), kp(provider, s[t]));
                        lemma_le_trans(kp(provider, x), kp(provider, s[i as int]), kp(provider, s[t]), 0);
                    }
                }
                if ties {
                    assert forall|t: int|
                        (i <= t < mid || j < t < hi) && kp(provider, x) == kp(provider, #[trigger] s[t])
                            implies x.index <= s[t].index by {
                        if t < mid {
                            // the right head goes first only when its key is strictly smaller
                            lemma_key_order(kp(provider, s[i as int]), kp(provider, x));
                            lemma_key_order(kp(provider, x), kp(provider, x));
                            lemma_key_order(kp(provider, s[i as int]), kp(provider, s[t]));
                            assert(key_le(kp(provider, s[i as int]), kp(provider, s[t])));
                            lemma_le_trans(kp(provider, s[i as int]), kp(provider, s[t]), kp(provider, x), 0);
                        } else {
                            assert(ties_at(provider, s, lo as int, hi as int));
                            assert(kp(provider, s[j as int]) == kp(provider, s[t]) ==> s[j as int].index
                                <= s[t].index);
                        }
                    }
                }
                assert(s.subrange(mid as int, j + 1) =~= s.subrange(mid as int, j as int).push(x));
            }
            out.push(x);
            j = j + 1;
            proof {
                assert(out@.to_multiset() =~= s.subrange(lo as int, i as int).to_multiset().add(
                    s.subrange(mid as int, j as int).to_multiset(),
                ));
            }
        }
        proof {
            assert(out@ == old_out.push(out@[out.len() - 1]));
        }
    }
    proof {
        assert(s.subrange(lo as int, hi as int) =~= s.subrange(lo as int, mid as int) + s.subrange(
            mid as int,
            hi as int,
        ));
        vstd::seq_lib::lemma_multiset_commutative(
            s.subrange(lo as int, mid as int),
            s.subrange(mid as int, hi as int),
        );
    }
    let n = out.len();
    let mut k: usize = 0;
    while k < n
        invariant
            n == out.len(),
            n == hi - lo,
            lo <= hi <= s.len(),
            v.len() == s.len(),
            0 <= k <= n,
            forall|t: int| 0 <= t < s.len() && !(lo <= t < lo + k) ==> #[trigger] v@[t] == s[t],
            forall|t: int| lo <= t < lo + k ==> #[trigger] v@[t] == out@[t - lo],
        decreases n - k,
    {
        v.set(lo + k, out[k]);
        k = k + 1;
    }
    proof {
        assert(v@.subrange(lo as int, hi as int) =~= out@);
        assert forall|p: int, q: int| lo <= p < q < hi implies key_le(
            kp(provider, #[trigger] v@[p]),
            kp(provider, #[trigger] v@[q]),
        ) by {
            assert(v@[p] == out@[p - lo] && v@[q] == out@[q - lo]);
        }
        if ties {
            assert forall|p: int, q: int|
                lo <= p < q < hi && kp(provider, #[trigger] v@[p]) == kp(provider, #[trigger] v@[q])
                    implies v@[p].index <= v@[q].index by {
                assert(v@[p] == out@[p - lo] && v@[q] == out@[q - lo]);
            }
        }
    }
}

/// Sorts `v[lo..hi)` by key, stably: the region's pointers are rearranged,
/// nothing else moves, and pointers with equal keys keep their order.
pub fn merge_sort<T: KeyAccessor + ?Sized>(
    provider: &T,
    v: &mut Vec<SortPtr>,
    lo: usize,
    hi: usize,
    cp: usize,
)
    requires
        lo <= hi <= old(v).len(),
        region_ok(provider, old(v)@.subrange(lo as int, hi as int), cp as int),
    ensures
        final(v).len() == old(v).len(),
        forall|k: int|
            0 <= k < old(v).len() && !(lo <= k < hi) ==> #[trigger] final(v)@[k] == old(v)@[k],
        final(v)@.subrange(lo as int, hi as int).to_multiset() == old(v)@.subrange(
            lo as int,
            hi as int,
        ).to_multiset(),
        sorted_at(provider, final(v)@, lo as int, hi as int),
        ties_at(provider, old(v)@, lo as int, hi as int) ==> ties_at(
            provider,
            final(v)@,
            lo as int,
            hi as int,
        ),
    decreases hi - lo,
{
    if hi - lo <= 1 {
        return;
    }
    let ghost s0 = v@;
    let mid = lo + (hi - lo) / 2;
    proof {
        lemma_region_sub(provider, s0, lo as int, hi as int, lo as int, mid as int, cp as int);
        lemma_region_sub(provider, s0, lo as int, hi as int, mid as int, hi as int, cp as int);
    }
    merge_sort(provider, v, lo, mid, cp);
    let ghost s1 = v@;
    proof {
        assert(s1.subrange(mid as int, hi as int) =~= s0.subrange(mid as int, hi as int));
    }
    merge_sort(provider, v, mid, hi, cp);
    let ghost s2 = v@;
    proof {
        assert(s2.subrange(lo as int, mid as int) =~= s1.subrange(lo as int, mid as int));
        assert(s2.subrange(lo as int, hi as int) =~= s2.subrange(lo as int, mid as int)
            + s2.subrange(mid as int, hi as int));
        assert(s0.subrange(lo as int, hi as int) =~= s0.subrange(lo as int, mid as int)
            + s0.subrange(mid as int, hi as int));
        vstd::seq_lib::lemma_multiset_commutative(
            s2.subrange(lo as int, mid as int),
            s2.subrange(mid as int, hi as int),
        );
        vstd::seq_lib::lemma_multiset_commutative(
            s0.subrange(lo as int, mid as int),
            s0.subrange(mid as int, hi as int),
        );
        lemma_region_perm(
            provider,
            s0.subrange(lo as int, hi as int),
            s2.subrange(lo as int, hi as int),
            cp as int,
        );
        assert(sorted_at(provider, s2, lo as int, mid as int));
        if ties_at(provider, s0, lo as int, hi as int) {
            assert(ties_at(provider, s1, lo as int, mid as int));
            assert forall|p: int, q: int|
                lo <= p < q < hi && kp(provider, #[trigger] s2[p]) == kp(provider, #[trigger] s2[q])
                    implies s2[p].index <= s2[q].index by {
                if p < mid && q >= mid {
                    let l = s2.subrange(lo as int, mid as int);
                    let r = s2.subrange(mid as int, hi as int);
                    assert(l[p - lo] == s2[p]);
                    assert(r[q - mid] == s2[q]);
                    assert(l.to_multiset().count(s2[p]) > 0);
                    assert(r.to_multiset().count(s2[q]) > 0);
                    let l0 = s0.subrange(lo as int, mid as int);
                    let r0 = s0.subrange(mid as int, hi as int);
                    assert(l0.contains(s2[p]));
                    assert(r0.contains(s2[q]));
                    let p0 = choose|k: int| 0 <= k < l0.len() && l0[k] == s2[p];
                    let q0 = choose|k: int| 0 <= k < r0.len() && r0[k] == s2[q];
                    assert(s0[lo + p0] == s2[p]);
                    assert(s0[mid + q0] == s2[q]);
                } else if q < mid {
                    assert(s2[p] == s1[p] && s2[q] == s1[q]);
                }
            }
        }
    }
    merge(provider, v, lo, mid, hi, cp);
}

/// Regions up to this length are sorted by insertion.
pub const SMALL_THRESHOLD: usize = 32;

proof fn lemma_swap_multiset<A>(s: Seq<A>, p: int, q: int)
    requires
        0 <= p < s.len(),
        0 <= q < s.len(),
        p != q,
    ensures
        s.update(p, s[q]).update(q, s[p]).to_multiset() == s.to_multiset(),
{
    broadcast use vstd::seq_lib::to_multiset_update;
    let t = s.update(p, s[q]);
    assert(t[q] == s[q]);
    assert(t.update(q, s[p]).to_multiset() =~= s.to_multiset());
}

/// Sorts `v[lo..hi)` by key, stably, moving each pointer left past the
/// pointers whose keys are greater.
pub fn insertion_sort<T: KeyAccessor + ?Sized>(
    provider: &T,
    v: &mut Vec<SortPtr>,
    lo: usize,
    hi: usize,
    cp: usize,
)
    requires
        lo <= hi <= old(v).len(),
        region_ok(provider, old(v)@.subrange(lo as int, hi as int), cp as int),
    ensures
        final(v).len() == old(v).len(),
        forall|k: int|
            0 <= k < old(v).len() && !(lo <= k < hi) ==> #[trigger] final(v)@[k] == old(v)@[k],
        final(v)@.subrange(lo as int, hi as int).to_multiset() == old(v)@.subrange(
            lo as int,
            hi as int,
        ).to_multiset(),
        sorted_at(provider, final(v)@, lo as int, hi as int),
        ties_at(provider, old(v)@, lo as int, hi as int) ==> ties_at(
            provider,
            final(v)@,
            lo as int,
            hi as int,
        ),
{
    if hi - lo <= 1 {
        return;
    }
    let ghost s0 = v@;
    let ghost tie = ties_at(provider, s0, lo as int, hi as int);
    let mut i = lo + 1;
    while i < hi
        invariant
            lo < i <= hi <= v.len(),
            v.len() == s0.len(),
            region_ok(provider, s0.subrange(lo as int, hi as int), cp as int),
            tie == ties_at(provider, s0, lo as int, hi as int),
            forall|k: int| 0 <= k < s0.len() && !(lo <= k < i) ==> #[trigger] v@[k] == s0[k],
            v@.subrange(lo as int, hi as int).to_multiset() == s0.subrange(lo as int, hi as int).to_multiset(),
            sorted_at(provider, v@, lo as int, i as int),
            tie ==> ties_at(provider, v@, lo as int, i as int),
            tie ==> forall|p: int, q: int|
                lo <= p < i <= q < hi && kp(provider, #[trigger] v@[p]) == kp(provider, #[trigger] v@[q])
                    ==> v@[p].index <= v@[q].index,
        decreases hi - i,
    {
        let ghost vi = v@;
        let ghost x = v@[i as int];
        let mut j = i;
        let mut moving = true;
        while moving
            invariant
                lo <= j <= i < hi <= v.len(),
                v.len() == s0.len(),
                region_ok(provider, s0.subrange(lo as int, hi as int), cp as int),
                tie == ties_at(provider, s0, lo as int, hi as int),
                x == vi[i as int],
                v@[j as int] == x,
                forall|k: int| 0 <= k < s0.len() && !(lo <= k <= i) ==> #[trigger] v@[k] == s0[k],
                forall|k: int| 0 <= k < s0.len() && i < k ==> #[trigger] vi[k] == s0[k],
                forall|k: int| lo <= k < j ==> #[trigger] v@[k] == vi[k],
                forall|k: int| j < k <= i ==> #[trigger] v@[k] == vi[k - 1],
                v@.subrange(lo as int, hi as int).to_multiset() == s0.subrange(lo as int, hi as int).to_multiset(),
                sorted_at(provider, vi, lo as int, i as int),
                forall|q: int| j < q <= i ==> key_lt(kp(provider, x), kp(provider, #[trigger] v@[q])),
                !moving ==> j == lo || key_le(kp(provider, v@[j - 1]), kp(provider, x)),
                tie ==> ties_at(provider, vi, lo as int, i as int),
                tie ==> forall|p: int, q: int|
                    lo <= p < i <= q < hi && kp(provider, #[trigger] vi[p]) == kp(provider, #[trigger] vi[q])
                        ==> vi[p].index <= vi[q].index,
            decreases j - lo + (if moving { 1int } else { 0int }),
        {
            if j == lo {
                moving = false;
            } else {
                proof {
                    crate::ptr::lemma_region_perm(provider, s0.subrange(lo as int, hi as int), v@.subrange(lo as int, hi as int), cp as int);
                    lemma_region_at(provider, v@, lo as int, hi as int, cp as int, j - 1, j as int);
                    lemma_region_at(provider, v@, lo as int, hi as int, cp as int, j as int, j - 1);
                }
                let a = v[j - 1];
                let b = v[j];
                let c = compare_entries(provider, &a, &b, cp);
                proof {
                    lemma_key_order(kp(provider, a), kp(provider, b));
                }
                match c {
                    Ordering::Greater => {
                        proof {
                            lemma_swap_multiset(v@.subrange(lo as int, hi as int), j - 1 - lo, j - lo);
                            assert(v@.update(j - 1, b).update(j as int, a).subrange(lo as int, hi as int)
                                =~= v@.subrange(lo as int, hi as int).update(j - 1 - lo, b).update(j - lo, a));
                        }
                        v.set(j - 1, b);
                        v.set(j, a);
                        j = j - 1;
                    },
                    _ => {
                        moving = false;
                    },
                }
            }
        }
        proof {
            // where the loop stopped, the left neighbour is at most x
            let w = v@;
            assert forall|p: int, q: int| lo <= p < q < i + 1 implies key_le(
                kp(provider, #[trigger] w[p]),
                kp(provider, #[trigger] w[q]),
            ) by {
                if q < j {
                    assert(w[p] == vi[p] && w[q] == vi[q]);
                } else if q == j {
                    assert(w[p] == vi[p]);
                    if p < j - 1 {
                        assert(w[j - 1] == vi[j - 1]);
                        assert(key_le(kp(provider, vi[p]), kp(provider, vi[j - 1])));
                        lemma_le_trans(kp(provider, vi[p]), kp(provider, vi[j - 1]), kp(provider, x), 0);
                    }
                } else if p == j {
                    lemma_key_order(kp(provider, x), kp(provider, w[q]));
                } else if p > j {
                    assert(w[p] == vi[p - 1] && w[q] == vi[q - 1]);
                } else {
                    assert(w[p] == vi[p] && w[q] == vi[q - 1]);
                }
            }
            if tie {
                assert forall|p: int, q: int|
                    lo <= p < q < i + 1 && kp(provider, #[trigger] w[p]) == kp(provider, #[trigger] w[q])
                        implies w[p].index <= w[q].index by {
                    if q < j {
                        assert(w[p] == vi[p] && w[q] == vi[q]);
                    } else if q == j {
                        assert(w[p] == vi[p]);
                        assert(kp(provider, vi[p]) == kp(provider, vi[i as int]) ==> vi[p].index <= vi[i as int].index);
                    } else if p == j {
                        assert(key_lt(kp(provider, x), kp(provider, w[q])));
                    } else if p > j {
                        assert(w[p] == vi[p - 1] && w[q] == vi[q - 1]);
                    } else {
                        assert(w[p] == vi[p] && w[q] == vi[q - 1]);
                    }
                }
                assert forall|p: int, q: int|
                    lo <= p < i + 1 <= q < hi && kp(provider, #[trigger] w[p]) == kp(provider, #[trigger] w[q])
                        implies w[p].index <= w[q].index by {
                    assert(w[q] == vi[q]);
                    if p < j {
                        assert(w[p] == vi[p]);
                    } else if p == j {
                        assert(vi[i as int] == s0[i as int] && vi[q] == s0[q]);
                    } else {
                        assert(w[p] == vi[p - 1]);
                    }
                }
            }
        }
        i = i + 1;
    }
}

} // verus!

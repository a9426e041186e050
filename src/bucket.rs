//! Buckets of a radix pass: the pointers whose cached top byte is `b`, in
//! their order, and where each bucket starts once they are laid side by side.
use vstd::multiset::Multiset;
use vstd::prelude::*;
use crate::accessor::KeyAccessor;
use crate::merge::{kp, ties_at};
use crate::ptr::SortPtr;

verus! {

broadcast use {
    vstd::seq_lib::group_to_multiset_ensures,
    vstd::seq::Seq::lemma_filter_push,
    vstd::seq::Seq::lemma_filter_len_push,
};

/// Number of radix buckets: one per byte value.
pub const RADIX_BUCKETS: usize = 256;

/// The radix digit of a pointer: the most significant byte of its cache.
pub open spec fn top(p: SortPtr) -> int {
    (p.cache >> 56u64) as int
}

/// Holds of the pointers whose digit is `b`.
pub open spec fn in_bucket(b: int) -> spec_fn(SortPtr) -> bool {
    |p: SortPtr| top(p) == b
}

/// The pointers of `s` whose digit is `b`, in their order in `s`.
pub open spec fn bucket(s: Seq<SortPtr>, b: int) -> Seq<SortPtr> {
    s.filter(in_bucket(b))
}

/// Where bucket `b` starts when the buckets are laid out in digit order.
pub open spec fn bstart(s: Seq<SortPtr>, b: int) -> int
    decreases b,
{
    if b <= 0 {
        0
    } else {
        bstart(s, b - 1) + bucket(s, b - 1).len()
    }
}

/// The pointers of buckets below `b`.
pub open spec fn below(s: Seq<SortPtr>, b: int) -> Multiset<SortPtr>
    decreases b,
{
    if b <= 0 {
        Multiset::empty()
    } else {
        below(s, b - 1).add(bucket(s, b - 1).to_multiset())
    }
}

pub proof fn lemma_top_bound(p: SortPtr)
    ensures
        0 <= top(p) < 256,
{
    let c = p.cache;
    assert(c >> 56u64 < 256u64) by (bit_vector);
}

pub proof fn lemma_bstart_mono(s: Seq<SortPtr>, a: int, b: int)
    requires
        a <= b,
    ensures
        bstart(s, a) <= bstart(s, b),
    decreases b - a,
{
    if a < b {
        lemma_bstart_mono(s, a, b - 1);
    }
}

proof fn lemma_push_below(s: Seq<SortPtr>, x: SortPtr, b: int)
    ensures
        bstart(s.push(x), b) == bstart(s, b) + (if 0 <= top(x) < b {
            1int
        } else {
            0int
        }),
        below(s.push(x), b) == (if 0 <= top(x) < b {
            below(s, b).insert(x)
        } else {
            below(s, b)
        }),
    decreases b,
{
    if b > 0 {
        lemma_push_below(s, x, b - 1);
        assert(s.push(x).filter(in_bucket(b - 1)) == (if in_bucket(b - 1)(x) {
            s.filter(in_bucket(b - 1)).push(x)
        } else {
            s.filter(in_bucket(b - 1))
        }));
        if top(x) == b - 1 {
            assert(below(s.push(x), b) =~= below(s, b).insert(x));
        } else if 0 <= top(x) < b {
            assert(below(s.push(x), b) =~= below(s, b).insert(x));
        }
    }
}

/// The buckets together hold every pointer, once.
pub proof fn lemma_buckets_cover(s: Seq<SortPtr>)
    ensures
        bstart(s, 256) == s.len(),
        below(s, 256) == s.to_multiset(),
    decreases s.len(),
{
    if s.len() == 0 {
        lemma_empty_buckets(s, 256);
        assert(s.to_multiset() =~= Multiset::empty());
    } else {
        let t = s.drop_last();
        let x = s.last();
        assert(t.push(x) =~= s);
        lemma_buckets_cover(t);
        lemma_push_below(t, x, 256);
        lemma_top_bound(x);
    }
}

proof fn lemma_empty_buckets(s: Seq<SortPtr>, b: int)
    requires
        s.len() == 0,
    ensures
        bstart(s, b) == 0,
        below(s, b) == Multiset::<SortPtr>::empty(),
    decreases b,
{
    reveal(Seq::filter);
    if b > 0 {
        lemma_empty_buckets(s, b - 1);
        assert(bucket(s, b - 1).len() == 0);
        assert(bucket(s, b - 1).to_multiset() =~= Multiset::empty());
        assert(below(s, b) =~= Multiset::empty());
    }
}

/// Laid out in digit order, the buckets hold what `s` holds, bucket by bucket.
pub proof fn lemma_layout_below(aux: Seq<SortPtr>, s: Seq<SortPtr>, b: int)
    requires
        0 <= b <= 256,
        aux.len() == s.len(),
        forall|d: int|
            0 <= d < 256 ==> aux.subrange(bstart(s, d), bstart(s, d + 1)) == #[trigger] bucket(s, d),
    ensures
        aux.subrange(0, bstart(s, b)).to_multiset() == below(s, b),
    decreases b,
{
    lemma_buckets_cover(s);
    if b == 0 {
        assert(aux.subrange(0, 0).to_multiset() =~= Multiset::empty());
    } else {
        lemma_layout_below(aux, s, b - 1);
        lemma_bstart_mono(s, b, 256);
        lemma_bstart_mono(s, b - 1, b);
        lemma_bstart_mono(s, 0, b - 1);
        assert(bstart(s, 0) == 0);
        assert(aux.subrange(0, bstart(s, b)) =~= aux.subrange(0, bstart(s, b - 1)) + aux.subrange(
            bstart(s, b - 1),
            bstart(s, b),
        ));
        assert(aux.subrange(bstart(s, b - 1), bstart(s, b)) == bucket(s, b - 1));
        vstd::seq_lib::lemma_multiset_commutative(
            aux.subrange(0, bstart(s, b - 1)),
            aux.subrange(bstart(s, b - 1), bstart(s, b)),
        );
    }
}

/// A bucket keeps the tie order of the pointers it was drawn from.
pub proof fn lemma_bucket_ties<T: KeyAccessor + ?Sized>(provider: &T, s: Seq<SortPtr>, b: int)
    requires
        ties_at(provider, s, 0, s.len() as int),
    ensures
        ties_at(provider, bucket(s, b), 0, bucket(s, b).len() as int),
    decreases s.len(),
{
    if s.len() == 0 {
        reveal(Seq::filter);
    } else {
        let t = s.drop_last();
        let x = s.last();
        assert(t.push(x) =~= s);
        assert(ties_at(provider, t, 0, t.len() as int)) by {
            assert forall|p: int, q: int|
                0 <= p < q < t.len() && kp(provider, #[trigger] t[p]) == kp(provider, #[trigger] t[q])
                    implies t[p].index <= t[q].index by {
                assert(s[p] == t[p] && s[q] == t[q]);
            }
        }
        lemma_bucket_ties(provider, t, b);
        let bt = bucket(t, b);
        if top(x) == b {
            let bs = bucket(s, b);
            assert(bs == bt.push(x));
            assert forall|p: int, q: int|
                0 <= p < q < bs.len() && kp(provider, #[trigger] bs[p]) == kp(provider, #[trigger] bs[q])
                    implies bs[p].index <= bs[q].index by {
                if q == bs.len() - 1 {
                    assert(bt.contains(bs[p]));
                    t.lemma_filter_contains_rev(in_bucket(b), bs[p]);
                    let k = choose|k: int| 0 <= k < t.len() && t[k] == bs[p];
                    assert(s[k] == bs[p] && s[s.len() - 1] == x);
                } else {
                    assert(bs[p] == bt[p] && bs[q] == bt[q]);
                }
            }
        }
    }
}

} // verus!

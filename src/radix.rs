//! The steps of a radix pass over a region: the bytes its caches share, the
//! histogram of digits, and the stable distribution into buckets.
use vstd::prelude::*;
use vstd::std_specs::bits::axiom_u64_leading_zeros;
use crate::bucket::{
    bstart, bucket, in_bucket, lemma_bstart_mono, lemma_buckets_cover, lemma_top_bound, top,
    RADIX_BUCKETS,
};
use crate::prefix::cache_byte;
use crate::ptr::SortPtr;

verus! {

broadcast use {
    vstd::seq_lib::group_to_multiset_ensures,
    vstd::seq::Seq::lemma_filter_push,
    vstd::seq::Seq::lemma_filter_len_push,
};

proof fn lemma_shared_byte(c: u64, a: u64, d: u64, lz: u64, i: u64)
    requires
        (c ^ a) | d == d,
        d >> (64 - lz) as u64 == 0,
        lz <= 64,
        i < 8,
        8 * i + 8 <= lz,
    ensures
        (c >> (56 - 8 * i) as u64) & 0xffu64 == (a >> (56 - 8 * i) as u64) & 0xffu64,
{
    assert((c >> (56 - 8 * i) as u64) & 0xffu64 == (a >> (56 - 8 * i) as u64) & 0xffu64)
        by (bit_vector)
        requires
            (c ^ a) | d == d,
            d >> (64 - lz) as u64 == 0,
            lz <= 64,
            i < 8,
            8 * i + 8 <= lz,
    ;
}

/// Bit `j` (from the least significant end) of `x` is set.
pub open spec fn bit_set(x: u64, j: u64) -> bool {
    (x >> j) & 1u64 == 1u64
}

proof fn lemma_differing_byte(c: u64, a: u64, lz: u64)
    requires
        lz < 64,
        bit_set(c ^ a, (63 - lz) as u64),
    ensures
        (c >> (56 - 8 * (lz / 8)) as u64) & 0xffu64 != (a >> (56 - 8 * (lz / 8)) as u64) & 0xffu64,
{
    assert((c >> (56 - 8 * (lz / 8)) as u64) & 0xffu64 != (a >> (56 - 8 * (lz / 8)) as u64) & 0xffu64)
        by (bit_vector)
        requires
            lz < 64,
            ((c ^ a) >> (63 - lz) as u64) & 1u64 == 1u64,
    ;
}

/// Number of whole leading bytes that every cache of `v[lo..hi)` shares with
/// the first: the leading zero bits of the union of their differences, in
/// bytes.
pub fn common_bytes_prefix(v: &Vec<SortPtr>, lo: usize, hi: usize) -> (r: usize)
    requires
        lo < hi <= v.len(),
    ensures
        r <= 8,
        forall|k: int, i: int|
            lo <= k < hi && 0 <= i < r ==> #[trigger] cache_byte(v@[k].cache, i) == cache_byte(
                v@[lo as int].cache,
                i,
            ),
        r < 8 ==> exists|k: int|
            lo <= k < hi && #[trigger] cache_byte(v@[k].cache, r as int) != cache_byte(
                v@[lo as int].cache,
                r as int,
            ),
{
    let anchor = v[lo].cache;
    let mut diff: u64 = 0;
    let mut k = lo;
    proof {
        assert forall|j: u64| j < 64 implies !#[trigger] bit_set(diff, j) by {
            assert((0u64 >> j) & 1u64 == 0u64) by (bit_vector);
        }
    }
    while k < hi
        invariant
            lo <= k <= hi <= v.len(),
            anchor == v@[lo as int].cache,
            forall|m: int| lo <= m < k ==> (#[trigger] v@[m].cache ^ anchor) | diff == diff,
            forall|j: u64|
                j < 64 && #[trigger] bit_set(diff, j) ==> exists|m: int|
                    lo <= m < k && bit_set(#[trigger] (v@[m].cache ^ anchor), j),
        decreases hi - k,
    {
        let x = v[k].cache ^ anchor;
        let ghost d0 = diff;
        diff = diff | x;
        proof {
            assert forall|m: int| lo <= m <= k implies (#[trigger] v@[m].cache ^ anchor) | diff == diff by {
                let y = v@[m].cache ^ anchor;
                if m < k {
                    assert(y | d0 == d0 ==> y | (d0 | x) == d0 | x) by (bit_vector);
                } else {
                    assert(x | (d0 | x) == d0 | x) by (bit_vector);
                }
            }
            assert forall|j: u64| j < 64 && #[trigger] bit_set(diff, j) implies exists|m: int|
                lo <= m <= k && bit_set(#[trigger] (v@[m].cache ^ anchor), j) by {
                assert(((d0 | x) >> j) & 1u64 == 1u64 ==> (d0 >> j) & 1u64 == 1u64 || (x >> j) & 1u64
                    == 1u64) by (bit_vector);
                if bit_set(d0, j) {
                    let m = choose|m: int| lo <= m < k && bit_set(#[trigger] (v@[m].cache ^ anchor), j);
                    assert(lo <= m <= k && bit_set(v@[m].cache ^ anchor, j));
                } else {
                    assert(bit_set(v@[k as int].cache ^ anchor, j));
                }
            }
        }
        k = k + 1;
    }
    let lz = diff.leading_zeros();
    proof {
        axiom_u64_leading_zeros(diff);
        assert forall|m: int, i: int| lo <= m < hi && 0 <= i < (lz / 8) as int implies #[trigger] cache_byte(
            v@[m].cache,
            i,
        ) == cache_byte(v@[lo as int].cache, i) by {
            lemma_shared_byte(v@[m].cache, anchor, diff, lz as u64, i as u64);
        }
        if lz < 64 {
            let j = (63 - lz) as u64;
            let t = (diff >> j) & 1u64;
            assert(t != 0u64);
            assert(t != 0u64 ==> t == 1u64) by (bit_vector)
                requires
                    t == (diff >> j) & 1u64,
            ;
            assert(bit_set(diff, j));
            let m = choose|m: int| lo <= m < hi && bit_set(#[trigger] (v@[m].cache ^ anchor), j);
            lemma_differing_byte(v@[m].cache, anchor, lz as u64);
            let c = v@[m].cache;
            let sh = (56 - 8 * (lz / 8)) as u64;
            assert((56 - 8 * ((lz / 8) as int)) as u64 == sh);
            assert((c >> sh) & 0xffu64 < 256u64 && (anchor >> sh) & 0xffu64 < 256u64) by (bit_vector);
            assert(cache_byte(v@[m].cache, (lz / 8) as int) != cache_byte(anchor, (lz / 8) as int));
        }
    }
    (lz / 8) as usize
}

/// A vector of `n` zeros.
fn zeros(n: usize) -> (r: Vec<usize>)
    ensures
        r@ == Seq::new(n as nat, |i: int| 0usize),
{
    let mut r: Vec<usize> = Vec::with_capacity(n);
    let mut i: usize = 0;
    while i < n
        invariant
            i <= n,
            r@ == Seq::new(i as nat, |j: int| 0usize),
        decreases n - i,
    {
        r.push(0);
        i = i + 1;
        proof {
            assert(r@ =~= Seq::new(i as nat, |j: int| 0usize));
        }
    }
    r
}

/// The histogram of `v[lo..hi)`: how many caches have each top byte.
pub fn count_buckets(v: &Vec<SortPtr>, lo: usize, hi: usize) -> (counts: Vec<usize>)
    requires
        lo <= hi <= v.len(),
    ensures
        counts.len() == RADIX_BUCKETS,
        forall|b: int|
            0 <= b < 256 ==> #[trigger] counts@[b] == bucket(v@.subrange(lo as int, hi as int), b).len(),
{
    let ghost s = v@.subrange(lo as int, hi as int);
    let mut counts = zeros(RADIX_BUCKETS);
    proof {
        reveal(Seq::filter);
        assert forall|b: int| 0 <= b < 256 implies #[trigger] counts@[b] == bucket(s.take(0), b).len() by {
            assert(s.take(0).len() == 0);
        }
    }
    let mut k = lo;
    while k < hi
        invariant
            lo <= k <= hi <= v.len(),
            s == v@.subrange(lo as int, hi as int),
            counts.len() == 256,
            forall|b: int|
                0 <= b < 256 ==> #[trigger] counts@[b] == bucket(s.take(k - lo), b).len(),
            forall|b: int| 0 <= b < 256 ==> #[trigger] counts@[b] <= k - lo,
        decreases hi - k,
    {
        let x = v[k];
        let b = (x.cache >> 56u64) as usize;
        proof {
            lemma_top_bound(x);
            s.take(k - lo).lemma_filter_len_push(in_bucket(b as int), x);
        }
        let c = counts[b];
        counts.set(b, c + 1);
        proof {
            assert(s.take(k + 1 - lo) =~= s.take(k - lo).push(x));
            assert forall|d: int| 0 <= d < 256 implies #[trigger] counts@[d] == bucket(s.take(k + 1 - lo), d).len() by {
                s.take(k - lo).lemma_filter_len_push(in_bucket(d), x);
            }
        }
        k = k + 1;
    }
    proof {
        assert(s.take(hi - lo) =~= s);
    }
    counts
}

/// Where each bucket starts: the running sum of the histogram.
pub fn bucket_starts(counts: &Vec<usize>, Ghost(s): Ghost<Seq<SortPtr>>) -> (offsets: Vec<usize>)
    requires
        s.len() <= usize::MAX,
        counts.len() == 256,
        forall|b: int| 0 <= b < 256 ==> #[trigger] counts@[b] == bucket(s, b).len(),
    ensures
        offsets.len() == 256,
        forall|b: int| 0 <= b < 256 ==> #[trigger] offsets@[b] == bstart(s, b),
{
    proof {
        lemma_buckets_cover(s);
    }
    let mut offsets: Vec<usize> = Vec::with_capacity(RADIX_BUCKETS);
    let mut sum: usize = 0;
    let mut b: usize = 0;
    while b < RADIX_BUCKETS
        invariant
            b <= 256,
            counts.len() == 256,
            forall|d: int| 0 <= d < 256 ==> #[trigger] counts@[d] == bucket(s, d).len(),
            bstart(s, 256) == s.len(),
            s.len() <= usize::MAX,
            offsets.len() == b,
            sum == bstart(s, b as int),
            forall|d: int| 0 <= d < b ==> #[trigger] offsets@[d] == bstart(s, d),
        decreases 256 - b,
    {
        offsets.push(sum);
        proof {
            lemma_bstart_mono(s, b + 1, 256);
        }
        sum = sum + counts[b];
        b = b + 1;
    }
    offsets
}

/// Rearranges `v[lo..hi)` stably by top byte: bucket `b` of the region comes
/// to stand at its start offset, in the order its pointers had.
pub fn distribute(v: &mut Vec<SortPtr>, lo: usize, hi: usize, offsets: &Vec<usize>)
    requires
        lo <= hi <= old(v).len(),
        offsets.len() == 256,
        forall|b: int|
            0 <= b < 256 ==> #[trigger] offsets@[b] == bstart(old(v)@.subrange(lo as int, hi as int), b),
    ensures
        final(v).len() == old(v).len(),
        forall|k: int|
            0 <= k < old(v).len() && !(lo <= k < hi) ==> #[trigger] final(v)@[k] == old(v)@[k],
        forall|b: int|
            0 <= b < 256 ==> final(v)@.subrange(lo as int, hi as int).subrange(
                bstart(old(v)@.subrange(lo as int, hi as int), b),
                bstart(old(v)@.subrange(lo as int, hi as int), b + 1),
            ) == #[trigger] bucket(old(v)@.subrange(lo as int, hi as int), b),
{
    let ghost s = v@.subrange(lo as int, hi as int);
    let ghost s0 = v@;
    proof {
        lemma_buckets_cover(s);
    }
    let n = hi - lo;
    let mut aux: Vec<SortPtr> = Vec::with_capacity(n);
    let mut i: usize = 0;
    while i < n
        invariant
            i <= n,
            aux.len() == i,
        decreases n - i,
    {
        aux.push(SortPtr { index: 0, cache: 0 });
        i = i + 1;
    }
    let mut cur: Vec<usize> = Vec::with_capacity(RADIX_BUCKETS);
    let mut b: usize = 0;
    while b < RADIX_BUCKETS
        invariant
            b <= 256,
            offsets.len() == 256,
            cur.len() == b,
            forall|d: int| 0 <= d < b ==> #[trigger] cur@[d] == offsets@[d],
        decreases 256 - b,
    {
        cur.push(offsets[b]);
        b = b + 1;
    }
    proof {
        reveal(Seq::filter);
        assert forall|d: int| 0 <= d < 256 implies aux@.subrange(bstart(s, d), #[trigger] cur@[d] as int)
            == bucket(s.take(0), d) by {
            assert(s.take(0).len() == 0);
            lemma_bstart_mono(s, d, 256);
            lemma_bstart_mono(s, 0, d);
        }
    }
    let mut m: usize = 0;
    while m < n
        invariant
            n == hi - lo,
            lo <= hi <= v.len(),
            v@ == s0,
            s == s0.subrange(lo as int, hi as int),
            bstart(s, 256) == s.len(),
            m <= n,
            aux.len() == n,
            cur.len() == 256,
            forall|d: int|
                0 <= d < 256 ==> #[trigger] cur@[d] == bstart(s, d) + bucket(s.take(m as int), d).len(),
            forall|d: int|
                0 <= d < 256 ==> aux@.subrange(bstart(s, d), #[trigger] cur@[d] as int) == bucket(
                    s.take(m as int),
                    d,
                ),
        decreases n - m,
    {
        let x = v[lo + m];
        let b = (x.cache >> 56u64) as usize;
        let ghost t = s.take(m as int);
        proof {
            lemma_top_bound(x);
            assert(s[m as int] == x);
            assert(s.take(m + 1) =~= t.push(x));
            s.lemma_filter_take_len(in_bucket(b as int), m + 1);
            t.lemma_filter_len_push(in_bucket(b as int), x);
            lemma_bstart_mono(s, b + 1, 256);
            lemma_bstart_mono(s, 0, b as int);
        }
        let pos = cur[b];
        let ghost a0 = aux@;
        aux.set(pos, x);
        cur.set(b, pos + 1);
        proof {
            assert forall|d: int| 0 <= d < 256 implies #[trigger] cur@[d] == bstart(s, d) + bucket(
                s.take(m + 1),
                d,
            ).len() by {
                t.lemma_filter_len_push(in_bucket(d), x);
            }
            assert forall|d: int| 0 <= d < 256 implies aux@.subrange(bstart(s, d), #[trigger] cur@[d] as int)
                == bucket(s.take(m + 1), d) by {
                t.lemma_filter_len_push(in_bucket(d), x);
                s.lemma_filter_take_len(in_bucket(d), m as int);
                lemma_bstart_mono(s, d + 1, 256);
                lemma_bstart_mono(s, 0, d);
                if d == b {
                    assert(aux@.subrange(bstart(s, d), cur@[d] as int) =~= a0.subrange(bstart(s, d), pos as int).push(x));
                } else if d < b {
                    lemma_bstart_mono(s, d + 1, b as int);
                    assert(aux@.subrange(bstart(s, d), cur@[d] as int) =~= a0.subrange(bstart(s, d), cur@[d] as int));
                } else {
                    lemma_bstart_mono(s, b + 1, d);
                    assert(aux@.subrange(bstart(s, d), cur@[d] as int) =~= a0.subrange(bstart(s, d), cur@[d] as int));
                }
            }
        }
        m = m + 1;
    }
    proof {
        assert(s.take(n as int) =~= s);
    }
    let mut k: usize = 0;
    while k < n
        invariant
            n == hi - lo,
            lo <= hi <= v.len(),
            v.len() == s0.len(),
            aux.len() == n,
            0 <= k <= n,
            forall|t: int| 0 <= t < s0.len() && !(lo <= t < lo + k) ==> #[trigger] v@[t] == s0[t],
            forall|t: int| lo <= t < lo + k ==> #[trigger] v@[t] == aux@[t - lo],
        decreases n - k,
    {
        v.set(lo + k, aux[k]);
        k = k + 1;
    }
    proof {
        assert(v@.subrange(lo as int, hi as int) =~= aux@);
        assert forall|d: int| 0 <= d < 256 implies aux@.subrange(bstart(s, d), bstart(s, d + 1))
            == #[trigger] bucket(s, d) by {
            assert(cur@[d] == bstart(s, d + 1));
        }
    }
}

} // verus!

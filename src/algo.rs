//! The sort engine: the driver, the radix step with block skip, and the
//! entry points.
use vstd::prelude::*;
use crate::accessor::{AsKeyBytes, KeyAccessor};
use crate::bucket::{
    bstart, bucket, in_bucket, lemma_bstart_mono, lemma_bucket_ties, lemma_buckets_cover,
    lemma_layout_below, top, RADIX_BUCKETS,
};
use crate::merge::{insertion_sort, kp, merge_sort, sorted_at, ties_at, SMALL_THRESHOLD};
use crate::order::{agree_upto, key_le, lemma_first_pad_diff, pad};
use crate::prefix::{
    cache_byte, lemma_prefix_byte, lemma_shift_cache_byte, lemma_top_byte, CACHE_BYTES,
};
use crate::ptr::{
    ids, key_of, lemma_ids_add, lemma_same_ptrs_same_rows, lemma_same_rows_contains, ptr_ok,
    region_ok, same_rows, shares_prefix, SortPtr,
};
use crate::radix::{bucket_starts, common_bytes_prefix, count_buckets, distribute};
use crate::spec::{
    identity, in_key_order, is_permutation, item_keys, keys_of, materialize, picked_keys, share_prefix,
    sorts,
    ties_by_index,
};
use crate::permute::apply_permutation;
use crate::picked::Picked;

verus! {

broadcast use vstd::seq_lib::group_to_multiset_ensures;

/// Regions longer than this go to the radix step when it is allowed.
pub const RADIX_SORT_THRESHOLD: usize = 1024;

/// Reloads the cache of every pointer in `v[lo..hi)` with its key's bytes
/// from `new_cp` on.
fn update_caches<T: KeyAccessor + ?Sized>(
    provider: &T,
    v: &mut Vec<SortPtr>,
    lo: usize,
    hi: usize,
    new_cp: usize,
)
    requires
        lo <= hi <= old(v).len(),
        forall|k: int| lo <= k < hi ==> #[trigger] old(v)@[k].index < provider.row_count(),
    ensures
        final(v).len() == old(v).len(),
        forall|k: int| 0 <= k < old(v).len() ==> #[trigger] final(v)@[k].index == old(v)@[k].index,
        forall|k: int|
            0 <= k < old(v).len() && !(lo <= k < hi) ==> #[trigger] final(v)@[k] == old(v)@[k],
        forall|k: int|
            lo <= k < hi ==> ptr_ok(provider, #[trigger] final(v)@[k], new_cp as int),
{
    let ghost s0 = v@;
    let mut k = lo;
    while k < hi
        invariant
            lo <= k <= hi <= v.len(),
            v.len() == s0.len(),
            forall|t: int| lo <= t < hi ==> #[trigger] s0[t].index < provider.row_count(),
            forall|t: int| 0 <= t < s0.len() ==> #[trigger] v@[t].index == s0[t].index,
            forall|t: int| 0 <= t < s0.len() && !(lo <= t < k) ==> #[trigger] v@[t] == s0[t],
            forall|t: int| lo <= t < k ==> ptr_ok(provider, #[trigger] v@[t], new_cp as int),
        decreases hi - k,
    {
        let index = v[k].index;
        let cache = provider.get_u64_prefix(index, new_cp);
        v.set(k, SortPtr { index, cache });
        k = k + 1;
    }
}

/// The cache of `x` holds the bytes of its key from `cp` on in its first
/// `valid` bytes, and zeros after them.
pub open spec fn window_ok<T: KeyAccessor + ?Sized>(provider: &T, x: SortPtr, cp: int, valid: int) -> bool {
    &&& x.index < provider.row_count()
    &&& forall|i: int|
        0 <= i < 8 ==> #[trigger] cache_byte(x.cache, i) == (if i < valid {
            pad(key_of(provider, x.index), cp + i)
        } else {
            0u8
        })
}

/// What the histogram pass needs of a region at `cp`: every pointer names a
/// row and has its key's byte at `cp` as top cache byte, and the keys agree
/// below `cp`.
pub open spec fn histogram_ok<T: KeyAccessor + ?Sized>(provider: &T, s: Seq<SortPtr>, cp: int) -> bool {
    &&& forall|x: SortPtr|
        #[trigger] s.contains(x) ==> x.index < provider.row_count() && top(x) == pad(
            key_of(provider, x.index),
            cp,
        ) as int
    &&& shares_prefix(provider, ids(s), cp)
}

/// A freshly loaded cache is a full window.
proof fn lemma_loaded_window<T: KeyAccessor + ?Sized>(provider: &T, x: SortPtr, cp: int)
    requires
        ptr_ok(provider, x, cp),
    ensures
        window_ok(provider, x, cp, 8),
{
    assert forall|i: int| 0 <= i < 8 implies #[trigger] cache_byte(x.cache, i) == pad(
        key_of(provider, x.index),
        cp + i,
    ) by {
        lemma_prefix_byte(key_of(provider, x.index), cp, i);
    }
}

/// Shifting a cache left by `s` whole bytes moves its window `s` bytes on.
proof fn lemma_shifted_window<T: KeyAccessor + ?Sized>(
    provider: &T,
    x: SortPtr,
    y: SortPtr,
    cp: int,
    valid: int,
    s: int,
)
    requires
        0 <= s < valid <= 8,
        window_ok(provider, x, cp, valid),
        y.index == x.index,
        y.cache == x.cache << (8 * s) as u64,
    ensures
        window_ok(provider, y, cp + s, valid - s),
{
    assert forall|i: int| 0 <= i < 8 implies #[trigger] cache_byte(y.cache, i) == (if i < valid - s {
        pad(key_of(provider, y.index), cp + s + i)
    } else {
        0u8
    }) by {
        lemma_shift_cache_byte(x.cache, s, i);
        if i + s < 8 {
            assert(cache_byte(x.cache, i + s) == (if i + s < valid {
                pad(key_of(provider, x.index), cp + (i + s))
            } else {
                0u8
            }));
        }
    }
}

/// Shifts the cache of every pointer in `v[lo..hi)` left by `bits`.
fn shift_caches(v: &mut Vec<SortPtr>, lo: usize, hi: usize, bits: u64)
    requires
        lo <= hi <= old(v).len(),
        bits < 64,
    ensures
        final(v).len() == old(v).len(),
        forall|k: int| 0 <= k < old(v).len() ==> #[trigger] final(v)@[k].index == old(v)@[k].index,
        forall|k: int|
            0 <= k < old(v).len() && !(lo <= k < hi) ==> #[trigger] final(v)@[k] == old(v)@[k],
        forall|k: int| lo <= k < hi ==> #[trigger] final(v)@[k].cache == old(v)@[k].cache << bits,
{
    let ghost s0 = v@;
    let mut k = lo;
    while k < hi
        invariant
            lo <= k <= hi <= v.len(),
            bits < 64,
            v.len() == s0.len(),
            forall|t: int| 0 <= t < s0.len() ==> #[trigger] v@[t].index == s0[t].index,
            forall|t: int| 0 <= t < s0.len() && !(lo <= t < k) ==> #[trigger] v@[t] == s0[t],
            forall|t: int| lo <= t < k ==> #[trigger] v@[t].cache == s0[t].cache << bits,
        decreases hi - k,
    {
        let p = v[k];
        v.set(k, SortPtr { index: p.index, cache: p.cache << bits });
        k = k + 1;
    }
}

/// Bytes that every cache of a region holds alike, none of them zero, extend
/// the prefix that the region's keys share.
proof fn lemma_skip_extends_prefix<T: KeyAccessor + ?Sized>(
    provider: &T,
    s: Seq<SortPtr>,
    cp: int,
    safe: int,
)
    requires
        s.len() > 0,
        0 <= cp,
        0 <= safe <= 8,
        shares_prefix(provider, ids(s), cp),
        forall|k: int, i: int|
            0 <= k < s.len() && 0 <= i < safe ==> #[trigger] cache_byte(s[k].cache, i) == pad(
                key_of(provider, s[k].index),
                cp + i,
            ),
        forall|k: int, i: int|
            0 <= k < s.len() && 0 <= i < safe ==> #[trigger] cache_byte(s[k].cache, i) == cache_byte(
                s[0].cache,
                i,
            ),
        forall|i: int| 0 <= i < safe ==> #[trigger] cache_byte(s[0].cache, i) != 0,
    ensures
        shares_prefix(provider, ids(s), cp + safe),
{
    assert forall|x: usize, y: usize| #[trigger] ids(s).contains(x) && #[trigger] ids(s).contains(y)
        implies agree_upto(key_of(provider, x), key_of(provider, y), cp + safe) by {
        let kx = choose|k: int| 0 <= k < ids(s).len() && ids(s)[k] == x;
        let ky = choose|k: int| 0 <= k < ids(s).len() && ids(s)[k] == y;
        let a = key_of(provider, x);
        let c = key_of(provider, y);
        assert forall|j: int| 0 <= j < cp + safe && j < a.len() && j < c.len() implies a[j] == c[j] by {
            if j >= cp {
                let i = j - cp;
                assert(cache_byte(s[kx].cache, i) == pad(a, cp + i));
                assert(cache_byte(s[ky].cache, i) == pad(c, cp + i));
                assert(cache_byte(s[kx].cache, i) == cache_byte(s[0].cache, i));
                assert(cache_byte(s[ky].cache, i) == cache_byte(s[0].cache, i));
            }
        }
    }
}

/// A row of bucket `b` of a region at `cp` is a row of the region whose key
/// has byte `b` at `cp` (zero standing also for a key that ended).
proof fn lemma_bucket_member<T: KeyAccessor + ?Sized>(
    provider: &T,
    s: Seq<SortPtr>,
    b: int,
    cp: int,
    x: usize,
)
    requires
        histogram_ok(provider, s, cp),
        ids(bucket(s, b)).contains(x),
    ensures
        ids(s).contains(x),
        pad(key_of(provider, x), cp) == b,
        x < provider.row_count(),
{
    let bs = bucket(s, b);
    let i = choose|i: int| 0 <= i < ids(bs).len() && ids(bs)[i] == x;
    let y = bs[i];
    s.lemma_filter_pred(in_bucket(b), i);
    assert(bs.contains(y));
    s.lemma_filter_contains_rev(in_bucket(b), y);
    let p = choose|p: int| 0 <= p < s.len() && s[p] == y;
    assert(ids(s)[p] == x);
}

/// A bucket whose caches were reloaded at `new_cp` is a region at `new_cp`.
proof fn lemma_bucket_ready<T: KeyAccessor + ?Sized>(
    provider: &T,
    s: Seq<SortPtr>,
    cp: int,
    new_cp: int,
    b: int,
    v1: Seq<SortPtr>,
    start: int,
    end: int,
    tie: bool,
)
    requires
        0 <= start <= end <= v1.len(),
        histogram_ok(provider, s, cp),
        new_cp == cp + 1 || new_cp == cp,
        ids(v1.subrange(start, end)) == ids(bucket(s, b)),
        forall|k: int| start <= k < end ==> ptr_ok(provider, #[trigger] v1[k], new_cp),
        tie ==> ties_at(provider, s, 0, s.len() as int),
    ensures
        region_ok(provider, v1.subrange(start, end), new_cp),
        tie ==> ties_at(provider, v1, start, end),
{
    let r1 = v1.subrange(start, end);
    let bk = bucket(s, b);
    assert forall|x: SortPtr| #[trigger] r1.contains(x) implies ptr_ok(provider, x, new_cp) by {
        let k = choose|k: int| 0 <= k < r1.len() && r1[k] == x;
        assert(v1[start + k] == x);
    }
    assert forall|x: usize, y: usize| #[trigger] ids(r1).contains(x) && #[trigger] ids(r1).contains(y)
        implies agree_upto(key_of(provider, x), key_of(provider, y), new_cp) by {
        lemma_bucket_member(provider, s, b, cp, x);
        lemma_bucket_member(provider, s, b, cp, y);
        assert(agree_upto(key_of(provider, x), key_of(provider, y), cp));
    }
    if tie {
        lemma_bucket_ties(provider, s, b);
        assert forall|p: int, q: int|
            start <= p < q < end && kp(provider, #[trigger] v1[p]) == kp(provider, #[trigger] v1[q])
                implies v1[p].index <= v1[q].index by {
            assert(ids(r1)[p - start] == v1[p].index && ids(r1)[q - start] == v1[q].index);
            crate::ptr::lemma_ids_len(bk);
            crate::ptr::lemma_ids_len(r1);
            assert(bk[p - start].index == ids(bk)[p - start] && bk[q - start].index == ids(bk)[q - start]);
            assert(kp(provider, bk[p - start]) == kp(provider, bk[q - start]));
        }
    }
}

/// Once bucket `b` is sorted in place, the sorted part of the region reaches
/// its end.
proof fn lemma_bucket_done<T: KeyAccessor + ?Sized>(
    provider: &T,
    s: Seq<SortPtr>,
    cp: int,
    b: int,
    v0: Seq<SortPtr>,
    v1: Seq<SortPtr>,
    v2: Seq<SortPtr>,
    w: Seq<SortPtr>,
    lo: int,
    start: int,
    end: int,
    tie: bool,
)
    requires
        0 <= lo <= start <= end <= v0.len(),
        v1.len() == v0.len(),
        v2.len() == v0.len(),
        w.len() == v0.len(),
        histogram_ok(provider, s, cp),
        ids(v1.subrange(start, end)) == ids(bucket(s, b)),
        ids(v1.subrange(start, end)) == ids(v0.subrange(start, end)),
        w.subrange(start, end) == v0.subrange(start, end),
        same_rows(v2.subrange(start, end), v1.subrange(start, end)),
        forall|k: int| lo <= k < start ==> #[trigger] v2[k] == v0[k],
        same_rows(v0.subrange(lo, start), w.subrange(lo, start)),
        sorted_at(provider, v0, lo, start),
        sorted_at(provider, v2, start, end),
        forall|k: int|
            lo <= k < start ==> ids(s).contains(#[trigger] v0[k].index) && pad(
                key_of(provider, v0[k].index),
                cp,
            ) < b,
        tie ==> ties_at(provider, v0, lo, start),
        tie ==> ties_at(provider, v2, start, end),
    ensures
        same_rows(v2.subrange(lo, end), w.subrange(lo, end)),
        sorted_at(provider, v2, lo, end),
        forall|k: int|
            lo <= k < end ==> ids(s).contains(#[trigger] v2[k].index) && pad(
                key_of(provider, v2[k].index),
                cp,
            ) < b + 1,
        tie ==> ties_at(provider, v2, lo, end),
{
    let r1 = v1.subrange(start, end);
    let r2 = v2.subrange(start, end);
    assert forall|k: int| start <= k < end implies ids(s).contains(#[trigger] v2[k].index) && pad(
        key_of(provider, v2[k].index),
        cp,
    ) == b by {
        assert(ids(r2)[k - start] == v2[k].index);
        lemma_same_rows_contains(r2, r1, v2[k].index);
        lemma_bucket_member(provider, s, b, cp, v2[k].index);
    }
    assert forall|p: int, q: int| lo <= p < q < end implies key_le(
        kp(provider, #[trigger] v2[p]),
        kp(provider, #[trigger] v2[q]),
    ) by {
        if q < start {
            assert(v2[p] == v0[p] && v2[q] == v0[q]);
        } else if p < start {
            assert(v2[p] == v0[p]);
            assert(ids(s).contains(v2[p].index) && ids(s).contains(v2[q].index));
            lemma_first_pad_diff(kp(provider, v2[p]), kp(provider, v2[q]), cp, cp);
        }
    }
    if tie {
        assert forall|p: int, q: int|
            lo <= p < q < end && kp(provider, #[trigger] v2[p]) == kp(provider, #[trigger] v2[q])
                implies v2[p].index <= v2[q].index by {
            if q < start {
                assert(v2[p] == v0[p] && v2[q] == v0[q]);
            } else if p < start {
                assert(v2[p] == v0[p]);
            }
        }
    }
    assert forall|k: int| lo <= k < end implies ids(s).contains(#[trigger] v2[k].index) && pad(
        key_of(provider, v2[k].index),
        cp,
    ) < b + 1 by {
        if k < start {
            assert(v2[k] == v0[k]);
        }
    }
    assert(v2.subrange(lo, end) =~= v0.subrange(lo, start) + r2);
    assert(w.subrange(lo, end) =~= w.subrange(lo, start) + w.subrange(start, end));
    lemma_ids_add(v0.subrange(lo, start), r2);
    lemma_ids_add(w.subrange(lo, start), w.subrange(start, end));
}

/// Sorts the region `v[lo..hi)` whose keys share their first `cp_len` bytes:
/// a small region by insertion, a large one by radix when `allow_radix`
/// holds, any other by merging. The comparison sorts move whole pointers
/// and rewrite no cache.
fn cps_quicksort<T: KeyAccessor + ?Sized>(
    provider: &T,
    v: &mut Vec<SortPtr>,
    lo: usize,
    hi: usize,
    cp_len: usize,
    allow_radix: bool,
)
    requires
        lo <= hi <= old(v).len(),
        region_ok(provider, old(v)@.subrange(lo as int, hi as int), cp_len as int),
    ensures
        final(v).len() == old(v).len(),
        forall|k: int|
            0 <= k < old(v).len() && !(lo <= k < hi) ==> #[trigger] final(v)@[k] == old(v)@[k],
        same_rows(final(v)@.subrange(lo as int, hi as int), old(v)@.subrange(lo as int, hi as int)),
        !allow_radix || hi - lo <= RADIX_SORT_THRESHOLD ==> final(v)@.subrange(lo as int, hi as int).to_multiset()
            == old(v)@.subrange(lo as int, hi as int).to_multiset(),
        sorted_at(provider, final(v)@, lo as int, hi as int),
        ties_at(provider, old(v)@, lo as int, hi as int) ==> ties_at(
            provider,
            final(v)@,
            lo as int,
            hi as int,
        ),
    decreases hi - lo, if allow_radix { 1int } else { 0int }, 1int,
{
    let len = hi - lo;
    let ghost s0 = v@;
    if len <= SMALL_THRESHOLD {
        insertion_sort(provider, v, lo, hi, cp_len);
        proof {
            lemma_same_ptrs_same_rows(v@.subrange(lo as int, hi as int), s0.subrange(lo as int, hi as int));
        }
    } else if allow_radix && len > RADIX_SORT_THRESHOLD {
        aqs_radix(provider, v, lo, hi, cp_len);
    } else {
        merge_sort(provider, v, lo, hi, cp_len);
        proof {
            lemma_same_ptrs_same_rows(v@.subrange(lo as int, hi as int), s0.subrange(lo as int, hi as int));
        }
    }
}

/// The radix step on the region `v[lo..hi)` whose keys share their first
/// `cp_len` bytes.
///
/// First, while every cache starts with the same non-zero bytes, those bytes
/// are skipped: the caches are shifted to bring the next loaded bytes to the
/// top, or reloaded once all eight loaded bytes are used. A zero byte is
/// never skipped: it may be padding past the end of a key. Then the region is
/// distributed stably by the top byte of the caches, and each non-empty
/// bucket is reloaded one byte further on and sorted in turn; a bucket that
/// holds the whole region may not go to radix again.
fn aqs_radix<T: KeyAccessor + ?Sized>(
    provider: &T,
    v: &mut Vec<SortPtr>,
    lo: usize,
    hi: usize,
    cp_len: usize,
)
    requires
        lo < hi <= old(v).len(),
        region_ok(provider, old(v)@.subrange(lo as int, hi as int), cp_len as int),
    ensures
        final(v).len() == old(v).len(),
        forall|k: int|
            0 <= k < old(v).len() && !(lo <= k < hi) ==> #[trigger] final(v)@[k] == old(v)@[k],
        same_rows(final(v)@.subrange(lo as int, hi as int), old(v)@.subrange(lo as int, hi as int)),
        sorted_at(provider, final(v)@, lo as int, hi as int),
        ties_at(provider, old(v)@, lo as int, hi as int) ==> ties_at(
            provider,
            final(v)@,
            lo as int,
            hi as int,
        ),
    decreases hi - lo, 1int, 0int,
{
    let ghost s0 = v@;
    let ghost tie = ties_at(provider, s0, lo as int, hi as int);
    let mut cp_len = cp_len;
    let mut bytes_since_load: usize = 0;
    let mut skipping = true;
    proof {
        assert forall|k: int| lo <= k < hi implies window_ok(provider, #[trigger] v@[k], cp_len as int, 8) by {
            assert(v@.subrange(lo as int, hi as int)[k - lo] == v@[k]);
            assert(v@.subrange(lo as int, hi as int).contains(v@[k]));
            lemma_loaded_window(provider, v@[k], cp_len as int);
        }
    }
    while skipping
        invariant
            lo < hi <= v.len(),
            v.len() == s0.len(),
            forall|k: int| 0 <= k < s0.len() ==> #[trigger] v@[k].index == s0[k].index,
            forall|k: int| 0 <= k < s0.len() && !(lo <= k < hi) ==> #[trigger] v@[k] == s0[k],
            bytes_since_load < 8,
            forall|k: int|
                lo <= k < hi ==> window_ok(provider, #[trigger] v@[k], cp_len as int, 8 - bytes_since_load),
            shares_prefix(provider, ids(v@.subrange(lo as int, hi as int)), cp_len as int),
        decreases usize::MAX - cp_len + (if skipping { 1int } else { 0int }),
    {
        let common_bytes = common_bytes_prefix(v, lo, hi);
        let anchor = v[lo].cache;
        let mut safe_bytes: usize = 0;
        while safe_bytes < common_bytes
            invariant
                safe_bytes <= common_bytes <= 8,
                forall|i: int| 0 <= i < safe_bytes ==> #[trigger] cache_byte(anchor, i) != 0,
            decreases common_bytes - safe_bytes,
        {
            let shift = (56 - safe_bytes * 8) as u64;
            let byte = ((anchor >> shift) & 0xff) as u8;
            if byte == 0 {
                break;
            }
            safe_bytes = safe_bytes + 1;
        }
        // A key never reaches `usize::MAX` bytes, so the second test holds
        // whenever the first does.
        if safe_bytes > 0 && safe_bytes <= usize::MAX - cp_len {
            let ghost r = v@.subrange(lo as int, hi as int);
            let ghost valid = 8 - bytes_since_load;
            proof {
                // the skipped bytes lie inside the loaded window: past it the
                // anchor holds zeros
                assert(window_ok(provider, v@[lo as int], cp_len as int, valid));
                if safe_bytes > valid {
                    assert(cache_byte(anchor, valid) != 0);
                }
                assert forall|k: int, i: int| 0 <= k < r.len() && 0 <= i < safe_bytes implies #[trigger] cache_byte(
                    r[k].cache,
                    i,
                ) == pad(key_of(provider, r[k].index), cp_len + i) by {
                    assert(r[k] == v@[lo + k]);
                    assert(window_ok(provider, v@[lo + k], cp_len as int, valid));
                }
                assert forall|k: int, i: int| 0 <= k < r.len() && 0 <= i < safe_bytes implies #[trigger] cache_byte(
                    r[k].cache,
                    i,
                ) == cache_byte(r[0].cache, i) by {
                    assert(r[k] == v@[lo + k]);
                }
                lemma_skip_extends_prefix(provider, r, cp_len as int, safe_bytes as int);
            }
            let ghost old_cp = cp_len as int;
            cp_len = cp_len + safe_bytes;
            bytes_since_load = bytes_since_load + safe_bytes;
            if bytes_since_load >= CACHE_BYTES {
                // the loaded bytes are used up: load the next eight
                update_caches(provider, v, lo, hi, cp_len);
                bytes_since_load = 0;
                proof {
                    assert forall|k: int| lo <= k < hi implies window_ok(
                        provider,
                        #[trigger] v@[k],
                        cp_len as int,
                        8,
                    ) by {
                        lemma_loaded_window(provider, v@[k], cp_len as int);
                    }
                }
            } else {
                // bring the next loaded bytes to the top
                let ghost v_before = v@;
                shift_caches(v, lo, hi, (safe_bytes * 8) as u64);
                proof {
                    assert forall|k: int| lo <= k < hi implies window_ok(
                        provider,
                        #[trigger] v@[k],
                        cp_len as int,
                        8 - bytes_since_load,
                    ) by {
                        assert(window_ok(provider, v_before[k], old_cp, valid));
                        assert((8 * safe_bytes) as u64 == (safe_bytes * 8) as u64);
                        lemma_shifted_window(provider, v_before[k], v@[k], old_cp, valid, safe_bytes as int);
                    }
                }
            }
            proof {
                assert(ids(v@.subrange(lo as int, hi as int)) =~= ids(r));
            }
        } else {
            skipping = false;
        }
    }
    let ghost sv = v@;
    let ghost s = v@.subrange(lo as int, hi as int);
    proof {
        assert forall|x: SortPtr| #[trigger] s.contains(x) implies x.index < provider.row_count() && top(x)
            == pad(key_of(provider, x.index), cp_len as int) as int by {
            let k = choose|k: int| 0 <= k < s.len() && s[k] == x;
            assert(v@[lo + k] == x);
            assert(window_ok(provider, x, cp_len as int, 8 - bytes_since_load));
            lemma_top_byte(x.cache);
            assert(cache_byte(x.cache, 0) == pad(key_of(provider, x.index), cp_len + 0));
        }
    }
    let counts = count_buckets(v, lo, hi);
    let offsets = bucket_starts(&counts, Ghost(s));
    distribute(v, lo, hi, &offsets);
    let ghost w = v@;
    proof {
        lemma_buckets_cover(s);
        lemma_layout_below(w.subrange(lo as int, hi as int), s, 256);
        assert(w.subrange(lo as int, hi as int).subrange(0, bstart(s, 256)) =~= w.subrange(lo as int, hi as int));
        lemma_same_ptrs_same_rows(w.subrange(lo as int, hi as int), s);
        assert(ids(s) =~= ids(s0.subrange(lo as int, hi as int)));
        if tie {
            assert forall|p: int, q: int|
                0 <= p < q < s.len() && kp(provider, #[trigger] s[p]) == kp(provider, #[trigger] s[q])
                    implies s[p].index <= s[q].index by {
                assert(s[p].index == s0[lo + p].index && s[q].index == s0[lo + q].index);
            }
        }
    }
    let new_cp = if cp_len < usize::MAX { cp_len + 1 } else { cp_len };
    let total_len = hi - lo;
    let mut start = lo;
    let mut b: usize = 0;
    while b < RADIX_BUCKETS
        invariant
            lo < hi <= v.len(),
            v.len() == s0.len(),
            total_len == hi - lo,
            s == sv.subrange(lo as int, hi as int),
            s.len() == hi - lo,
            bstart(s, 256) == s.len(),
            histogram_ok(provider, s, cp_len as int),
            new_cp == cp_len + 1 || new_cp == cp_len,
            counts.len() == 256,
            forall|d: int| 0 <= d < 256 ==> #[trigger] counts@[d] == bucket(s, d).len(),
            forall|d: int|
                0 <= d < 256 ==> w.subrange(lo as int, hi as int).subrange(bstart(s, d), bstart(s, d + 1))
                    == #[trigger] bucket(s, d),
            w.len() == s0.len(),
            tie ==> ties_at(provider, s, 0, s.len() as int),
            tie == ties_at(provider, s0, lo as int, hi as int),
            b <= 256,
            start == lo + bstart(s, b as int),
            forall|k: int| 0 <= k < s0.len() && !(lo <= k < hi) ==> #[trigger] v@[k] == s0[k],
            forall|k: int| start <= k < hi ==> #[trigger] v@[k] == w[k],
            same_rows(v@.subrange(lo as int, start as int), w.subrange(lo as int, start as int)),
            sorted_at(provider, v@, lo as int, start as int),
            forall|k: int|
                lo <= k < start ==> ids(s).contains(#[trigger] v@[k].index) && pad(
                    key_of(provider, v@[k].index),
                    cp_len as int,
                ) < b,
            tie ==> ties_at(provider, v@, lo as int, start as int),
        decreases 256 - b,
    {
        proof {
            lemma_bstart_mono(s, b + 1, 256);
            lemma_bstart_mono(s, 0, b as int);
        }
        let count = counts[b];
        let end = start + count;
        let ghost v0 = v@;
        if end > start {
            let ghost bk = bucket(s, b as int);
            proof {
                assert(v0.subrange(start as int, end as int) =~= bk) by {
                    assert forall|k: int| 0 <= k < end - start implies v0[start + k] == #[trigger] bk[k] by {
                        assert(w.subrange(lo as int, hi as int).subrange(bstart(s, b as int), bstart(s, b + 1))[k] == bk[k]);
                    }
                }
                assert forall|k: int| start <= k < end implies #[trigger] v0[k].index < provider.row_count() by {
                    assert(ids(bk)[k - start] == v0[k].index);
                    lemma_bucket_member(provider, s, b as int, cp_len as int, v0[k].index);
                }
            }
            update_caches(provider, v, start, end, new_cp);
            let ghost v1 = v@;
            proof {
                assert(ids(v1.subrange(start as int, end as int)) =~= ids(bk));
                lemma_bucket_ready(provider, s, cp_len as int, new_cp as int, b as int, v1, start as int, end as int, tie);
            }
            let is_degenerate = end - start == total_len;
            cps_quicksort(provider, v, start, end, new_cp, !is_degenerate);
            let ghost v2 = v@;
            proof {
                assert(ids(v1.subrange(start as int, end as int)) =~= ids(v0.subrange(start as int, end as int)));
                assert(w.subrange(start as int, end as int) =~= v0.subrange(start as int, end as int));
                lemma_bucket_done(provider, s, cp_len as int, b as int, v0, v1, v2, w, lo as int, start as int, end as int, tie);
            }
        }
        start = end;
        b = b + 1;
    }
    proof {
        assert(start == hi);
        assert(w.subrange(lo as int, hi as int).subrange(0, bstart(s, 256)) =~= w.subrange(lo as int, hi as int));
    }
}

/// A rearrangement of `0, 1, ..., n - 1` names each of them once.
pub proof fn lemma_rearranged_identity(r: Seq<usize>, n: nat)
    requires
        n <= usize::MAX,
        r.to_multiset() == identity(n).to_multiset(),
    ensures
        is_permutation(r, n),
{
    let id = identity(n);
    assert forall|i: int, j: int| 0 <= i < id.len() && 0 <= j < id.len() && i != j implies id[i] != id[j] by {}
    assert(id.no_duplicates());
    id.lemma_multiset_has_no_duplicates();
    r.lemma_multiset_has_no_duplicates_conv();
    assert(r.len() == r.to_multiset().len());
    assert forall|i: int| 0 <= i < r.len() implies #[trigger] r[i] < n by {
        assert(r.contains(r[i]));
        assert(id.to_multiset().count(r[i]) > 0);
        assert(id.contains(r[i]));
    }
}

/// A region sorted by the engine, read out as row indices.
proof fn lemma_sorted_rows<T: KeyAccessor + ?Sized>(provider: &T, v: Seq<SortPtr>)
    requires
        sorted_at(provider, v, 0, v.len() as int),
        forall|i: int| 0 <= i < v.len() ==> #[trigger] v[i].index < provider.row_count(),
    ensures
        in_key_order(keys_of(provider), ids(v)),
        ties_at(provider, v, 0, v.len() as int) && (forall|i: int, j: int|
            0 <= i < j < v.len() ==> #[trigger] ids(v)[i] != #[trigger] ids(v)[j]) ==> ties_by_index(
            keys_of(provider),
            ids(v),
        ),
{
    let r = ids(v);
    let keys = keys_of(provider);
    assert forall|i: int| 0 <= i < r.len() implies keys[#[trigger] r[i] as int] == kp(provider, v[i]) by {
        assert(r[i] == v[i].index);
    }
    assert forall|i: int, j: int| 0 <= i < j < r.len() implies key_le(
        keys[#[trigger] r[i] as int],
        keys[#[trigger] r[j] as int],
    ) by {
        assert(key_le(kp(provider, v[i]), kp(provider, v[j])));
    }
    if ties_at(provider, v, 0, v.len() as int) && (forall|i: int, j: int|
        0 <= i < j < v.len() ==> #[trigger] ids(v)[i] != #[trigger] ids(v)[j]) {
        assert forall|i: int, j: int|
            0 <= i < j < r.len() && keys[#[trigger] r[i] as int] == keys[#[trigger] r[j] as int]
                implies r[i] < r[j] by {
            assert(kp(provider, v[i]) == kp(provider, v[j]));
            assert(v[i].index <= v[j].index);
        }
    }
}

/// Reads the row indices out of a sequence of pointers.
fn collect_indices(v: &Vec<SortPtr>) -> (r: Vec<usize>)
    ensures
        r@ == ids(v@),
{
    let mut r: Vec<usize> = Vec::with_capacity(v.len());
    let mut k: usize = 0;
    while k < v.len()
        invariant
            k <= v.len(),
            r@ == ids(v@.subrange(0, k as int)),
        decreases v.len() - k,
    {
        r.push(v[k].index);
        k = k + 1;
        proof {
            assert(r@ =~= ids(v@.subrange(0, k as int)));
        }
    }
    proof {
        assert(v@.subrange(0, v.len() as int) =~= v@);
    }
    r
}

/// One pointer per index of `indices`, in that order, caching the key bytes
/// from `offset` on.
fn make_pointers<T: KeyAccessor + ?Sized>(provider: &T, indices: &Vec<usize>, offset: usize) -> (v: Vec<SortPtr>)
    requires
        forall|i: int| 0 <= i < indices.len() ==> #[trigger] indices@[i] < provider.row_count(),
    ensures
        ids(v@) == indices@,
        forall|k: int| 0 <= k < v.len() ==> ptr_ok(provider, #[trigger] v@[k], offset as int),
{
    let mut v: Vec<SortPtr> = Vec::with_capacity(indices.len());
    let mut k: usize = 0;
    while k < indices.len()
        invariant
            k <= indices.len(),
            forall|i: int| 0 <= i < indices.len() ==> #[trigger] indices@[i] < provider.row_count(),
            ids(v@) == indices@.subrange(0, k as int),
            forall|t: int| 0 <= t < v.len() ==> ptr_ok(provider, #[trigger] v@[t], offset as int),
        decreases indices.len() - k,
    {
        let index = indices[k];
        let cache = provider.get_u64_prefix(index, offset);
        let ghost before = v@;
        v.push(SortPtr { index, cache });
        k = k + 1;
        proof {
            assert(v@ == before.push(SortPtr { index, cache }));
            assert(ids(v@) =~= ids(before).push(index));
            assert(ids(v@) =~= indices@.subrange(0, k as int));
        }
    }
    proof {
        assert(indices@.subrange(0, indices.len() as int) =~= indices@);
    }
    v
}

/// Sorts pointers that all cache their key bytes from `offset` on, and whose
/// keys share their first `offset` bytes; returns their row indices in key
/// order.
fn sort_pointers<T: KeyAccessor + ?Sized>(provider: &T, v: Vec<SortPtr>, offset: usize) -> (r: Vec<usize>)
    requires
        forall|k: int| 0 <= k < v.len() ==> ptr_ok(provider, #[trigger] v@[k], offset as int),
        shares_prefix(provider, ids(v@), offset as int),
    ensures
        r@.to_multiset() == ids(v@).to_multiset(),
        in_key_order(keys_of(provider), r@),
        (forall|i: int, j: int| 0 <= i < j < v.len() && kp(provider, #[trigger] v@[i]) == kp(provider, #[trigger] v@[j])
            ==> v@[i].index <= v@[j].index) && (forall|i: int, j: int| 0 <= i < j < r.len() ==> #[trigger] r@[i] != #[trigger] r@[j])
            ==> ties_by_index(keys_of(provider), r@),
{
    let ghost v0 = v@;
    let mut v = v;
    let n = v.len();
    proof {
        assert(v@.subrange(0, n as int) =~= v@);
        assert forall|x: SortPtr| #[trigger] v@.contains(x) implies ptr_ok(provider, x, offset as int) by {
        }
    }
    cps_quicksort(provider, &mut v, 0, n, offset, true);
    proof {
        assert(v@.subrange(0, n as int) =~= v@);
        assert forall|i: int| 0 <= i < v.len() implies #[trigger] v@[i].index < provider.row_count() by {
            assert(ids(v@)[i] == v@[i].index);
            lemma_same_rows_contains(v@, v0, v@[i].index);
            let k = choose|k: int| 0 <= k < ids(v0).len() && ids(v0)[k] == v@[i].index;
            assert(ptr_ok(provider, v0[k], offset as int));
        }
        lemma_sorted_rows(provider, v@);
    }
    collect_indices(&v)
}

/// The sorted order of all rows of `provider`, as a rearrangement of
/// `0, 1, ..., n - 1`.
fn sort_rows<T: KeyAccessor + ?Sized>(provider: &T, offset: usize) -> (r: Vec<usize>)
    requires
        share_prefix(keys_of(provider), identity(provider.row_count()), offset as int),
    ensures
        sorts(keys_of(provider), r@),
        r@.to_multiset() == identity(provider.row_count()).to_multiset(),
{
    let len = provider.len();
    let mut all: Vec<usize> = Vec::with_capacity(len);
    let mut index: usize = 0;
    while index < len
        invariant
            index <= len,
            len == provider.row_count(),
            all@ == identity(index as nat),
        decreases len - index,
    {
        all.push(index);
        index = index + 1;
        proof {
            assert(all@ =~= identity(index as nat));
        }
    }
    if len <= 1 {
        // zero rows or one: the identity order, without the engine
        proof {
            lemma_rearranged_identity(all@, len as nat);
            assert forall|i: int, j: int| 0 <= i < j < all.len() implies key_le(
                keys_of(provider)[#[trigger] all@[i] as int],
                keys_of(provider)[#[trigger] all@[j] as int],
            ) by {}
        }
        return all;
    }
    let pointers = make_pointers(provider, &all, offset);
    let ghost p = pointers@;
    proof {
        assert forall|i: int| 0 <= i < p.len() implies #[trigger] p[i].index == i by {
            assert(ids(p)[i] == p[i].index);
        }
    }
    let r = sort_pointers(provider, pointers, offset);
    proof {
        lemma_rearranged_identity(r@, len as nat);
    }
    r
}

/// Returns the order in which the rows of `provider` stand when sorted by
/// key: each row index once, keys ascending, and rows with equal keys in
/// increasing order of index.
pub fn orasort<T: KeyAccessor + ?Sized>(provider: &T) -> (r: Vec<usize>)
    ensures
        sorts(keys_of(provider), r@),
{
    proof {
        lemma_share_prefix_zero(keys_of(provider), identity(provider.row_count()));
    }
    sort_rows(provider, 0)
}

/// Sorts `data` in place by the bytes of its items: the result is `data`
/// taken in the order that [`orasort`] returns for it.
pub fn orasort_mut<T: AsKeyBytes>(data: &mut Vec<T>)
    ensures
        exists|r: Seq<usize>|
            sorts(item_keys(old(data)@), r) && final(data)@ == materialize(old(data)@, r),
{
    let view: &Vec<T> = data;
    proof {
        lemma_share_prefix_zero(keys_of(view), identity(view.row_count()));
    }
    let indices = sort_rows(view, 0);
    let ghost r = indices@;
    proof {
        assert(keys_of(view) =~= item_keys(view@));
    }
    apply_permutation(data, indices);
}

/// Keys agree below offset zero.
proof fn lemma_share_prefix_zero(keys: Seq<Seq<u8>>, r: Seq<usize>)
    ensures
        share_prefix(keys, r, 0),
{
    assert forall|x: usize, y: usize| #[trigger] r.contains(x) && #[trigger] r.contains(y) implies agree_upto(
        keys[x as int],
        keys[y as int],
        0,
    ) by {}
}

/// Whether the keys of the rows `indices` agree on every byte below
/// `offset` that two of them both have.
///
/// Every key is compared with the longest one: where two keys both have a
/// byte, the longest has it too.
fn keys_share_prefix<T: KeyAccessor + ?Sized>(provider: &T, indices: &Vec<usize>, offset: usize) -> (r: bool)
    requires
        forall|i: int| 0 <= i < indices.len() ==> #[trigger] indices@[i] < provider.row_count(),
    ensures
        r == share_prefix(keys_of(provider), indices@, offset as int),
{
    let ghost keys = keys_of(provider);
    let ghost rows = indices@;
    let n = indices.len();
    if n == 0 {
        return true;
    }
    let mut longest: usize = 0;
    let mut longest_len = provider.get_key(indices[0]).len();
    let mut m: usize = 1;
    while m < n
        invariant
            1 <= m <= n,
            n == indices.len(),
            rows == indices@,
            keys == keys_of(provider),
            forall|i: int| 0 <= i < n ==> #[trigger] indices@[i] < provider.row_count(),
            longest < n,
            longest_len == keys[rows[longest as int] as int].len(),
            forall|t: int| 0 <= t < m ==> #[trigger] keys[rows[t] as int].len() <= longest_len,
        decreases n - m,
    {
        let l = provider.get_key(indices[m]).len();
        if l > longest_len {
            longest = m;
            longest_len = l;
        }
        m = m + 1;
    }
    let w = provider.get_key(indices[longest]);
    let ghost kw = keys[rows[longest as int] as int];
    let mut m: usize = 0;
    while m < n
        invariant
            m <= n,
            n == indices.len(),
            rows == indices@,
            keys == keys_of(provider),
            forall|i: int| 0 <= i < n ==> #[trigger] indices@[i] < provider.row_count(),
            longest < n,
            w@ == kw,
            kw == keys[rows[longest as int] as int],
            forall|t: int| 0 <= t < n ==> #[trigger] keys[rows[t] as int].len() <= kw.len(),
            forall|t: int| 0 <= t < m ==> agree_upto(#[trigger] keys[rows[t] as int], kw, offset as int),
        decreases n - m,
    {
        let key = provider.get_key(indices[m]);
        let ghost km = keys[rows[m as int] as int];
        let mut j: usize = 0;
        while j < key.len() && j < offset
            invariant
                m < n,
                n == rows.len(),
                rows == indices@,
                longest < n,
                keys == keys_of(provider),
                km == keys[rows[m as int] as int],
                kw == keys[rows[longest as int] as int],
                key@ == km,
                w@ == kw,
                km.len() <= kw.len(),
                j <= key.len(),
                forall|i: int| 0 <= i < j ==> #[trigger] km[i] == kw[i],
            decreases key.len() - j,
        {
            if key[j] != w[j] {
                proof {
                    let x = rows[m as int];
                    let y = rows[longest as int];
                    assert(rows.contains(x) && rows.contains(y));
                    assert(km[j as int] != kw[j as int]);
                    assert(j < offset && j < km.len() && j < kw.len());
                    if share_prefix(keys, rows, offset as int) {
                        assert(agree_upto(keys[x as int], keys[y as int], offset as int));
                        assert(keys[x as int][j as int] == keys[y as int][j as int]);
                        assert(false);
                    }
                    assert(!share_prefix(keys_of(provider), indices@, offset as int));
                }
                return false;
            }
            j = j + 1;
        }
        m = m + 1;
    }
    proof {
        assert forall|x: usize, y: usize| #[trigger] rows.contains(x) && #[trigger] rows.contains(y) implies agree_upto(
            keys[x as int],
            keys[y as int],
            offset as int,
        ) by {
            let tx = choose|t: int| 0 <= t < rows.len() && rows[t] == x;
            let ty = choose|t: int| 0 <= t < rows.len() && rows[t] == y;
            assert(agree_upto(keys[rows[tx] as int], kw, offset as int));
            assert(agree_upto(keys[rows[ty] as int], kw, offset as int));
        }
    }
    true
}

/// Sorts the rows `indices` by key and returns them: the same indices, each
/// as often, keys ascending, and rows with equal keys in the order they had
/// in `indices`. When their keys share their first `offset` bytes, those
/// bytes are skipped.
pub fn orasort_from_indices<T: KeyAccessor + ?Sized>(
    provider: &T,
    indices: Vec<usize>,
    offset: usize,
) -> (r: Vec<usize>)
    requires
        forall|i: int| 0 <= i < indices.len() ==> #[trigger] indices@[i] < provider.row_count(),
    ensures
        r@.to_multiset() == indices@.to_multiset(),
        in_key_order(keys_of(provider), r@),
        exists|q: Seq<usize>|
            sorts(picked_keys(keys_of(provider), indices@), q) && r@ == materialize(indices@, q),
{
    let ghost keys = keys_of(provider);
    let ghost rows = indices@;
    let skip = keys_share_prefix(provider, &indices, offset);
    let start = if skip { offset } else { 0 };
    let picked = Picked::new(provider, indices);
    proof {
        picked.lemma_model();
        assert(keys_of(&picked) =~= picked_keys(keys, rows));
        if skip {
            let n = rows.len();
            assert forall|x: usize, y: usize| #[trigger] identity(n).contains(x) && #[trigger] identity(n).contains(
                y,
            ) implies agree_upto(keys_of(&picked)[x as int], keys_of(&picked)[y as int], start as int) by {
                let tx = choose|t: int| 0 <= t < n && identity(n)[t] == x;
                let ty = choose|t: int| 0 <= t < n && identity(n)[t] == y;
                assert(rows.contains(rows[x as int]) && rows.contains(rows[y as int]));
            }
        } else {
            lemma_share_prefix_zero(keys_of(&picked), identity(rows.len()));
        }
    }
    let order = sort_rows(&picked, start);
    let chosen = picked.rows();
    let n = order.len();
    let mut r: Vec<usize> = Vec::with_capacity(n);
    let mut k: usize = 0;
    while k < n
        invariant
            k <= n,
            n == order.len(),
            n == rows.len(),
            chosen@ == rows,
            forall|i: int| 0 <= i < n ==> #[trigger] order@[i] < n,
            r@ == materialize(rows, order@.subrange(0, k as int)),
        decreases n - k,
    {
        r.push(chosen[order[k]]);
        k = k + 1;
        proof {
            assert(r@ =~= materialize(rows, order@.subrange(0, k as int)));
        }
    }
    proof {
        assert(order@.subrange(0, n as int) =~= order@);
        crate::laws::lemma_materialize_rearranged(rows, order@);
        assert forall|i: int, j: int| 0 <= i < j < r.len() implies key_le(
            keys[#[trigger] r@[i] as int],
            keys[#[trigger] r@[j] as int],
        ) by {
            assert(key_le(picked_keys(keys, rows)[order@[i] as int], picked_keys(keys, rows)[order@[j] as int]));
        }
    }
    r
}

/// Sorts the rows `indices` by key, in place: the same indices, each as
/// often, keys ascending, and rows with equal keys in the order they had.
/// When their keys share their first `offset` bytes, those bytes are
/// skipped.
pub fn orasort_slice<T: KeyAccessor + ?Sized>(provider: &T, indices: &mut Vec<usize>, offset: usize)
    requires
        forall|i: int| 0 <= i < old(indices).len() ==> #[trigger] old(indices)@[i] < provider.row_count(),
    ensures
        final(indices)@.to_multiset() == old(indices)@.to_multiset(),
        in_key_order(keys_of(provider), final(indices)@),
        exists|q: Seq<usize>|
            sorts(picked_keys(keys_of(provider), old(indices)@), q) && final(indices)@ == materialize(
                old(indices)@,
                q,
            ),
{
    let len = indices.len();
    if len == 0 {
        proof {
            assert(indices@ =~= materialize(indices@, Seq::<usize>::empty()));
            assert(sorts(picked_keys(keys_of(provider), indices@), Seq::<usize>::empty()));
        }
        return;
    }
    let mut own: Vec<usize> = Vec::with_capacity(len);
    let mut i: usize = 0;
    while i < len
        invariant
            i <= len,
            len == indices.len(),
            own@ == indices@.subrange(0, i as int),
        decreases len - i,
    {
        own.push(indices[i]);
        i = i + 1;
        proof {
            assert(own@ =~= indices@.subrange(0, i as int));
        }
    }
    proof {
        assert(own@ =~= indices@);
    }
    let sorted = orasort_from_indices(provider, own, offset);
    proof {
        assert(sorted@.len() == sorted@.to_multiset().len());
        assert(indices@.len() == indices@.to_multiset().len());
    }
    let mut i: usize = 0;
    while i < len
        invariant
            i <= len,
            len == sorted.len(),
            indices.len() == len,
            forall|k: int| 0 <= k < i ==> #[trigger] indices@[k] == sorted@[k],
        decreases len - i,
    {
        indices.set(i, sorted[i]);
        i = i + 1;
    }
    proof {
        assert(indices@ =~= sorted@);
    }
}

} // verus!
//! The sort pointer and what the engine keeps true of a region of them.
use vstd::prelude::*;
use crate::accessor::KeyAccessor;
use crate::order::agree_upto;
use crate::prefix::prefix64;

verus! {

broadcast use vstd::seq_lib::group_to_multiset_ensures;

/// A row index together with eight bytes of its key, cached.
#[derive(Clone, Copy)]
pub struct SortPtr {
    pub index: usize,
    pub cache: u64,
}

/// The row indices of a sequence of pointers.
pub open spec fn ids(s: Seq<SortPtr>) -> Seq<usize> {
    s.map_values(|p: SortPtr| p.index)
}

/// Key of the row that `x` names.
pub open spec fn key_of<T: KeyAccessor + ?Sized>(provider: &T, x: usize) -> Seq<u8> {
    provider.row_key(x as int)
}

/// `x` names a row and caches its key's bytes from `cp` on.
pub open spec fn ptr_ok<T: KeyAccessor + ?Sized>(provider: &T, x: SortPtr, cp: int) -> bool {
    &&& x.index < provider.row_count()
    &&& x.cache == prefix64(provider.row_key(x.index as int), cp)
}

/// A region at common-prefix length `cp`: every pointer is consistent with
/// `cp`, and any two keys agree on the bytes below `cp` that both have.
pub open spec fn region_ok<T: KeyAccessor + ?Sized>(provider: &T, s: Seq<SortPtr>, cp: int) -> bool {
    &&& forall|x: SortPtr| #[trigger] s.contains(x) ==> ptr_ok(provider, x, cp)
    &&& shares_prefix(provider, ids(s), cp)
}

/// Any two of the rows agree on the key bytes below `cp` that both have.
pub open spec fn shares_prefix<T: KeyAccessor + ?Sized>(provider: &T, r: Seq<usize>, cp: int) -> bool {
    forall|x: usize, y: usize|
        #[trigger] r.contains(x) && #[trigger] r.contains(y) ==> agree_upto(
            key_of(provider, x),
            key_of(provider, y),
            cp,
        )
}

/// Indices of the same rows, each as often.
pub open spec fn same_rows(a: Seq<SortPtr>, b: Seq<SortPtr>) -> bool {
    ids(a).to_multiset() == ids(b).to_multiset()
}

pub proof fn lemma_ids_len(s: Seq<SortPtr>)
    ensures
        ids(s).len() == s.len(),
        forall|i: int| 0 <= i < s.len() ==> #[trigger] ids(s)[i] == s[i].index,
{
}

/// Equal multisets of pointers name the same rows.
pub proof fn lemma_same_ptrs_same_rows(a: Seq<SortPtr>, b: Seq<SortPtr>)
    requires
        a.to_multiset() == b.to_multiset(),
    ensures
        same_rows(a, b),
    decreases a.len(),
{
    if a.len() == 0 {
        assert(a.to_multiset().len() == 0);
        assert(b.to_multiset().len() == 0);
        assert(b.len() == 0);
        assert(ids(a) =~= ids(b));
    } else {
        let x = a.last();
        let a1 = a.drop_last();
        assert(a1.push(x) =~= a);
        assert(a.contains(x));
        assert(b.to_multiset().count(x) > 0);
        assert(b.contains(x));
        let k = choose|k: int| 0 <= k < b.len() && b[k] == x;
        let b1 = b.remove(k);
        assert(a1.to_multiset() =~= a.to_multiset().remove(x));
        assert(b1.to_multiset() =~= b.to_multiset().remove(x));
        lemma_same_ptrs_same_rows(a1, b1);
        assert(ids(a) =~= ids(a1).push(x.index));
        assert(ids(b1) =~= ids(b).remove(k));
        assert(ids(b)[k] == x.index);
        assert(ids(b1).to_multiset() =~= ids(b).to_multiset().remove(x.index));
        assert(ids(b).contains(x.index));
        assert(ids(b).to_multiset().count(x.index) > 0);
        assert(ids(a).to_multiset() =~= ids(b).to_multiset());
    }
}

/// A row named after a rearrangement was named before it.
pub proof fn lemma_same_rows_contains(a: Seq<SortPtr>, b: Seq<SortPtr>, x: usize)
    requires
        same_rows(a, b),
        ids(a).contains(x),
    ensures
        ids(b).contains(x),
{
    assert(ids(a).to_multiset().count(x) > 0);
}

/// The rows of a concatenation.
pub proof fn lemma_ids_add(a: Seq<SortPtr>, b: Seq<SortPtr>)
    ensures
        ids(a + b) == ids(a) + ids(b),
        ids(a + b).to_multiset() == ids(a).to_multiset().add(ids(b).to_multiset()),
{
    assert(ids(a + b) =~= ids(a) + ids(b));
    vstd::seq_lib::lemma_multiset_commutative(ids(a), ids(b));
}

/// A part of a region is a region.
pub proof fn lemma_region_sub<T: KeyAccessor + ?Sized>(
    provider: &T,
    s: Seq<SortPtr>,
    lo: int,
    hi: int,
    a: int,
    b: int,
    cp: int,
)
    requires
        0 <= lo <= a <= b <= hi <= s.len(),
        region_ok(provider, s.subrange(lo, hi), cp),
    ensures
        region_ok(provider, s.subrange(a, b), cp),
{
    let t = s.subrange(lo, hi);
    let u = s.subrange(a, b);
    assert forall|x: SortPtr| #[trigger] u.contains(x) implies ptr_ok(provider, x, cp) by {
        let k = choose|k: int| 0 <= k < u.len() && u[k] == x;
        assert(t[k + a - lo] == x);
        assert(t.contains(x));
    }
    assert forall|x: usize, y: usize| #[trigger] ids(u).contains(x) && #[trigger] ids(u).contains(y)
        implies agree_upto(key_of(provider, x), key_of(provider, y), cp) by {
        let k = choose|k: int| 0 <= k < ids(u).len() && ids(u)[k] == x;
        let m = choose|m: int| 0 <= m < ids(u).len() && ids(u)[m] == y;
        assert(ids(t)[k + a - lo] == x);
        assert(ids(t)[m + a - lo] == y);
        assert(ids(t).contains(x));
        assert(ids(t).contains(y));
    }
}

/// A rearranged region is a region.
pub proof fn lemma_region_perm<T: KeyAccessor + ?Sized>(
    provider: &T,
    s: Seq<SortPtr>,
    t: Seq<SortPtr>,
    cp: int,
)
    requires
        s.to_multiset() == t.to_multiset(),
        region_ok(provider, s, cp),
    ensures
        region_ok(provider, t, cp),
{
    assert forall|x: SortPtr| #[trigger] t.contains(x) implies ptr_ok(provider, x, cp) by {
        assert(t.to_multiset().count(x) > 0);
        assert(s.contains(x));
    }
    lemma_same_ptrs_same_rows(t, s);
    assert forall|x: usize, y: usize| #[trigger] ids(t).contains(x) && #[trigger] ids(t).contains(y)
        implies agree_upto(key_of(provider, x), key_of(provider, y), cp) by {
        lemma_same_rows_contains(t, s, x);
        lemma_same_rows_contains(t, s, y);
    }
}

} // verus!

//! Properties of the sorted order that follow from the contracts of the
//! entry points.
use vstd::prelude::*;
use vstd::set_lib::{lemma_subset_equality, range_set_properties};
use crate::accessor::AsKeyBytes;
use crate::order::{key_le, lemma_key_order, lemma_le_skip};
use crate::spec::{
    identity, in_key_order, is_permutation, item_keys, materialize, picked_keys, sorts,
};

verus! {

broadcast use vstd::seq_lib::group_to_multiset_ensures;

/// A sequence of `n` distinct indices below `n` holds every index below `n`.
pub proof fn lemma_permutation_onto(r: Seq<usize>, n: nat, x: usize)
    requires
        n <= usize::MAX,
        is_permutation(r, n),
        x < n,
    ensures
        r.contains(x),
{
    assert forall|i: int, j: int| 0 <= i < r.len() && 0 <= j < r.len() && i != j implies r[i] != r[j] by {
        if i < j {
            assert(r[i] != r[j]);
        } else {
            assert(r[j] != r[i]);
        }
    }
    assert(r.no_duplicates());
    r.unique_seq_to_set();
    let all = Set::<usize>::range(0, n as usize);
    range_set_properties::<usize>(0, n as usize);
    assert(r.to_set().subset_of(all));
    vstd::set_lib::lemma_set_subset_finite(all, r.to_set());
    lemma_subset_equality(r.to_set(), all);
    assert(all.contains(x));
    assert(r.to_set().contains(x));
}

proof fn lemma_unique_from(keys: Seq<Seq<u8>>, r1: Seq<usize>, r2: Seq<usize>, k: int)
    requires
        keys.len() <= usize::MAX,
        sorts(keys, r1),
        sorts(keys, r2),
        0 <= k <= keys.len(),
        forall|j: int| 0 <= j < k ==> r1[j] == r2[j],
    ensures
        r1 == r2,
    decreases keys.len() - k,
{
    let n = keys.len();
    if k < n {
        let a = r1[k];
        let b = r2[k];
        if a != b {
            lemma_permutation_onto(r2, n, a);
            lemma_permutation_onto(r1, n, b);
            let m = choose|m: int| 0 <= m < r2.len() && r2[m] == a;
            let m1 = choose|m: int| 0 <= m < r1.len() && r1[m] == b;
            if m < k {
                assert(r1[m] == a);
            }
            if m1 < k {
                assert(r2[m1] == b);
            }
            assert(m > k && m1 > k);
            assert(key_le(keys[b as int], keys[a as int]));
            assert(key_le(keys[a as int], keys[b as int]));
            lemma_key_order(keys[a as int], keys[b as int]);
            assert(b < a && a < b);
        }
        lemma_unique_from(keys, r1, r2, k + 1);
    } else {
        assert(r1 =~= r2);
    }
}

/// Exactly one order sorts a collection: two results of sorting the same
/// keys are equal.
pub proof fn lemma_sorts_unique(keys: Seq<Seq<u8>>, r1: Seq<usize>, r2: Seq<usize>)
    requires
        keys.len() <= usize::MAX,
        sorts(keys, r1),
        sorts(keys, r2),
    ensures
        r1 == r2,
{
    lemma_unique_from(keys, r1, r2, 0);
}

/// Sorting in place gives the items at the sorted row order, in that order.
pub proof fn lemma_in_place_matches_indices<T: AsKeyBytes>(
    items: Seq<T>,
    r: Seq<usize>,
    after: Seq<T>,
)
    requires
        items.len() <= usize::MAX,
        sorts(item_keys(items), r),
        exists|q: Seq<usize>| sorts(item_keys(items), q) && after == materialize(items, q),
    ensures
        after == materialize(items, r),
{
    let q = choose|q: Seq<usize>| sorts(item_keys(items), q) && after == materialize(items, q);
    lemma_sorts_unique(item_keys(items), r, q);
}

/// When no two keys are equal, the sorted order is the only order of the rows
/// in which the keys ascend: every correct sort, stable or not, returns it.
pub proof fn lemma_distinct_keys_unique(keys: Seq<Seq<u8>>, r: Seq<usize>, q: Seq<usize>)
    requires
        keys.len() <= usize::MAX,
        forall|i: int, j: int| 0 <= i < j < keys.len() ==> keys[i] != keys[j],
        sorts(keys, r),
        is_permutation(q, keys.len()),
        in_key_order(keys, q),
    ensures
        r == q,
{
    assert forall|i: int, j: int|
        0 <= i < j < q.len() && keys[#[trigger] q[i] as int] == keys[#[trigger] q[j] as int] implies q[i] < q[j] by {
        if q[i] < q[j] {
        } else {
            assert(keys[q[j] as int] != keys[q[i] as int]);
        }
    }
    lemma_sorts_unique(keys, r, q);
}

/// Sorting rows that already stand in key order leaves them where they are.
pub proof fn lemma_sorted_input_identity(keys: Seq<Seq<u8>>, r: Seq<usize>)
    requires
        keys.len() <= usize::MAX,
        forall|i: int, j: int| 0 <= i < j < keys.len() ==> key_le(keys[i], keys[j]),
        sorts(keys, r),
    ensures
        r == identity(keys.len()),
{
    let id = identity(keys.len());
    assert forall|i: int, j: int| 0 <= i < j < id.len() implies key_le(
        keys[#[trigger] id[i] as int],
        keys[#[trigger] id[j] as int],
    ) by {}
    lemma_sorts_unique(keys, r, id);
}

/// Items whose keys are all equal come out of a sort as they went in.
pub proof fn lemma_equal_keys_unchanged<T: AsKeyBytes>(items: Seq<T>, r: Seq<usize>)
    requires
        items.len() <= usize::MAX,
        forall|i: int, j: int| 0 <= i < items.len() && 0 <= j < items.len() ==> #[trigger] items[i].key_view() == #[trigger] items[j].key_view(),
        sorts(item_keys(items), r),
    ensures
        materialize(items, r) == items,
{
    let keys = item_keys(items);
    assert forall|i: int, j: int| 0 <= i < j < keys.len() implies key_le(keys[i], keys[j]) by {
        assert(keys[i] == keys[j]);
        lemma_key_order(keys[i], keys[j]);
    }
    lemma_sorted_input_identity(keys, r);
    assert(materialize(items, r) =~= items);
}

/// A key that is a proper prefix of another sorts before it.
pub proof fn lemma_prefix_sorts_first(keys: Seq<Seq<u8>>, r: Seq<usize>, i: int, j: int)
    requires
        sorts(keys, r),
        0 <= i < r.len(),
        0 <= j < r.len(),
        keys[r[i] as int].len() < keys[r[j] as int].len(),
        keys[r[i] as int] == keys[r[j] as int].subrange(0, keys[r[i] as int].len() as int),
    ensures
        i < j,
{
    let a = keys[r[i] as int];
    let b = keys[r[j] as int];
    if j < i {
        assert(key_le(b, a));
        assert forall|t: int| 0 <= t < a.len() implies a[t] == b[t] by {
            assert(a[t] == b.subrange(0, a.len() as int)[t]);
        }
        lemma_le_skip(b, a, 0, a.len() as int);
        assert(false);
    }
    assert(i != j);
}

/// Sorting all rows, named in index order, gives the sorted order of the
/// rows.
pub proof fn lemma_all_rows_picked(keys: Seq<Seq<u8>>, q: Seq<usize>, r: Seq<usize>)
    requires
        keys.len() <= usize::MAX,
        sorts(picked_keys(keys, identity(keys.len())), q),
        sorts(keys, r),
    ensures
        materialize(identity(keys.len()), q) == r,
{
    assert(picked_keys(keys, identity(keys.len())) =~= keys);
    lemma_sorts_unique(keys, q, r);
    assert(materialize(identity(keys.len()), q) =~= r);
}

/// Items taken at positions that are the same multiset are the same
/// multiset.
proof fn lemma_materialize_same<A>(items: Seq<A>, a: Seq<usize>, b: Seq<usize>)
    requires
        a.to_multiset() == b.to_multiset(),
        forall|i: int| 0 <= i < a.len() ==> #[trigger] a[i] < items.len(),
    ensures
        materialize(items, a).to_multiset() == materialize(items, b).to_multiset(),
    decreases a.len(),
{
    assert(a.len() == a.to_multiset().len() && b.len() == b.to_multiset().len());
    if a.len() == 0 {
        assert(materialize(items, a) =~= materialize(items, b));
    } else {
        let x = a.last();
        let a1 = a.drop_last();
        assert(a1.push(x) =~= a);
        assert(a.contains(x));
        assert(b.to_multiset().count(x) > 0);
        let k = choose|k: int| 0 <= k < b.len() && b[k] == x;
        let b1 = b.remove(k);
        assert(a1.to_multiset() =~= a.to_multiset().remove(x));
        assert(b1.to_multiset() =~= b.to_multiset().remove(x));
        lemma_materialize_same(items, a1, b1);
        let ma = materialize(items, a);
        let mb = materialize(items, b);
        assert(ma =~= materialize(items, a1).push(items[x as int]));
        assert(materialize(items, b1) =~= mb.remove(k));
        assert(mb[k] == items[x as int]);
        assert(materialize(items, b1).to_multiset() =~= mb.to_multiset().remove(items[x as int]));
        assert(mb.contains(items[x as int]));
        assert(mb.to_multiset().count(items[x as int]) > 0);
        assert(ma.to_multiset() =~= mb.to_multiset());
    }
}

/// Taking items in an order that names each position once takes each item
/// once.
pub proof fn lemma_materialize_rearranged<A>(items: Seq<A>, order: Seq<usize>)
    requires
        items.len() <= usize::MAX,
        order.to_multiset() == identity(items.len()).to_multiset(),
        is_permutation(order, items.len()),
    ensures
        materialize(items, order).to_multiset() == items.to_multiset(),
{
    lemma_materialize_same(items, order, identity(items.len()));
    assert(materialize(items, identity(items.len())) =~= items);
}

} // verus!

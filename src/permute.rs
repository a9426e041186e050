//! Applying an index permutation to a vector in place, by walking its cycles.
use vstd::prelude::*;
use crate::spec::{identity, is_permutation, materialize};

verus! {

broadcast use vstd::seq_lib::group_to_multiset_ensures;

/// Relies on `<[T]>::swap`: it exchanges the elements at `a` and `b`.
#[verifier::external_body]
fn swap_items<T>(data: &mut Vec<T>, a: usize, b: usize)
    requires
        a < old(data).len(),
        b < old(data).len(),
    ensures
        final(data)@ == old(data)@.update(a as int, old(data)@[b as int]).update(
            b as int,
            old(data)@[a as int],
        ),
{
    data.swap(a, b);
}

/// Number of positions below `k` that do not hold their own index.
pub open spec fn unplaced(idx: Seq<usize>, k: int) -> nat
    decreases k,
{
    if k <= 0 {
        0
    } else {
        unplaced(idx, k - 1) + (if idx[k - 1] != (k - 1) as usize {
            1nat
        } else {
            0nat
        })
    }
}

proof fn lemma_place_one(idx: Seq<usize>, c: int, k: int)
    requires
        0 <= c < k <= idx.len(),
        idx[c] != c as usize,
        c <= usize::MAX,
    ensures
        unplaced(idx, k) > 0,
        unplaced(idx.update(c, c as usize), k) == unplaced(idx, k) - 1,
    decreases k,
{
    if k - 1 > c {
        lemma_place_one(idx, c, k - 1);
    } else {
        lemma_place_unchanged(idx, c, c);
    }
}

proof fn lemma_place_unchanged(idx: Seq<usize>, c: int, k: int)
    requires
        0 <= k <= c < idx.len(),
    ensures
        unplaced(idx.update(c, c as usize), k) == unplaced(idx, k),
    decreases k,
{
    if k > 0 {
        lemma_place_unchanged(idx, c, k - 1);
    }
}

/// Rearranges `data` so that position `i` holds what position `indices[i]`
/// held, by swaps along the cycles of the permutation; a position whose
/// index is written back into `indices` is placed.
pub fn apply_permutation<T>(data: &mut Vec<T>, indices: Vec<usize>)
    requires
        indices.len() == old(data).len(),
        indices@.to_multiset() == identity(indices.len() as nat).to_multiset(),
    ensures
        final(data)@ == materialize(old(data)@, indices@),
{
    let ghost p = indices@;
    let ghost d0 = data@;
    let n = data.len();
    proof {
        crate::algo::lemma_rearranged_identity(p, n as nat);
        assert forall|k: int| 0 <= k < n implies #[trigger] p.contains(k as usize) by {
            assert(identity(n as nat)[k] == k as usize);
            assert(identity(n as nat).contains(k as usize));
            assert(p.to_multiset().count(k as usize) > 0);
        }
    }
    let mut indices = indices;
    let mut i: usize = 0;
    while i < n
        invariant
            n == data.len(),
            n == indices.len(),
            n == p.len(),
            n == d0.len(),
            is_permutation(p, n as nat),
            i <= n,
            forall|k: int| 0 <= k < n ==> #[trigger] indices@[k] == k || indices@[k] == p[k],
            forall|k: int| 0 <= k < n && #[trigger] indices@[k] == k ==> data@[k] == d0[p[k] as int],
            forall|k: int| 0 <= k < n && #[trigger] indices@[k] != k ==> data@[k] == d0[k],
            forall|k: int| 0 <= k < i ==> #[trigger] indices@[k] == k,
            forall|m: int|
                0 <= m < n && #[trigger] indices@[p[m] as int] == p[m] ==> indices@[m] == m,
        decreases n - i,
    {
        if indices[i] != i {
            let mut current = i;
            let ghost mut prev: int = 0;
            while indices[current] != i
                invariant
                    n == data.len(),
                    n == indices.len(),
                    n == p.len(),
                    n == d0.len(),
                    is_permutation(p, n as nat),
                    i < n,
                    current < n,
                    forall|k: int| 0 <= k < n ==> #[trigger] indices@[k] == k || indices@[k] == p[k],
                    forall|k: int|
                        0 <= k < n && #[trigger] indices@[k] == k ==> data@[k] == d0[p[k] as int],
                    forall|k: int|
                        0 <= k < n && k != current && #[trigger] indices@[k] != k ==> data@[k] == d0[k],
                    forall|k: int| 0 <= k < i ==> #[trigger] indices@[k] == k,
                    forall|m: int|
                        0 <= m < n && #[trigger] indices@[p[m] as int] == p[m] && p[m] != i
                            ==> indices@[m] == m,
                    data@[current as int] == d0[i as int],
                    indices@[current as int] == p[current as int],
                    indices@[current as int] != current,
                    current == i || indices@[i as int] == i,
                    current == i || (0 <= prev < n && indices@[prev] == prev && p[prev] == current),
                decreases unplaced(indices@, n as int),
            {
                let next = indices[current];
                proof {
                    if indices@[next as int] == next {
                        assert(indices@[p[current as int] as int] == p[current as int]);
                    }
                }
                let ghost before = indices@;
                swap_items(data, current, next);
                indices.set(current, current);
                proof {
                    lemma_place_one(before, current as int, n as int);
                    assert forall|m: int|
                        0 <= m < n && #[trigger] indices@[p[m] as int] == p[m] && p[m] != i
                            implies indices@[m] == m by {
                        if p[m] == current {
                            assert(p[prev] == p[m]);
                        }
                    }
                    prev = current as int;
                }
                current = next;
            }
            let ghost before = indices@;
            indices.set(current, current);
            proof {
                assert(current != i);
                assert forall|m: int| 0 <= m < n && #[trigger] indices@[p[m] as int] == p[m] implies indices@[m] == m by {
                    if p[m] == current {
                        assert(p[prev] == p[m]);
                    } else if p[m] == i {
                        assert(p[current as int] == p[m]);
                    } else {
                        assert(before[p[m] as int] == p[m]);
                    }
                }
            }
        }
        i = i + 1;
    }
    proof {
        assert forall|k: int| 0 <= k < n implies #[trigger] data@[k] == d0[p[k] as int] by {
            assert(indices@[k] == k);
        }
        assert(data@ =~= materialize(d0, p));
    }
}

} // verus!

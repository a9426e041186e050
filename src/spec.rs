//! What a sort result is, stated over the keys of the rows.
use vstd::prelude::*;
use crate::accessor::{AsKeyBytes, KeyAccessor};
use crate::order::{agree_upto, key_le};

verus! {

/// The keys of a collection's rows, by row index.
pub open spec fn keys_of<T: KeyAccessor + ?Sized>(provider: &T) -> Seq<Seq<u8>> {
    Seq::new(provider.row_count(), |i: int| provider.row_key(i))
}

/// The keys of a sequence of items.
pub open spec fn item_keys<T: AsKeyBytes>(items: Seq<T>) -> Seq<Seq<u8>> {
    items.map_values(|x: T| x.key_view())
}

/// `r` names each row index below `n` exactly once.
pub open spec fn is_permutation(r: Seq<usize>, n: nat) -> bool {
    &&& r.len() == n
    &&& forall|i: int| 0 <= i < r.len() ==> #[trigger] r[i] < n
    &&& forall|i: int, j: int| 0 <= i < j < r.len() ==> #[trigger] r[i] != #[trigger] r[j]
}

/// The rows `r` stand in key order.
pub open spec fn in_key_order(keys: Seq<Seq<u8>>, r: Seq<usize>) -> bool {
    forall|i: int, j: int|
        0 <= i < j < r.len() ==> key_le(keys[#[trigger] r[i] as int], keys[#[trigger] r[j] as int])
}

/// Rows with equal keys stand in increasing order of index.
pub open spec fn ties_by_index(keys: Seq<Seq<u8>>, r: Seq<usize>) -> bool {
    forall|i: int, j: int|
        0 <= i < j < r.len() && keys[#[trigger] r[i] as int] == keys[#[trigger] r[j] as int] ==> r[i]
            < r[j]
}

/// `r` is the sorted order of the rows with keys `keys`: every row once, in
/// key order, equal keys in the order of their rows. Exactly one `r` is.
pub open spec fn sorts(keys: Seq<Seq<u8>>, r: Seq<usize>) -> bool {
    &&& is_permutation(r, keys.len())
    &&& in_key_order(keys, r)
    &&& ties_by_index(keys, r)
}

/// The items of `items` at the positions `r`, in that order.
pub open spec fn materialize<T>(items: Seq<T>, r: Seq<usize>) -> Seq<T> {
    r.map_values(|i: usize| items[i as int])
}

/// The keys of the rows `rows`, in that order.
pub open spec fn picked_keys(keys: Seq<Seq<u8>>, rows: Seq<usize>) -> Seq<Seq<u8>> {
    Seq::new(rows.len(), |p: int| keys[rows[p] as int])
}

/// The row indices `0, 1, ..., n - 1`.
pub open spec fn identity(n: nat) -> Seq<usize> {
    Seq::new(n, |i: int| i as usize)
}

/// The rows `r` hold the same bytes wherever two of their keys both have a
/// byte below `offset`.
pub open spec fn share_prefix(keys: Seq<Seq<u8>>, r: Seq<usize>, offset: int) -> bool {
    forall|x: usize, y: usize|
        #[trigger] r.contains(x) && #[trigger] r.contains(y) ==> agree_upto(
            keys[x as int],
            keys[y as int],
            offset,
        )
}

} // verus!

//! The order on keys: unsigned lexicographic, shorter prefix first.
use vstd::prelude::*;

verus! {

/// Byte `j` of key `k`, with zero past the end of the key.
pub open spec fn pad(k: Seq<u8>, j: int) -> u8 {
    if 0 <= j < k.len() {
        k[j]
    } else {
        0u8
    }
}

/// `a <= b` when both are compared from position `i` on.
pub open spec fn le_from(a: Seq<u8>, b: Seq<u8>, i: int) -> bool
    decreases a.len() - i,
{
    if i >= a.len() {
        true
    } else if i >= b.len() {
        false
    } else if a[i] != b[i] {
        a[i] < b[i]
    } else {
        le_from(a, b, i + 1)
    }
}

/// The order on keys: `a <= b` lexicographically.
pub open spec fn key_le(a: Seq<u8>, b: Seq<u8>) -> bool {
    le_from(a, b, 0)
}

/// `a < b` lexicographically.
pub open spec fn key_lt(a: Seq<u8>, b: Seq<u8>) -> bool {
    key_le(a, b) && a != b
}

/// `a` and `b` hold the same byte wherever both have one below `n`.
pub open spec fn agree_upto(a: Seq<u8>, b: Seq<u8>, n: int) -> bool {
    forall|j: int| 0 <= j < n && j < a.len() && j < b.len() ==> a[j] == b[j]
}

/// Equal bytes on `[i, k)` can be passed over.
pub proof fn lemma_le_skip(a: Seq<u8>, b: Seq<u8>, i: int, k: int)
    requires
        0 <= i <= k,
        k <= a.len(),
        k <= b.len(),
        forall|j: int| i <= j < k ==> a[j] == b[j],
    ensures
        le_from(a, b, i) == le_from(a, b, k),
        le_from(b, a, i) == le_from(b, a, k),
    decreases k - i,
{
    if i < k {
        lemma_le_skip(a, b, i + 1, k);
    }
}

/// Any two keys are comparable.
pub proof fn lemma_le_total(a: Seq<u8>, b: Seq<u8>, i: int)
    ensures
        le_from(a, b, i) || le_from(b, a, i),
    decreases a.len() - i,
{
    if i < a.len() && i < b.len() && a[i] == b[i] {
        lemma_le_total(a, b, i + 1);
    }
}

/// Keys that are each at most the other agree from `i` on.
pub proof fn lemma_le_antisym(a: Seq<u8>, b: Seq<u8>, i: int)
    requires
        0 <= i,
        le_from(a, b, i),
        le_from(b, a, i),
    ensures
        a.len() == b.len() || (i >= a.len() && i >= b.len()),
        forall|j: int| i <= j < a.len() && j < b.len() ==> a[j] == b[j],
    decreases a.len() - i,
{
    if i < a.len() && i < b.len() {
        lemma_le_antisym(a, b, i + 1);
    }
}

/// The order is transitive.
pub proof fn lemma_le_trans(a: Seq<u8>, b: Seq<u8>, c: Seq<u8>, i: int)
    requires
        le_from(a, b, i),
        le_from(b, c, i),
    ensures
        le_from(a, c, i),
    decreases a.len() - i,
{
    if i < a.len() && i < b.len() && i < c.len() && a[i] == b[i] && b[i] == c[i] {
        lemma_le_trans(a, b, c, i + 1);
    }
}

/// `key_le` is a total order.
pub proof fn lemma_key_order(a: Seq<u8>, b: Seq<u8>)
    ensures
        key_le(a, b) || key_le(b, a),
        key_le(a, b) && key_le(b, a) ==> a == b,
        key_le(a, a),
{
    lemma_le_total(a, b, 0);
    lemma_le_total(a, a, 0);
    if key_le(a, b) && key_le(b, a) {
        lemma_le_antisym(a, b, 0);
        assert(a =~= b);
    }
}

/// Where two keys first differ in their zero-padded bytes, the smaller
/// byte marks the smaller key.
pub proof fn lemma_first_pad_diff(a: Seq<u8>, b: Seq<u8>, cp: int, m: int)
    requires
        0 <= cp <= m,
        agree_upto(a, b, cp),
        forall|j: int| cp <= j < m ==> pad(a, j) == pad(b, j),
        pad(a, m) < pad(b, m),
    ensures
        key_lt(a, b),
{
    assert(m < b.len());
    if m < a.len() {
        assert forall|j: int| 0 <= j < m implies a[j] == b[j] by {
            if j >= cp {
                assert(pad(a, j) == pad(b, j));
            }
        }
        lemma_le_skip(a, b, 0, m);
        assert(a[m] != b[m]);
    } else {
        assert forall|j: int| 0 <= j < a.len() implies a[j] == b[j] by {
            if j >= cp {
                assert(pad(a, j) == pad(b, j));
            }
        }
        lemma_le_skip(a, b, 0, a.len() as int);
        assert(a.len() != b.len());
    }
}

} // verus!

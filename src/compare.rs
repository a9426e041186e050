//! The key comparator: cached prefixes first, full keys only when those tie.
use std::cmp::Ordering;
use vstd::prelude::*;
use crate::accessor::KeyAccessor;
use crate::order::{agree_upto, key_le, key_lt, lemma_key_order, lemma_le_skip};
use crate::prefix::{lemma_prefix_eq, lemma_prefix_lt};
use crate::ptr::{key_of, ptr_ok, SortPtr};

verus! {

/// What a comparison of keys `a` and `b` returns.
pub open spec fn cmp_result(a: Seq<u8>, b: Seq<u8>, r: Ordering) -> bool {
    &&& (r == Ordering::Less) == key_lt(a, b)
    &&& (r == Ordering::Equal) == (a == b)
    &&& (r == Ordering::Greater) == key_lt(b, a)
}

/// Compares two keys that agree below `start`, from `start` on; a key that
/// ends first is the smaller.
fn compare_tails(ka: &[u8], kb: &[u8], start: usize) -> (r: Ordering)
    requires
        agree_upto(ka@, kb@, start as int),
    ensures
        cmp_result(ka@, kb@, r),
{
    let la = ka.len();
    let lb = kb.len();
    let mut i = start;
    if i > la {
        i = la;
    }
    if i > lb {
        i = lb;
    }
    while i < la && i < lb
        invariant
            la == ka@.len(),
            lb == kb@.len(),
            i <= la,
            i <= lb,
            forall|j: int| 0 <= j < i ==> ka@[j] == kb@[j],
        decreases la - i,
    {
        if ka[i] != kb[i] {
            proof {
                lemma_le_skip(ka@, kb@, 0, i as int);
            }
            if ka[i] < kb[i] {
                return Ordering::Less;
            } else {
                return Ordering::Greater;
            }
        }
        i = i + 1;
    }
    proof {
        lemma_le_skip(ka@, kb@, 0, i as int);
    }
    if la < lb {
        Ordering::Less
    } else if la > lb {
        Ordering::Greater
    } else {
        assert(ka@ =~= kb@);
        Ordering::Equal
    }
}

/// Compares the keys of two pointers whose caches hold their key bytes from
/// `offset` on, and whose keys agree below `offset`.
///
/// Unequal caches decide as integers. Equal caches send the comparison to
/// the keys: from `offset + 8` when both keys reach that far, else from
/// `offset`, where the cache may have held padding.
pub fn compare_entries<T: KeyAccessor + ?Sized>(
    provider: &T,
    a: &SortPtr,
    pivot: &SortPtr,
    offset: usize,
) -> (r: Ordering)
    requires
        ptr_ok(provider, *a, offset as int),
        ptr_ok(provider, *pivot, offset as int),
        agree_upto(key_of(provider, a.index), key_of(provider, pivot.index), offset as int),
    ensures
        cmp_result(key_of(provider, a.index), key_of(provider, pivot.index), r),
{
    let ghost ka = key_of(provider, a.index);
    let ghost kp = key_of(provider, pivot.index);
    if a.cache != pivot.cache {
        if a.cache < pivot.cache {
            proof {
                lemma_prefix_lt(ka, kp, offset as int);
                lemma_key_order(ka, kp);
            }
            return Ordering::Less;
        } else {
            proof {
                assert(agree_upto(kp, ka, offset as int));
                lemma_prefix_lt(kp, ka, offset as int);
                lemma_key_order(ka, kp);
            }
            return Ordering::Greater;
        }
    }
    let key_a = provider.get_key(a.index);
    let key_p = provider.get_key(pivot.index);
    let la = key_a.len();
    let lp = key_p.len();
    let start = if offset < la && la - offset >= 8 && offset < lp && lp - offset >= 8 {
        proof {
            lemma_prefix_eq(ka, kp, offset as int);
        }
        offset + 8
    } else {
        offset
    };
    compare_tails(key_a, key_p, start)
}

/// A comparison that did not find `a` greater found it at most `b`.
pub proof fn lemma_not_greater(a: Seq<u8>, b: Seq<u8>, r: Ordering)
    requires
        cmp_result(a, b, r),
        r != Ordering::Greater,
    ensures
        key_le(a, b),
{
    lemma_key_order(a, b);
}

} // verus!

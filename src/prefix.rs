//! Eight key bytes as one big-endian integer: loading, and what comparing or
//! shifting such integers says about the bytes.
use vstd::prelude::*;
use crate::order::{agree_upto, key_lt, lemma_first_pad_diff, pad};

verus! {

/// Number of key bytes a cached prefix holds.
pub const CACHE_BYTES: usize = 8;

/// Eight bytes packed big-endian, `b0` most significant.
pub open spec fn pack8(b0: u8, b1: u8, b2: u8, b3: u8, b4: u8, b5: u8, b6: u8, b7: u8) -> u64 {
    ((b0 as u64) << 56u64) | ((b1 as u64) << 48u64) | ((b2 as u64) << 40u64) | ((b3 as u64)
        << 32u64) | ((b4 as u64) << 24u64) | ((b5 as u64) << 16u64) | ((b6 as u64) << 8u64) | (
    b7 as u64)
}

/// The eight bytes of `k` from `off` on, zero past its end, big-endian.
pub open spec fn prefix64(k: Seq<u8>, off: int) -> u64 {
    pack8(
        pad(k, off),
        pad(k, off + 1),
        pad(k, off + 2),
        pad(k, off + 3),
        pad(k, off + 4),
        pad(k, off + 5),
        pad(k, off + 6),
        pad(k, off + 7),
    )
}

/// Byte `i` (from the most significant end) of a packed integer.
pub open spec fn cache_byte(c: u64, i: int) -> u8 {
    ((c >> ((56 - 8 * i) as u64)) & 0xffu64) as u8
}

proof fn lemma_pack8_bits(b0: u8, b1: u8, b2: u8, b3: u8, b4: u8, b5: u8, b6: u8, b7: u8, p: u64)
    requires
        p == ((b0 as u64) << 56u64) | ((b1 as u64) << 48u64) | ((b2 as u64) << 40u64) | ((b3 as u64) << 32u64)
            | ((b4 as u64) << 24u64) | ((b5 as u64) << 16u64) | ((b6 as u64) << 8u64) | (b7 as u64),
    ensures
        (p >> 56u64) & 0xffu64 == b0 as u64,
        (p >> 48u64) & 0xffu64 == b1 as u64,
        (p >> 40u64) & 0xffu64 == b2 as u64,
        (p >> 32u64) & 0xffu64 == b3 as u64,
        (p >> 24u64) & 0xffu64 == b4 as u64,
        (p >> 16u64) & 0xffu64 == b5 as u64,
        (p >> 8u64) & 0xffu64 == b6 as u64,
        (p >> 0u64) & 0xffu64 == b7 as u64,
        p >> 56u64 == b0 as u64,
{
    assert((p >> 56u64) & 0xffu64 == b0 as u64 && (p >> 48u64) & 0xffu64 == b1 as u64 && (p
        >> 40u64) & 0xffu64 == b2 as u64 && (p >> 32u64) & 0xffu64 == b3 as u64) by (bit_vector)
        requires
            p == ((b0 as u64) << 56u64) | ((b1 as u64) << 48u64) | ((b2 as u64) << 40u64) | ((b3 as u64) << 32u64)
            | ((b4 as u64) << 24u64) | ((b5 as u64) << 16u64) | ((b6 as u64) << 8u64) | (b7 as u64),
    ;
    assert((p >> 24u64) & 0xffu64 == b4 as u64 && (p >> 16u64) & 0xffu64 == b5 as u64 && (p
        >> 8u64) & 0xffu64 == b6 as u64 && (p >> 0u64) & 0xffu64 == b7 as u64 && p >> 56u64
        == b0 as u64) by (bit_vector)
        requires
            p == ((b0 as u64) << 56u64) | ((b1 as u64) << 48u64) | ((b2 as u64) << 40u64) | ((b3 as u64) << 32u64)
            | ((b4 as u64) << 24u64) | ((b5 as u64) << 16u64) | ((b6 as u64) << 8u64) | (b7 as u64),
    ;
}

/// Each byte of a packed integer can be read back.
pub proof fn lemma_pack8_bytes(b0: u8, b1: u8, b2: u8, b3: u8, b4: u8, b5: u8, b6: u8, b7: u8)
    ensures
        ({
            let p = pack8(b0, b1, b2, b3, b4, b5, b6, b7);
            &&& cache_byte(p, 0) == b0
            &&& cache_byte(p, 1) == b1
            &&& cache_byte(p, 2) == b2
            &&& cache_byte(p, 3) == b3
            &&& cache_byte(p, 4) == b4
            &&& cache_byte(p, 5) == b5
            &&& cache_byte(p, 6) == b6
            &&& cache_byte(p, 7) == b7
            &&& p >> 56u64 == b0 as u64
        }),
{
    lemma_pack8_bits(b0, b1, b2, b3, b4, b5, b6, b7, pack8(b0, b1, b2, b3, b4, b5, b6, b7));
}

/// Byte `i` of a cached prefix is the key's zero-padded byte `off + i`.
pub proof fn lemma_prefix_byte(k: Seq<u8>, off: int, i: int)
    requires
        0 <= i < 8,
    ensures
        cache_byte(prefix64(k, off), i) == pad(k, off + i),
        prefix64(k, off) >> 56u64 == pad(k, off) as u64,
{
    lemma_pack8_bytes(
        pad(k, off),
        pad(k, off + 1),
        pad(k, off + 2),
        pad(k, off + 3),
        pad(k, off + 4),
        pad(k, off + 5),
        pad(k, off + 6),
        pad(k, off + 7),
    );
}

proof fn lemma_pack8_gt_bits(
    a0: u8, a1: u8, a2: u8, a3: u8, a4: u8, a5: u8, a6: u8, a7: u8,
    b0: u8, b1: u8, b2: u8, b3: u8, b4: u8, b5: u8, b6: u8, b7: u8,
    pa: u64, pb: u64,
)
    requires
        pa == ((a0 as u64) << 56u64) | ((a1 as u64) << 48u64) | ((a2 as u64) << 40u64) | ((a3 as u64) << 32u64)
            | ((a4 as u64) << 24u64) | ((a5 as u64) << 16u64) | ((a6 as u64) << 8u64) | (a7 as u64),
        pb == ((b0 as u64) << 56u64) | ((b1 as u64) << 48u64) | ((b2 as u64) << 40u64) | ((b3 as u64) << 32u64)
            | ((b4 as u64) << 24u64) | ((b5 as u64) << 16u64) | ((b6 as u64) << 8u64) | (b7 as u64),
    ensures
        a0 > b0 ==> pa > pb,
        a0 == b0 && a1 > b1 ==> pa > pb,
        a0 == b0 && a1 == b1 && a2 > b2 ==> pa > pb,
        a0 == b0 && a1 == b1 && a2 == b2 && a3 > b3 ==> pa > pb,
        a0 == b0 && a1 == b1 && a2 == b2 && a3 == b3 && a4 > b4 ==> pa > pb,
        a0 == b0 && a1 == b1 && a2 == b2 && a3 == b3 && a4 == b4 && a5 > b5 ==> pa > pb,
        a0 == b0 && a1 == b1 && a2 == b2 && a3 == b3 && a4 == b4 && a5 == b5 && a6 > b6 ==> pa > pb,
        a0 == b0 && a1 == b1 && a2 == b2 && a3 == b3 && a4 == b4 && a5 == b5 && a6 == b6 && a7 > b7 ==> pa > pb,
{
    assert(a0 > b0 ==> pa > pb) by (bit_vector)
        requires
            pa == ((a0 as u64) << 56u64) | ((a1 as u64) << 48u64) | ((a2 as u64) << 40u64) | ((a3 as u64) << 32u64)
            | ((a4 as u64) << 24u64) | ((a5 as u64) << 16u64) | ((a6 as u64) << 8u64) | (a7 as u64),
            pb == ((b0 as u64) << 56u64) | ((b1 as u64) << 48u64) | ((b2 as u64) << 40u64) | ((b3 as u64) << 32u64)
            | ((b4 as u64) << 24u64) | ((b5 as u64) << 16u64) | ((b6 as u64) << 8u64) | (b7 as u64),
    ;
    assert(a0 == b0 && a1 > b1 ==> pa > pb) by (bit_vector)
        requires
            pa == ((a0 as u64) << 56u64) | ((a1 as u64) << 48u64) | ((a2 as u64) << 40u64) | ((a3 as u64) << 32u64)
            | ((a4 as u64) << 24u64) | ((a5 as u64) << 16u64) | ((a6 as u64) << 8u64) | (a7 as u64),
            pb == ((b0 as u64) << 56u64) | ((b1 as u64) << 48u64) | ((b2 as u64) << 40u64) | ((b3 as u64) << 32u64)
            | ((b4 as u64) << 24u64) | ((b5 as u64) << 16u64) | ((b6 as u64) << 8u64) | (b7 as u64),
    ;
    assert(a0 == b0 && a1 == b1 && a2 > b2 ==> pa > pb) by (bit_vector)
        requires
            pa == ((a0 as u64) << 56u64) | ((a1 as u64) << 48u64) | ((a2 as u64) << 40u64) | ((a3 as u64) << 32u64)
            | ((a4 as u64) << 24u64) | ((a5 as u64) << 16u64) | ((a6 as u64) << 8u64) | (a7 as u64),
            pb == ((b0 as u64) << 56u64) | ((b1 as u64) << 48u64) | ((b2 as u64) << 40u64) | ((b3 as u64) << 32u64)
            | ((b4 as u64) << 24u64) | ((b5 as u64) << 16u64) | ((b6 as u64) << 8u64) | (b7 as u64),
    ;
    assert(a0 == b0 && a1 == b1 && a2 == b2 && a3 > b3 ==> pa > pb) by (bit_vector)
        requires
            pa == ((a0 as u64) << 56u64) | ((a1 as u64) << 48u64) | ((a2 as u64) << 40u64) | ((a3 as u64) << 32u64)
            | ((a4 as u64) << 24u64) | ((a5 as u64) << 16u64) | ((a6 as u64) << 8u64) | (a7 as u64),
            pb == ((b0 as u64) << 56u64) | ((b1 as u64) << 48u64) | ((b2 as u64) << 40u64) | ((b3 as u64) << 32u64)
            | ((b4 as u64) << 24u64) | ((b5 as u64) << 16u64) | ((b6 as u64) << 8u64) | (b7 as u64),
    ;
    assert(a0 == b0 && a1 == b1 && a2 == b2 && a3 == b3 && a4 > b4 ==> pa > pb) by (bit_vector)
        requires
            pa == ((a0 as u64) << 56u64) | ((a1 as u64) << 48u64) | ((a2 as u64) << 40u64) | ((a3 as u64) << 32u64)
            | ((a4 as u64) << 24u64) | ((a5 as u64) << 16u64) | ((a6 as u64) << 8u64) | (a7 as u64),
            pb == ((b0 as u64) << 56u64) | ((b1 as u64) << 48u64) | ((b2 as u64) << 40u64) | ((b3 as u64) << 32u64)
            | ((b4 as u64) << 24u64) | ((b5 as u64) << 16u64) | ((b6 as u64) << 8u64) | (b7 as u64),
    ;
    assert(a0 == b0 && a1 == b1 && a2 == b2 && a3 == b3 && a4 == b4 && a5 > b5 ==> pa > pb) by (bit_vector)
        requires
            pa == ((a0 as u64) << 56u64) | ((a1 as u64) << 48u64) | ((a2 as u64) << 40u64) | ((a3 as u64) << 32u64)
            | ((a4 as u64) << 24u64) | ((a5 as u64) << 16u64) | ((a6 as u64) << 8u64) | (a7 as u64),
            pb == ((b0 as u64) << 56u64) | ((b1 as u64) << 48u64) | ((b2 as u64) << 40u64) | ((b3 as u64) << 32u64)
            | ((b4 as u64) << 24u64) | ((b5 as u64) << 16u64) | ((b6 as u64) << 8u64) | (b7 as u64),
    ;
    assert(a0 == b0 && a1 == b1 && a2 == b2 && a3 == b3 && a4 == b4 && a5 == b5 && a6 > b6 ==> pa > pb) by (bit_vector)
        requires
            pa == ((a0 as u64) << 56u64) | ((a1 as u64) << 48u64) | ((a2 as u64) << 40u64) | ((a3 as u64) << 32u64)
            | ((a4 as u64) << 24u64) | ((a5 as u64) << 16u64) | ((a6 as u64) << 8u64) | (a7 as u64),
            pb == ((b0 as u64) << 56u64) | ((b1 as u64) << 48u64) | ((b2 as u64) << 40u64) | ((b3 as u64) << 32u64)
            | ((b4 as u64) << 24u64) | ((b5 as u64) << 16u64) | ((b6 as u64) << 8u64) | (b7 as u64),
    ;
    assert(a0 == b0 && a1 == b1 && a2 == b2 && a3 == b3 && a4 == b4 && a5 == b5 && a6 == b6 && a7 > b7 ==> pa > pb) by (bit_vector)
        requires
            pa == ((a0 as u64) << 56u64) | ((a1 as u64) << 48u64) | ((a2 as u64) << 40u64) | ((a3 as u64) << 32u64)
            | ((a4 as u64) << 24u64) | ((a5 as u64) << 16u64) | ((a6 as u64) << 8u64) | (a7 as u64),
            pb == ((b0 as u64) << 56u64) | ((b1 as u64) << 48u64) | ((b2 as u64) << 40u64) | ((b3 as u64) << 32u64)
            | ((b4 as u64) << 24u64) | ((b5 as u64) << 16u64) | ((b6 as u64) << 8u64) | (b7 as u64),
    ;
}

proof fn lemma_pack8_eq_bits(
    a0: u8, a1: u8, a2: u8, a3: u8, a4: u8, a5: u8, a6: u8, a7: u8,
    b0: u8, b1: u8, b2: u8, b3: u8, b4: u8, b5: u8, b6: u8, b7: u8,
    pa: u64, pb: u64,
)
    requires
        pa == ((a0 as u64) << 56u64) | ((a1 as u64) << 48u64) | ((a2 as u64) << 40u64) | ((a3 as u64) << 32u64)
            | ((a4 as u64) << 24u64) | ((a5 as u64) << 16u64) | ((a6 as u64) << 8u64) | (a7 as u64),
        pb == ((b0 as u64) << 56u64) | ((b1 as u64) << 48u64) | ((b2 as u64) << 40u64) | ((b3 as u64) << 32u64)
            | ((b4 as u64) << 24u64) | ((b5 as u64) << 16u64) | ((b6 as u64) << 8u64) | (b7 as u64),
        pa == pb,
    ensures
        a0 == b0 && a1 == b1 && a2 == b2 && a3 == b3 && a4 == b4 && a5 == b5 && a6 == b6 && a7
            == b7,
{
    assert(a0 == b0 && a1 == b1 && a2 == b2 && a3 == b3 && a4 == b4 && a5 == b5 && a6 == b6
        && a7 == b7) by (bit_vector)
        requires
            pa == ((a0 as u64) << 56u64) | ((a1 as u64) << 48u64) | ((a2 as u64) << 40u64) | ((a3 as u64) << 32u64)
            | ((a4 as u64) << 24u64) | ((a5 as u64) << 16u64) | ((a6 as u64) << 8u64) | (a7 as u64),
            pb == ((b0 as u64) << 56u64) | ((b1 as u64) << 48u64) | ((b2 as u64) << 40u64) | ((b3 as u64) << 32u64)
            | ((b4 as u64) << 24u64) | ((b5 as u64) << 16u64) | ((b6 as u64) << 8u64) | (b7 as u64),
            pa == pb,
    ;
}

/// Equal cached prefixes hold equal zero-padded bytes.
pub proof fn lemma_prefix_eq(a: Seq<u8>, b: Seq<u8>, off: int)
    requires
        prefix64(a, off) == prefix64(b, off),
    ensures
        forall|j: int| off <= j < off + 8 ==> pad(a, j) == pad(b, j),
{
    lemma_pack8_eq_bits(
        pad(a, off), pad(a, off + 1), pad(a, off + 2), pad(a, off + 3),
        pad(a, off + 4), pad(a, off + 5), pad(a, off + 6), pad(a, off + 7),
        pad(b, off), pad(b, off + 1), pad(b, off + 2), pad(b, off + 3),
        pad(b, off + 4), pad(b, off + 5), pad(b, off + 6), pad(b, off + 7),
        prefix64(a, off), prefix64(b, off),
    );
}

/// Comparing cached prefixes as integers compares the keys, once the bytes
/// before the cache are known to agree.
pub proof fn lemma_prefix_lt(a: Seq<u8>, b: Seq<u8>, off: int)
    requires
        0 <= off,
        agree_upto(a, b, off),
        prefix64(a, off) < prefix64(b, off),
    ensures
        key_lt(a, b),
{
    lemma_prefix_lt_from(a, b, off, off);
}

proof fn lemma_prefix_lt_from(a: Seq<u8>, b: Seq<u8>, off: int, m: int)
    requires
        0 <= off <= m <= off + 7,
        agree_upto(a, b, off),
        prefix64(a, off) < prefix64(b, off),
        forall|j: int| off <= j < m ==> pad(a, j) == pad(b, j),
    ensures
        key_lt(a, b),
    decreases off + 7 - m,
{
    if pad(a, m) == pad(b, m) && m < off + 7 {
        lemma_prefix_lt_from(a, b, off, m + 1);
    } else {
        lemma_pack8_gt_bits(
            pad(a, off), pad(a, off + 1), pad(a, off + 2), pad(a, off + 3),
            pad(a, off + 4), pad(a, off + 5), pad(a, off + 6), pad(a, off + 7),
            pad(b, off), pad(b, off + 1), pad(b, off + 2), pad(b, off + 3),
            pad(b, off + 4), pad(b, off + 5), pad(b, off + 6), pad(b, off + 7),
            prefix64(a, off), prefix64(b, off),
        );
        if pad(a, m) == pad(b, m) {
            assert(prefix64(a, off) == prefix64(b, off));
        }
        assert(pad(a, m) < pad(b, m));
        lemma_first_pad_diff(a, b, off, m);
    }
}

/// Shifting a packed integer left by whole bytes moves each byte up, with
/// zeros coming in at the low end.
pub proof fn lemma_shift_cache_byte(c: u64, s: int, i: int)
    requires
        0 <= s < 8,
        0 <= i < 8,
    ensures
        cache_byte(c << (8 * s) as u64, i) == (if i + s < 8 {
            cache_byte(c, i + s)
        } else {
            0u8
        }),
{
    let su = s as u64;
    let iu = i as u64;
    assert(((c << (8 * su) as u64) >> (56 - 8 * iu) as u64) & 0xffu64 == (if iu + su < 8 {
        (c >> (56 - 8 * (iu + su)) as u64) & 0xffu64
    } else {
        0u64
    })) by (bit_vector)
        requires
            su < 8,
            iu < 8,
    ;
    assert((8 * s) as u64 == 8 * su);
    assert((56 - 8 * i) as u64 == 56 - 8 * iu);
    if i + s < 8 {
        assert((56 - 8 * (i + s)) as u64 == 56 - 8 * (iu + su));
    }
}

/// The top byte of a packed integer is its first byte.
pub proof fn lemma_top_byte(c: u64)
    ensures
        (c >> 56u64) as int == cache_byte(c, 0) as int,
{
    assert((c >> 56u64) & 0xffu64 == c >> 56u64) by (bit_vector);
    assert(c >> 56u64 < 256u64) by (bit_vector);
}

/// Zero-padded byte `j` of `bytes`, or zero where `offset + j` is past the end.
fn byte_or_zero(bytes: &[u8], offset: usize, j: usize) -> (r: u8)
    requires
        offset < bytes@.len(),
    ensures
        r == pad(bytes@, offset + j),
{
    if j < bytes.len() - offset {
        bytes[offset + j]
    } else {
        0
    }
}

/// The eight bytes of `bytes` from `offset` on as a big-endian integer, zero
/// past the end; zero when `offset` is at or past the end.
pub fn load_u64_be(bytes: &[u8], offset: usize) -> (r: u64)
    ensures
        r == prefix64(bytes@, offset as int),
{
    if offset >= bytes.len() {
        let z: u8 = 0;
        assert(((z as u64) << 56u64) | ((z as u64) << 48u64) | ((z as u64) << 40u64) | ((z as u64)
            << 32u64) | ((z as u64) << 24u64) | ((z as u64) << 16u64) | ((z as u64) << 8u64) | (
        z as u64) == 0u64) by (bit_vector)
            requires
                z == 0,
        ;
        return 0;
    }
    let b0 = byte_or_zero(bytes, offset, 0);
    let b1 = byte_or_zero(bytes, offset, 1);
    let b2 = byte_or_zero(bytes, offset, 2);
    let b3 = byte_or_zero(bytes, offset, 3);
    let b4 = byte_or_zero(bytes, offset, 4);
    let b5 = byte_or_zero(bytes, offset, 5);
    let b6 = byte_or_zero(bytes, offset, 6);
    let b7 = byte_or_zero(bytes, offset, 7);
    ((b0 as u64) << 56u64) | ((b1 as u64) << 48u64) | ((b2 as u64) << 40u64) | ((b3 as u64)
        << 32u64) | ((b4 as u64) << 24u64) | ((b5 as u64) << 16u64) | ((b6 as u64) << 8u64) | (
    b7 as u64)
}

} // verus!

//! Bit-level reasoning for the backing words of the flag lists.
//!
//! Each width gets a `bit_*` reader and one bit-vector lemma per storage
//! operation, relating the rebuilt word to the old word bit by bit.  The
//! well-formedness of a word `w` holding `len` flags is the compact
//! statement `w >> len == 0`: every bit at position `len` or above is clear.
use vstd::prelude::*;

verus! {

/// Bit `i` of the word `w`, with bit 0 the least significant.
pub open spec fn bit_u32(w: u32, i: u32) -> bool {
    (w >> i) & 1u32 == 1u32
}

/// Shifting one left by an in-range amount yields a positive word, at
/// every storage width.
pub proof fn lemma_one_shl()
    by (bit_vector)
    ensures
        forall|p: u32| p < 32 ==> #[trigger] (1u32 << p) >= 1,
        forall|p: u64| p < 64 ==> #[trigger] (1u64 << p) >= 1,
        forall|p: u128| p < 128 ==> #[trigger] (1u128 << p) >= 1,
        forall|p: usize|
            p < usize::BITS ==> #[trigger] (1usize << p) >= 1 && (1usize << p) <= !0usize,
{
}

/// The zero word has no bits anywhere: it is clear above any length, at
/// every storage width.
pub proof fn lemma_zero_word()
    by (bit_vector)
    ensures
        forall|n: u32| #[trigger] (0u32 >> n) == 0,
        forall|n: u64| #[trigger] (0u64 >> n) == 0,
        forall|n: u128| #[trigger] (0u128 >> n) == 0,
        forall|n: usize| #[trigger] (0usize >> n) == 0,
        forall|w: usize| #[trigger] (w >> (usize::BITS as usize)) == 0,
        forall|i: usize| #[trigger] bit_usize(0usize, i) == false,
{
}

/// The compact clear-above-length form bounds every individual high bit.
pub proof fn lemma_above_len_u32(w: u32, len: u32)
    by (bit_vector)
    requires
        len <= 32,
        w >> len == 0,
    ensures
        forall|i: u32| len <= i < 32 ==> !bit_u32(w, i),
{
}

/// Bit-level effect of the insertion rebuild: the bits below `idx` keep
/// their place, `flag` lands at `idx`, the bits from `idx` up move one
/// position higher, and the bits above the new length stay clear.
pub proof fn lemma_insert_u32(w: u32, nw: u32, low: u32, high: u32, idx: u32, len: u32, flag: bool)
    by (bit_vector)
    requires
        idx <= len,
        len < 32,
        w >> len == 0,
        low == (1u32 << idx) - 1,
        high == u32::MAX - (1u32 << idx) + 1,
        nw == (((w & high) << 1u32) | ((if flag {
            1u32
        } else {
            0u32
        }) << idx)) | (w & low),
    ensures
        forall|i: u32| i < idx ==> bit_u32(nw, i) == bit_u32(w, i),
        bit_u32(nw, idx) == flag,
        forall|i: u32| idx < i <= len ==> bit_u32(nw, i) == bit_u32(w, (i - 1) as u32),
        nw >> ((len + 1) as u32) == 0,
{
}

/// Bit-level effect of the removal rebuild: the bits below `idx` keep
/// their place, the bits above `idx` move one position lower, and the
/// bits above the new length stay clear.
pub proof fn lemma_remove_u32(w: u32, nw: u32, low: u32, high: u32, idx: u32, len: u32)
    by (bit_vector)
    requires
        idx < len,
        len <= 32,
        w >> len == 0,
        low == (1u32 << idx) - 1,
        idx == 31 ==> high == 0u32,
        idx < 31 ==> high == (u32::MAX - (1u32 << ((idx + 1) as u32)) + 1) as u32,
        nw == ((w & high) >> 1u32) | (w & low),
    ensures
        forall|i: u32| i < idx ==> bit_u32(nw, i) == bit_u32(w, i),
        forall|i: u32| idx <= i < len - 1 ==> bit_u32(nw, i) == bit_u32(w, (i + 1) as u32),
        nw >> ((len - 1) as u32) == 0,
{
}

/// Bit-level effect of overwriting the bit at `idx` in place.
pub proof fn lemma_set_u32(w: u32, nw: u32, low: u32, high: u32, idx: u32, len: u32, flag: bool)
    by (bit_vector)
    requires
        idx < len,
        len <= 32,
        w >> len == 0,
        low == (1u32 << idx) - 1,
        idx == 31 ==> high == 0u32,
        idx < 31 ==> high == (u32::MAX - (1u32 << ((idx + 1) as u32)) + 1) as u32,
        nw == ((w & high) | ((if flag {
            1u32
        } else {
            0u32
        }) << idx)) | (w & low),
    ensures
        forall|i: u32| i < 32 && i != idx ==> bit_u32(nw, i) == bit_u32(w, i),
        bit_u32(nw, idx) == flag,
        nw >> len == 0,
{
}

/// Masking a word down to its lowest `n` bits keeps those bits, clears
/// the rest, and leaves a word already clear above `n` unchanged.
pub proof fn lemma_mask_u32(w: u32, nw: u32, low: u32, n: u32, len: u32)
    by (bit_vector)
    requires
        n <= 32,
        n == 32 ==> low == u32::MAX,
        n < 32 ==> low == (1u32 << n) - 1,
        nw == w & low,
    ensures
        forall|i: u32| i < n ==> bit_u32(nw, i) == bit_u32(w, i),
        nw >> n == 0,
        len <= n <= 32 && w >> len == 0 ==> nw == w,
{
}

/// Pointwise reading of the bitwise combinations of two words, and
/// preservation of the clear-above-length bound.
pub proof fn lemma_bitwise_u32(a: u32, b: u32, la: u32, lb: u32)
    by (bit_vector)
    requires
        la <= 32,
        lb <= 32,
        a >> la == 0,
        b >> lb == 0,
    ensures
        forall|i: u32| i < 32 ==> bit_u32(a & b, i) == (bit_u32(a, i) && bit_u32(b, i)),
        forall|i: u32| i < 32 ==> bit_u32(a | b, i) == (bit_u32(a, i) || bit_u32(b, i)),
        forall|i: u32| i < 32 ==> bit_u32(a ^ b, i) == (bit_u32(a, i) != bit_u32(b, i)),
        forall|i: u32| i < 32 ==> bit_u32(a & !b, i) == (bit_u32(a, i) && !bit_u32(b, i)),
        (a & b) >> la == 0,
        (a & b) >> lb == 0,
        (a & !b) >> la == 0,
        la >= lb ==> (a | b) >> la == 0 && (a ^ b) >> la == 0,
        lb >= la ==> (a | b) >> lb == 0 && (a ^ b) >> lb == 0,
{
}

/// Complementing a word below a mask of `len` bits flips exactly the
/// bits under the mask and clears everything above it.
pub proof fn lemma_not_u32(w: u32, nw: u32, low: u32, len: u32)
    by (bit_vector)
    requires
        len <= 32,
        len == 32 ==> low == u32::MAX,
        len < 32 ==> low == (1u32 << len) - 1,
        nw == (!w) & low,
    ensures
        forall|i: u32| i < len ==> bit_u32(nw, i) == !bit_u32(w, i),
        nw >> len == 0,
{
}

/// Bit-level effect of shifting a whole word up by `n` positions.
pub proof fn lemma_shl_u32(w: u32, nw: u32, n: u32, len: u32)
    by (bit_vector)
    requires
        n < 32,
        len <= 32,
        w >> len == 0,
        nw == w << n,
    ensures
        forall|i: u32| n <= i < 32 ==> bit_u32(nw, i) == bit_u32(w, (i - n) as u32),
        forall|i: u32| i < n ==> !bit_u32(nw, i),
        len + n < 32 ==> nw >> ((len + n) as u32) == 0,
        nw >> 32u32 == 0,
{
}

/// Bit-level effect of shifting a whole word down by `n` positions.
pub proof fn lemma_shr_u32(w: u32, nw: u32, n: u32, len: u32)
    by (bit_vector)
    requires
        n < 32,
        len <= 32,
        w >> len == 0,
        nw == w >> n,
    ensures
        forall|i: u32| i < 32 && i + n < 32 ==> bit_u32(nw, i) == bit_u32(w, (i + n) as u32),
        forall|i: u32| i < 32 && i + n >= 32 ==> !bit_u32(nw, i),
        len > n ==> nw >> ((len - n) as u32) == 0,
        len <= n ==> nw == 0,
{
}


/// Bit `i` of the word `w`, with bit 0 the least significant.
pub open spec fn bit_u64(w: u64, i: u64) -> bool {
    (w >> i) & 1u64 == 1u64
}

/// The compact clear-above-length form bounds every individual high bit.
pub proof fn lemma_above_len_u64(w: u64, len: u64)
    by (bit_vector)
    requires
        len <= 64,
        w >> len == 0,
    ensures
        forall|i: u64| len <= i < 64 ==> !bit_u64(w, i),
{
}

/// Bit-level effect of the insertion rebuild: the bits below `idx` keep
/// their place, `flag` lands at `idx`, the bits from `idx` up move one
/// position higher, and the bits above the new length stay clear.
pub proof fn lemma_insert_u64(w: u64, nw: u64, low: u64, high: u64, idx: u64, len: u64, flag: bool)
    by (bit_vector)
    requires
        idx <= len,
        len < 64,
        w >> len == 0,
        low == (1u64 << idx) - 1,
        high == u64::MAX - (1u64 << idx) + 1,
        nw == (((w & high) << 1u64) | ((if flag {
            1u64
        } else {
            0u64
        }) << idx)) | (w & low),
    ensures
        forall|i: u64| i < idx ==> bit_u64(nw, i) == bit_u64(w, i),
        bit_u64(nw, idx) == flag,
        forall|i: u64| idx < i <= len ==> bit_u64(nw, i) == bit_u64(w, (i - 1) as u64),
        nw >> ((len + 1) as u64) == 0,
{
}

/// Bit-level effect of the removal rebuild: the bits below `idx` keep
/// their place, the bits above `idx` move one position lower, and the
/// bits above the new length stay clear.
pub proof fn lemma_remove_u64(w: u64, nw: u64, low: u64, high: u64, idx: u64, len: u64)
    by (bit_vector)
    requires
        idx < len,
        len <= 64,
        w >> len == 0,
        low == (1u64 << idx) - 1,
        idx == 63 ==> high == 0u64,
        idx < 63 ==> high == (u64::MAX - (1u64 << ((idx + 1) as u64)) + 1) as u64,
        nw == ((w & high) >> 1u64) | (w & low),
    ensures
        forall|i: u64| i < idx ==> bit_u64(nw, i) == bit_u64(w, i),
        forall|i: u64| idx <= i < len - 1 ==> bit_u64(nw, i) == bit_u64(w, (i + 1) as u64),
        nw >> ((len - 1) as u64) == 0,
{
}

/// Bit-level effect of overwriting the bit at `idx` in place.
pub proof fn lemma_set_u64(w: u64, nw: u64, low: u64, high: u64, idx: u64, len: u64, flag: bool)
    by (bit_vector)
    requires
        idx < len,
        len <= 64,
        w >> len == 0,
        low == (1u64 << idx) - 1,
        idx == 63 ==> high == 0u64,
        idx < 63 ==> high == (u64::MAX - (1u64 << ((idx + 1) as u64)) + 1) as u64,
        nw == ((w & high) | ((if flag {
            1u64
        } else {
            0u64
        }) << idx)) | (w & low),
    ensures
        forall|i: u64| i < 64 && i != idx ==> bit_u64(nw, i) == bit_u64(w, i),
        bit_u64(nw, idx) == flag,
        nw >> len == 0,
{
}

/// Masking a word down to its lowest `n` bits keeps those bits, clears
/// the rest, and leaves a word already clear above `n` unchanged.
pub proof fn lemma_mask_u64(w: u64, nw: u64, low: u64, n: u64, len: u64)
    by (bit_vector)
    requires
        n <= 64,
        n == 64 ==> low == u64::MAX,
        n < 64 ==> low == (1u64 << n) - 1,
        nw == w & low,
    ensures
        forall|i: u64| i < n ==> bit_u64(nw, i) == bit_u64(w, i),
        nw >> n == 0,
        len <= n <= 64 && w >> len == 0 ==> nw == w,
{
}

/// Pointwise reading of the bitwise combinations of two words, and
/// preservation of the clear-above-length bound.
pub proof fn lemma_bitwise_u64(a: u64, b: u64, la: u64, lb: u64)
    by (bit_vector)
    requires
        la <= 64,
        lb <= 64,
        a >> la == 0,
        b >> lb == 0,
    ensures
        forall|i: u64| i < 64 ==> bit_u64(a & b, i) == (bit_u64(a, i) && bit_u64(b, i)),
        forall|i: u64| i < 64 ==> bit_u64(a | b, i) == (bit_u64(a, i) || bit_u64(b, i)),
        forall|i: u64| i < 64 ==> bit_u64(a ^ b, i) == (bit_u64(a, i) != bit_u64(b, i)),
        forall|i: u64| i < 64 ==> bit_u64(a & !b, i) == (bit_u64(a, i) && !bit_u64(b, i)),
        (a & b) >> la == 0,
        (a & b) >> lb == 0,
        (a & !b) >> la == 0,
        la >= lb ==> (a | b) >> la == 0 && (a ^ b) >> la == 0,
        lb >= la ==> (a | b) >> lb == 0 && (a ^ b) >> lb == 0,
{
}

/// Complementing a word below a mask of `len` bits flips exactly the
/// bits under the mask and clears everything above it.
pub proof fn lemma_not_u64(w: u64, nw: u64, low: u64, len: u64)
    by (bit_vector)
    requires
        len <= 64,
        len == 64 ==> low == u64::MAX,
        len < 64 ==> low == (1u64 << len) - 1,
        nw == (!w) & low,
    ensures
        forall|i: u64| i < len ==> bit_u64(nw, i) == !bit_u64(w, i),
        nw >> len == 0,
{
}

/// Bit-level effect of shifting a whole word up by `n` positions.
pub proof fn lemma_shl_u64(w: u64, nw: u64, n: u64, len: u64)
    by (bit_vector)
    requires
        n < 64,
        len <= 64,
        w >> len == 0,
        nw == w << n,
    ensures
        forall|i: u64| n <= i < 64 ==> bit_u64(nw, i) == bit_u64(w, (i - n) as u64),
        forall|i: u64| i < n ==> !bit_u64(nw, i),
        len + n < 64 ==> nw >> ((len + n) as u64) == 0,
        nw >> 64u64 == 0,
{
}

/// Bit-level effect of shifting a whole word down by `n` positions.
pub proof fn lemma_shr_u64(w: u64, nw: u64, n: u64, len: u64)
    by (bit_vector)
    requires
        n < 64,
        len <= 64,
        w >> len == 0,
        nw == w >> n,
    ensures
        forall|i: u64| i < 64 && i + n < 64 ==> bit_u64(nw, i) == bit_u64(w, (i + n) as u64),
        forall|i: u64| i < 64 && i + n >= 64 ==> !bit_u64(nw, i),
        len > n ==> nw >> ((len - n) as u64) == 0,
        len <= n ==> nw == 0,
{
}


/// Bit `i` of the word `w`, with bit 0 the least significant.
pub open spec fn bit_u128(w: u128, i: u128) -> bool {
    (w >> i) & 1u128 == 1u128
}

/// The compact clear-above-length form bounds every individual high bit.
#[verifier::rlimit(100)]
pub proof fn lemma_above_len_u128(w: u128, len: u128)
    by (bit_vector)
    requires
        len <= 128,
        w >> len == 0,
    ensures
        forall|i: u128| len <= i < 128 ==> !bit_u128(w, i),
{
}

/// Bit-level effect of the insertion rebuild: the bits below `idx` keep
/// their place, `flag` lands at `idx`, the bits from `idx` up move one
/// position higher, and the bits above the new length stay clear.
#[verifier::rlimit(100)]
pub proof fn lemma_insert_u128(w: u128, nw: u128, low: u128, high: u128, idx: u128, len: u128, flag: bool)
    by (bit_vector)
    requires
        idx <= len,
        len < 128,
        w >> len == 0,
        low == (1u128 << idx) - 1,
        high == u128::MAX - (1u128 << idx) + 1,
        nw == (((w & high) << 1u128) | ((if flag {
            1u128
        } else {
            0u128
        }) << idx)) | (w & low),
    ensures
        forall|i: u128| i < idx ==> bit_u128(nw, i) == bit_u128(w, i),
        bit_u128(nw, idx) == flag,
        forall|i: u128| idx < i <= len ==> bit_u128(nw, i) == bit_u128(w, (i - 1) as u128),
        nw >> ((len + 1) as u128) == 0,
{
}

/// Bit-level effect of the removal rebuild: the bits below `idx` keep
/// their place, the bits above `idx` move one position lower, and the
/// bits above the new length stay clear.
#[verifier::rlimit(100)]
pub proof fn lemma_remove_u128(w: u128, nw: u128, low: u128, high: u128, idx: u128, len: u128)
    by (bit_vector)
    requires
        idx < len,
        len <= 128,
        w >> len == 0,
        low == (1u128 << idx) - 1,
        idx == 127 ==> high == 0u128,
        idx < 127 ==> high == (u128::MAX - (1u128 << ((idx + 1) as u128)) + 1) as u128,
        nw == ((w & high) >> 1u128) | (w & low),
    ensures
        forall|i: u128| i < idx ==> bit_u128(nw, i) == bit_u128(w, i),
        forall|i: u128| idx <= i < len - 1 ==> bit_u128(nw, i) == bit_u128(w, (i + 1) as u128),
        nw >> ((len - 1) as u128) == 0,
{
}

/// Bit-level effect of overwriting the bit at `idx` in place.
#[verifier::rlimit(100)]
pub proof fn lemma_set_u128(w: u128, nw: u128, low: u128, high: u128, idx: u128, len: u128, flag: bool)
    by (bit_vector)
    requires
        idx < len,
        len <= 128,
        w >> len == 0,
        low == (1u128 << idx) - 1,
        idx == 127 ==> high == 0u128,
        idx < 127 ==> high == (u128::MAX - (1u128 << ((idx + 1) as u128)) + 1) as u128,
        nw == ((w & high) | ((if flag {
            1u128
        } else {
            0u128
        }) << idx)) | (w & low),
    ensures
        forall|i: u128| i < 128 && i != idx ==> bit_u128(nw, i) == bit_u128(w, i),
        bit_u128(nw, idx) == flag,
        nw >> len == 0,
{
}

/// Masking a word down to its lowest `n` bits keeps those bits, clears
/// the rest, and leaves a word already clear above `n` unchanged.
#[verifier::rlimit(100)]
pub proof fn lemma_mask_u128(w: u128, nw: u128, low: u128, n: u128, len: u128)
    by (bit_vector)
    requires
        n <= 128,
        n == 128 ==> low == u128::MAX,
        n < 128 ==> low == (1u128 << n) - 1,
        nw == w & low,
    ensures
        forall|i: u128| i < n ==> bit_u128(nw, i) == bit_u128(w, i),
        nw >> n == 0,
        len <= n <= 128 && w >> len == 0 ==> nw == w,
{
}

/// Pointwise reading of the bitwise combinations of two words, and
/// preservation of the clear-above-length bound.
#[verifier::rlimit(100)]
pub proof fn lemma_bitwise_u128(a: u128, b: u128, la: u128, lb: u128)
    by (bit_vector)
    requires
        la <= 128,
        lb <= 128,
        a >> la == 0,
        b >> lb == 0,
    ensures
        forall|i: u128| i < 128 ==> bit_u128(a & b, i) == (bit_u128(a, i) && bit_u128(b, i)),
        forall|i: u128| i < 128 ==> bit_u128(a | b, i) == (bit_u128(a, i) || bit_u128(b, i)),
        forall|i: u128| i < 128 ==> bit_u128(a ^ b, i) == (bit_u128(a, i) != bit_u128(b, i)),
        forall|i: u128| i < 128 ==> bit_u128(a & !b, i) == (bit_u128(a, i) && !bit_u128(b, i)),
        (a & b) >> la == 0,
        (a & b) >> lb == 0,
        (a & !b) >> la == 0,
        la >= lb ==> (a | b) >> la == 0 && (a ^ b) >> la == 0,
        lb >= la ==> (a | b) >> lb == 0 && (a ^ b) >> lb == 0,
{
}

/// Complementing a word below a mask of `len` bits flips exactly the
/// bits under the mask and clears everything above it.
#[verifier::rlimit(100)]
pub proof fn lemma_not_u128(w: u128, nw: u128, low: u128, len: u128)
    by (bit_vector)
    requires
        len <= 128,
        len == 128 ==> low == u128::MAX,
        len < 128 ==> low == (1u128 << len) - 1,
        nw == (!w) & low,
    ensures
        forall|i: u128| i < len ==> bit_u128(nw, i) == !bit_u128(w, i),
        nw >> len == 0,
{
}

/// Bit-level effect of shifting a whole word up by `n` positions.
#[verifier::rlimit(100)]
pub proof fn lemma_shl_u128(w: u128, nw: u128, n: u128, len: u128)
    by (bit_vector)
    requires
        n < 128,
        len <= 128,
        w >> len == 0,
        nw == w << n,
    ensures
        forall|i: u128| n <= i < 128 ==> bit_u128(nw, i) == bit_u128(w, (i - n) as u128),
        forall|i: u128| i < n ==> !bit_u128(nw, i),
        len + n < 128 ==> nw >> ((len + n) as u128) == 0,
        nw >> 128u128 == 0,
{
}

/// Bit-level effect of shifting a whole word down by `n` positions.
#[verifier::rlimit(100)]
pub proof fn lemma_shr_u128(w: u128, nw: u128, n: u128, len: u128)
    by (bit_vector)
    requires
        n < 128,
        len <= 128,
        w >> len == 0,
        nw == w >> n,
    ensures
        forall|i: u128| i < 128 && i + n < 128 ==> bit_u128(nw, i) == bit_u128(w, (i + n) as u128),
        forall|i: u128| i < 128 && i + n >= 128 ==> !bit_u128(nw, i),
        len > n ==> nw >> ((len - n) as u128) == 0,
        len <= n ==> nw == 0,
{
}


/// Bit `i` of the word `w`, with bit 0 the least significant.
pub open spec fn bit_usize(w: usize, i: usize) -> bool {
    (w >> i) & 1usize == 1usize
}

/// The compact clear-above-length form bounds every individual high bit.
pub proof fn lemma_above_len_usize(w: usize, len: usize)
    by (bit_vector)
    requires
        len <= usize::BITS,
        w >> len == 0,
    ensures
        forall|i: usize| len <= i < usize::BITS ==> !bit_usize(w, i),
{
}

/// Bit-level effect of the insertion rebuild: the bits below `idx` keep
/// their place, `flag` lands at `idx`, the bits from `idx` up move one
/// position higher, and the bits above the new length stay clear.
pub proof fn lemma_insert_usize(w: usize, nw: usize, low: usize, high: usize, idx: usize, len: usize, flag: bool)
    by (bit_vector)
    requires
        idx <= len,
        len < usize::BITS,
        w >> len == 0,
        low == (1usize << idx) - 1,
        high == !0usize - (1usize << idx) + 1,
        nw == (((w & high) << 1usize) | ((if flag {
            1usize
        } else {
            0usize
        }) << idx)) | (w & low),
    ensures
        forall|i: usize| i < idx ==> bit_usize(nw, i) == bit_usize(w, i),
        bit_usize(nw, idx) == flag,
        forall|i: usize| idx < i <= len ==> bit_usize(nw, i) == bit_usize(w, (i - 1) as usize),
        nw >> ((len + 1) as usize) == 0,
{
}

/// Bit-level effect of the removal rebuild: the bits below `idx` keep
/// their place, the bits above `idx` move one position lower, and the
/// bits above the new length stay clear.
pub proof fn lemma_remove_usize(w: usize, nw: usize, low: usize, high: usize, idx: usize, len: usize)
    by (bit_vector)
    requires
        idx < len,
        len <= usize::BITS,
        w >> len == 0,
        low == (1usize << idx) - 1,
        idx == usize::BITS - 1 ==> high == 0usize,
        idx < usize::BITS - 1 ==> high == (!0usize - (1usize << ((idx + 1) as usize)) + 1) as usize,
        nw == ((w & high) >> 1usize) | (w & low),
    ensures
        forall|i: usize| i < idx ==> bit_usize(nw, i) == bit_usize(w, i),
        forall|i: usize| idx <= i < len - 1 ==> bit_usize(nw, i) == bit_usize(w, (i + 1) as usize),
        nw >> ((len - 1) as usize) == 0,
{
}

/// Bit-level effect of overwriting the bit at `idx` in place.
pub proof fn lemma_set_usize(w: usize, nw: usize, low: usize, high: usize, idx: usize, len: usize, flag: bool)
    by (bit_vector)
    requires
        idx < len,
        len <= usize::BITS,
        w >> len == 0,
        low == (1usize << idx) - 1,
        idx == usize::BITS - 1 ==> high == 0usize,
        idx < usize::BITS - 1 ==> high == (!0usize - (1usize << ((idx + 1) as usize)) + 1) as usize,
        nw == ((w & high) | ((if flag {
            1usize
        } else {
            0usize
        }) << idx)) | (w & low),
    ensures
        forall|i: usize| i < usize::BITS && i != idx ==> bit_usize(nw, i) == bit_usize(w, i),
        bit_usize(nw, idx) == flag,
        nw >> len == 0,
{
}

/// Masking a word down to its lowest `n` bits keeps those bits, clears
/// the rest, and leaves a word already clear above `n` unchanged.
pub proof fn lemma_mask_usize(w: usize, nw: usize, low: usize, n: usize, len: usize)
    by (bit_vector)
    requires
        n <= usize::BITS,
        n == usize::BITS ==> low == !0usize,
        n < usize::BITS ==> low == (1usize << n) - 1,
        nw == w & low,
    ensures
        forall|i: usize| i < n ==> bit_usize(nw, i) == bit_usize(w, i),
        nw >> n == 0,
        len <= n <= usize::BITS && w >> len == 0 ==> nw == w,
{
}

/// Pointwise reading of the bitwise combinations of two words, and
/// preservation of the clear-above-length bound.
pub proof fn lemma_bitwise_usize(a: usize, b: usize, la: usize, lb: usize)
    by (bit_vector)
    requires
        la <= usize::BITS,
        lb <= usize::BITS,
        a >> la == 0,
        b >> lb == 0,
    ensures
        forall|i: usize| i < usize::BITS ==> bit_usize(a & b, i) == (bit_usize(a, i) && bit_usize(b, i)),
        forall|i: usize| i < usize::BITS ==> bit_usize(a | b, i) == (bit_usize(a, i) || bit_usize(b, i)),
        forall|i: usize| i < usize::BITS ==> bit_usize(a ^ b, i) == (bit_usize(a, i) != bit_usize(b, i)),
        forall|i: usize| i < usize::BITS ==> bit_usize(a & !b, i) == (bit_usize(a, i) && !bit_usize(b, i)),
        (a & b) >> la == 0,
        (a & b) >> lb == 0,
        (a & !b) >> la == 0,
        la >= lb ==> (a | b) >> la == 0 && (a ^ b) >> la == 0,
        lb >= la ==> (a | b) >> lb == 0 && (a ^ b) >> lb == 0,
{
}

/// Complementing a word below a mask of `len` bits flips exactly the
/// bits under the mask and clears everything above it.
pub proof fn lemma_not_usize(w: usize, nw: usize, low: usize, len: usize)
    by (bit_vector)
    requires
        len <= usize::BITS,
        len == usize::BITS ==> low == !0usize,
        len < usize::BITS ==> low == (1usize << len) - 1,
        nw == (!w) & low,
    ensures
        forall|i: usize| i < len ==> bit_usize(nw, i) == !bit_usize(w, i),
        nw >> len == 0,
{
}

/// Bit-level effect of shifting a whole word up by `n` positions.
pub proof fn lemma_shl_usize(w: usize, nw: usize, n: usize, len: usize)
    by (bit_vector)
    requires
        n < usize::BITS,
        len <= usize::BITS,
        w >> len == 0,
        nw == w << n,
    ensures
        forall|i: usize| n <= i < usize::BITS ==> bit_usize(nw, i) == bit_usize(w, (i - n) as usize),
        forall|i: usize| i < n ==> !bit_usize(nw, i),
        len + n < usize::BITS ==> nw >> ((len + n) as usize) == 0,
        nw >> (usize::BITS as usize) == 0,
{
}

/// Bit-level effect of shifting a whole word down by `n` positions.
pub proof fn lemma_shr_usize(w: usize, nw: usize, n: usize, len: usize)
    by (bit_vector)
    requires
        n < usize::BITS,
        len <= usize::BITS,
        w >> len == 0,
        nw == w >> n,
    ensures
        forall|i: usize| i < usize::BITS && i + n < usize::BITS ==> bit_usize(nw, i) == bit_usize(w, (i + n) as usize),
        forall|i: usize| i < usize::BITS && i + n >= usize::BITS ==> !bit_usize(nw, i),
        len > n ==> nw >> ((len - n) as usize) == 0,
        len <= n ==> nw == 0,
{
}

/// Splitting a word at offset `m` during a multi-word insertion: the
/// bits below `m` stay, `flag` lands at `m`, the bits from `m` up move
/// one position higher, and the caller reads the displaced top bit
/// beforehand.
pub proof fn lemma_word_insert_usize(
    w: usize,
    nw: usize,
    low: usize,
    high: usize,
    m: usize,
    wl: usize,
    flag: bool,
)
    by (bit_vector)
    requires
        m < usize::BITS,
        m <= wl <= usize::BITS,
        w >> wl == 0,
        low == (1usize << m) - 1,
        high == (!0usize - (1usize << m) + 1) as usize,
        nw == (((w & high) << 1usize) | ((if flag {
            1usize
        } else {
            0usize
        }) << m)) | (w & low),
    ensures
        forall|i: usize| i < m ==> bit_usize(nw, i) == bit_usize(w, i),
        bit_usize(nw, m) == flag,
        forall|i: usize|
            m < i < usize::BITS ==> bit_usize(nw, i) == bit_usize(w, (i - 1) as usize),
        wl < usize::BITS ==> nw >> ((wl + 1) as usize) == 0,
{
}

/// Shifting a whole word one position up and feeding a carry into its
/// lowest bit; the caller reads the displaced top bit beforehand.
pub proof fn lemma_word_shl1_usize(w: usize, nw: usize, c: usize, wl: usize)
    by (bit_vector)
    requires
        c <= 1,
        wl <= usize::BITS,
        w >> wl == 0,
        nw == (w << 1usize) | c,
    ensures
        bit_usize(nw, 0) == (c == 1),
        forall|i: usize|
            0 < i < usize::BITS ==> bit_usize(nw, i) == bit_usize(w, (i - 1) as usize),
        wl < usize::BITS ==> nw >> ((wl + 1) as usize) == 0,
{
}

/// Splicing the bit at offset `m` out of a word during a multi-word
/// removal: the bits below `m` stay, the bits above move one position
/// lower, and the borrow `c` becomes the new top bit.
pub proof fn lemma_word_remove_usize(
    w: usize,
    nw: usize,
    low: usize,
    high: usize,
    m: usize,
    wl: usize,
    c: usize,
)
    by (bit_vector)
    requires
        m < usize::BITS,
        m < wl <= usize::BITS,
        w >> wl == 0,
        c <= 1,
        low == (1usize << m) - 1,
        m == usize::BITS - 1 ==> high == 0usize,
        m < usize::BITS - 1 ==> high == (!0usize - (1usize << ((m + 1) as usize)) + 1) as usize,
        nw == (((w & high) >> 1usize) | (w & low)) | (c << ((usize::BITS - 1) as usize)),
    ensures
        forall|i: usize| i < m ==> bit_usize(nw, i) == bit_usize(w, i),
        forall|i: usize|
            m <= i < usize::BITS - 1 ==> bit_usize(nw, i) == bit_usize(w, (i + 1) as usize),
        bit_usize(nw, (usize::BITS - 1) as usize) == (c == 1),
        c == 0 ==> nw >> ((wl - 1) as usize) == 0,
{
}

/// Shifting a whole word one position down and feeding a borrow into
/// its top bit; the caller reads the displaced lowest bit beforehand.
pub proof fn lemma_word_shr1_usize(w: usize, nw: usize, c: usize, wl: usize)
    by (bit_vector)
    requires
        c <= 1,
        wl <= usize::BITS,
        w >> wl == 0,
        nw == (w >> 1usize) | (c << ((usize::BITS - 1) as usize)),
    ensures
        forall|i: usize|
            i < usize::BITS - 1 ==> bit_usize(nw, i) == bit_usize(w, (i + 1) as usize),
        bit_usize(nw, (usize::BITS - 1) as usize) == (c == 1),
        c == 0 && wl >= 1 ==> nw >> ((wl - 1) as usize) == 0,
{
}

/// The edge bits of a word, each read as a zero-or-one word, and the
/// bits of such a zero-or-one word itself.
pub proof fn lemma_word_edges_usize(w: usize)
    by (bit_vector)
    ensures
        w & 1usize <= 1,
        (w & 1usize == 1) == bit_usize(w, 0),
        w >> ((usize::BITS - 1) as usize) <= 1,
        (w >> ((usize::BITS - 1) as usize) == 1) == bit_usize(w, (usize::BITS - 1) as usize),
        w <= 1 ==> w >> 1usize == 0,
        w <= 1 ==> (bit_usize(w, 0) == (w == 1)),
{
}

} // verus!

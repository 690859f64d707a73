//! Laws every flag list obeys, stated over the flag sequences the
//! operation contracts speak of.
use vstd::prelude::*;

use crate::bits::lemma_mask_u128;
use crate::bits::lemma_mask_u32;
use crate::bits::lemma_mask_u64;
use crate::bits::lemma_mask_usize;
use crate::flagls::and_flags;
use crate::flagls::longer_len;
use crate::flagls::or_flags;
use crate::flagls::xor_flags;

verus! {

/// Inserting a flag at a valid index and then removing the flag at the
/// same index restores the original flag sequence exactly.
pub proof fn lemma_insert_remove_round_trip(s: Seq<bool>, i: int, f: bool)
    requires
        0 <= i <= s.len(),
    ensures
        s.insert(i, f).remove(i) == s,
{
    s.insert_ensures(i, f);
    s.insert(i, f).remove_ensures(i);
    assert forall|j: int| 0 <= j < s.len() implies s.insert(i, f).remove(i)[j] == s[j] by {
        if j >= i {
            assert(s.insert(i, f)[j + 1] == s[j]);
        }
    }
    assert(s.insert(i, f).remove(i) =~= s);
}

/// Appending a flag and then removing the last flag yields back the
/// appended flag and restores the original flag sequence and length.
pub proof fn lemma_push_pop_round_trip(s: Seq<bool>, f: bool)
    ensures
        s.push(f).len() == s.len() + 1,
        s.push(f).last() == f,
        s.push(f).drop_last() == s,
{
    assert(s.push(f).drop_last() =~= s);
}

/// The bitwise conjunction, disjunction and symmetric difference are
/// each commutative, and each result is as long as the longer operand.
pub proof fn lemma_bitwise_commutative(a: Seq<bool>, b: Seq<bool>)
    ensures
        and_flags(a, b) == and_flags(b, a),
        or_flags(a, b) == or_flags(b, a),
        xor_flags(a, b) == xor_flags(b, a),
        and_flags(a, b).len() == longer_len(a, b),
        or_flags(a, b).len() == longer_len(a, b),
        xor_flags(a, b).len() == longer_len(a, b),
{
    assert(and_flags(a, b) =~= and_flags(b, a));
    assert(or_flags(a, b) =~= or_flags(b, a));
    assert(xor_flags(a, b) =~= xor_flags(b, a));
}

/// Conjunction with an all-false list of the same length clears every
/// flag, and disjunction with an all-true list of the same length sets
/// every flag.
pub proof fn lemma_bitwise_identities(a: Seq<bool>)
    ensures
        and_flags(a, Seq::new(a.len(), |i: int| false)) == Seq::new(a.len(), |i: int| false),
        or_flags(a, Seq::new(a.len(), |i: int| true)) == Seq::new(a.len(), |i: int| true),
{
    assert(and_flags(a, Seq::new(a.len(), |i: int| false)) =~= Seq::new(
        a.len(),
        |i: int| false,
    ));
    assert(or_flags(a, Seq::new(a.len(), |i: int| true)) =~= Seq::new(a.len(), |i: int| true));
}

/// Masking a 32-bit backing word down to the list's length changes
/// nothing: a well-formed list keeps no live bits above its length.
pub proof fn lemma_storage_masked_u32(w: u32, low: u32, len: u32)
    requires
        len <= 32,
        w >> len == 0,
        len == 32 ==> low == u32::MAX,
        len < 32 ==> low == (1u32 << len) - 1,
    ensures
        w & low == w,
{
    lemma_mask_u32(w, w & low, low, len, len);
}

/// Masking a 64-bit backing word down to the list's length changes
/// nothing: a well-formed list keeps no live bits above its length.
pub proof fn lemma_storage_masked_u64(w: u64, low: u64, len: u64)
    requires
        len <= 64,
        w >> len == 0,
        len == 64 ==> low == u64::MAX,
        len < 64 ==> low == (1u64 << len) - 1,
    ensures
        w & low == w,
{
    lemma_mask_u64(w, w & low, low, len, len);
}

/// Masking a 128-bit backing word down to the list's length changes
/// nothing: a well-formed list keeps no live bits above its length.
pub proof fn lemma_storage_masked_u128(w: u128, low: u128, len: u128)
    requires
        len <= 128,
        w >> len == 0,
        len == 128 ==> low == u128::MAX,
        len < 128 ==> low == (1u128 << len) - 1,
    ensures
        w & low == w,
{
    lemma_mask_u128(w, w & low, low, len, len);
}

/// Masking a pointer-sized backing word down to the list's length
/// changes nothing: a well-formed list keeps no live bits above its
/// length.
pub proof fn lemma_storage_masked_usize(w: usize, low: usize, len: usize)
    requires
        len <= usize::BITS,
        w >> len == 0,
        len == usize::BITS ==> low == !0usize,
        len < usize::BITS ==> low == (1usize << len) - 1,
    ensures
        w & low == w,
{
    lemma_mask_usize(w, w & low, low, len, len);
}

} // verus!

//! A list of up to 32 flags packed into one `u32`.
use vstd::prelude::*;

use crate::FlagLsError;
use crate::bit128::B128;
use crate::bit64::B64;
use crate::bitlong::Blong;
use crate::bits::bit_u32;
use crate::bits::lemma_above_len_u32;
use crate::bits::lemma_bitwise_u32;
use crate::bits::lemma_insert_u32;
use crate::bits::lemma_mask_u32;
use crate::bits::lemma_not_u32;
use crate::bits::lemma_remove_u32;
use crate::bits::lemma_set_u32;
use crate::bits::lemma_shl_u32;
use crate::bits::lemma_shr_u32;
use crate::bitsize::Bsize;
use crate::flag_iter::Iter;
use crate::flagls::FlagLs;
use crate::flagls::and_flags;
use crate::flagls::convert;
use crate::flagls::diff_flags;
use crate::flagls::not_flags;
use crate::flagls::or_flags;
use crate::flagls::shl_flags;
use crate::flagls::shr_flags;
use crate::flagls::xor_flags;

verus! {

/// A list of up to 32 flags, or a 32-bit bitfield.
///
/// Bit `i` of the backing word holds flag `i`, with bit 0 the least
/// significant; every bit at or above the tracked length stays clear.
#[derive(PartialEq, Eq, Clone, Copy, Debug, Hash)]
pub struct B32 {
    inner: u32,
    len: usize,
}

impl View for B32 {
    type V = Seq<bool>;

    closed spec fn view(&self) -> Seq<bool> {
        Seq::new(self.len as nat, |i: int| bit_u32(self.inner, i as u32))
    }
}

impl Default for B32 {
    /// Creates an empty list.
    fn default() -> (r: Self)
        ensures
            r.inv(),
            r@ == Seq::<bool>::empty(),
    {
        proof {
            crate::bits::lemma_zero_word();
        }
        B32 { inner: 0, len: 0 }
    }
}

impl B32 {
    /// The mask of the bits strictly below `point`.
    fn lower_mask(point: usize) -> (r: u32)
        requires
            point <= 32,
        ensures
            point == 32 ==> r == u32::MAX,
            point < 32 ==> r as int == (1u32 << (point as u32)) - 1,
    {
        if point == 32 {
            u32::MAX
        } else {
            proof {
                crate::bits::lemma_one_shl();
            }
            (1u32 << (point as u32)) - 1
        }
    }

    /// The mask of the bits at or above `point`.
    fn uper_mask(point: usize) -> (r: u32)
        requires
            point <= 32,
        ensures
            point == 32 ==> r == 0u32,
            point < 32 ==> r as int == u32::MAX - (1u32 << (point as u32)) + 1,
    {
        if point == 32 {
            0
        } else {
            proof {
                crate::bits::lemma_one_shl();
            }
            u32::MAX - (1u32 << (point as u32)) + 1
        }
    }

    /// Converts the list into its backing word, consuming it.
    ///
    /// Bit `i` of the result holds flag `i`; the bits at or above the
    /// length are clear.
    pub fn as_inner(self) -> (r: u32)
        requires
            self.inv(),
        ensures
            forall|i: u32| i < self@.len() ==> bit_u32(r, i) == self@[i as int],
            r >> (self@.len() as u32) == 0,
    {
        self.inner
    }

    /// Creates a list from a backing word and a length.
    ///
    /// The length is capped at the maximum, and the word is masked down
    /// to that many bits.
    pub fn initialize(inner: u32, len: usize) -> (r: Self)
        ensures
            r.inv(),
            r@ == Seq::new((if len < 32 {
                len
            } else {
                32
            }) as nat, |i: int| bit_u32(inner, i as u32)),
    {
        let l: usize = if len < 32 {
            len
        } else {
            32
        };
        let low = Self::lower_mask(l);
        let nw = inner & low;
        proof {
            lemma_mask_u32(inner, nw, low, l as u32, l as u32);
        }
        let r = B32 { inner: nw, len: l };
        proof {
            assert(r@ =~= Seq::new(l as nat, |i: int| bit_u32(inner, i as u32)));
        }
        r
    }

    /// An iterator over the flags, front to back.
    pub fn iter<'a>(&'a self) -> (r: Iter<'a, Self>)
        requires
            self.inv(),
        ensures
            r.wf(),
            r.list() == self@,
            r.pos() == 0,
            r.end() == self@.len(),
    {
        Iter::new(self)
    }

    /// The bitwise conjunction of two lists; the result has the longer
    /// of the two lengths.
    pub fn bitand(self, rhs: Self) -> (r: Self)
        requires
            self.inv(),
            rhs.inv(),
        ensures
            r.inv(),
            r@ == and_flags(self@, rhs@),
    {
        let a = self.inner;
        let b = rhs.inner;
        let len: usize = if self.len >= rhs.len {
            self.len
        } else {
            rhs.len
        };
        let nw = a & b;
        proof {
            lemma_bitwise_u32(a, b, self.len as u32, rhs.len as u32);
            lemma_above_len_u32(a, self.len as u32);
            lemma_above_len_u32(b, rhs.len as u32);
        }
        let r = B32 { inner: nw, len };
        proof {
            assert forall|i: int| 0 <= i < r@.len() implies r@[i] == and_flags(self@, rhs@)[i] by {
                assert(bit_u32(nw, i as u32) == (bit_u32(a, i as u32) && bit_u32(b, i as u32)));
                if i >= self.len {
                    assert(!bit_u32(a, i as u32));
                }
                if i >= rhs.len {
                    assert(!bit_u32(b, i as u32));
                }
            }
            assert(r@ =~= and_flags(self@, rhs@));
        }
        r
    }

    /// Replaces `self` with the bitwise conjunction of `self` and `rhs`.
    pub fn bitand_assign(&mut self, rhs: Self)
        requires
            old(self).inv(),
            rhs.inv(),
        ensures
            final(self).inv(),
            final(self)@ == and_flags(old(self)@, rhs@),
    {
        let s = *self;
        *self = s.bitand(rhs);
    }

    /// The bitwise disjunction of two lists; the result has the longer
    /// of the two lengths.
    pub fn bitor(self, rhs: Self) -> (r: Self)
        requires
            self.inv(),
            rhs.inv(),
        ensures
            r.inv(),
            r@ == or_flags(self@, rhs@),
    {
        let a = self.inner;
        let b = rhs.inner;
        let len: usize = if self.len >= rhs.len {
            self.len
        } else {
            rhs.len
        };
        let nw = a | b;
        proof {
            lemma_bitwise_u32(a, b, self.len as u32, rhs.len as u32);
            lemma_above_len_u32(a, self.len as u32);
            lemma_above_len_u32(b, rhs.len as u32);
        }
        let r = B32 { inner: nw, len };
        proof {
            assert forall|i: int| 0 <= i < r@.len() implies r@[i] == or_flags(self@, rhs@)[i] by {
                assert(bit_u32(nw, i as u32) == (bit_u32(a, i as u32) || bit_u32(b, i as u32)));
                if i >= self.len {
                    assert(!bit_u32(a, i as u32));
                }
                if i >= rhs.len {
                    assert(!bit_u32(b, i as u32));
                }
            }
            assert(r@ =~= or_flags(self@, rhs@));
        }
        r
    }

    /// Replaces `self` with the bitwise disjunction of `self` and `rhs`.
    pub fn bitor_assign(&mut self, rhs: Self)
        requires
            old(self).inv(),
            rhs.inv(),
        ensures
            final(self).inv(),
            final(self)@ == or_flags(old(self)@, rhs@),
    {
        let s = *self;
        *self = s.bitor(rhs);
    }

    /// The bitwise symmetric difference of two lists; the result has the
    /// longer of the two lengths.
    pub fn bitxor(self, rhs: Self) -> (r: Self)
        requires
            self.inv(),
            rhs.inv(),
        ensures
            r.inv(),
            r@ == xor_flags(self@, rhs@),
    {
        let a = self.inner;
        let b = rhs.inner;
        let len: usize = if self.len >= rhs.len {
            self.len
        } else {
            rhs.len
        };
        let nw = a ^ b;
        proof {
            lemma_bitwise_u32(a, b, self.len as u32, rhs.len as u32);
            lemma_above_len_u32(a, self.len as u32);
            lemma_above_len_u32(b, rhs.len as u32);
        }
        let r = B32 { inner: nw, len };
        proof {
            assert forall|i: int| 0 <= i < r@.len() implies r@[i] == xor_flags(self@, rhs@)[i] by {
                assert(bit_u32(nw, i as u32) == (bit_u32(a, i as u32) != bit_u32(b, i as u32)));
                if i >= self.len {
                    assert(!bit_u32(a, i as u32));
                }
                if i >= rhs.len {
                    assert(!bit_u32(b, i as u32));
                }
            }
            assert(r@ =~= xor_flags(self@, rhs@));
        }
        r
    }

    /// Replaces `self` with the bitwise symmetric difference of `self`
    /// and `rhs`.
    pub fn bitxor_assign(&mut self, rhs: Self)
        requires
            old(self).inv(),
            rhs.inv(),
        ensures
            final(self).inv(),
            final(self)@ == xor_flags(old(self)@, rhs@),
    {
        let s = *self;
        *self = s.bitxor(rhs);
    }

    /// Shifts every flag `rhs` positions higher, filling the bottom with
    /// false flags; the length grows by `rhs`, capped at the maximum.
    pub fn shl(self, rhs: usize) -> (r: Self)
        requires
            self.inv(),
            rhs < 32,
        ensures
            r.inv(),
            r@ == shl_flags(self@, rhs as nat, 32),
    {
        let nw = self.inner << (rhs as u32);
        let len: usize = if self.len + rhs <= 32 {
            self.len + rhs
        } else {
            32
        };
        proof {
            lemma_shl_u32(self.inner, nw, rhs as u32, self.len as u32);
        }
        let r = B32 { inner: nw, len };
        proof {
            assert forall|i: int| 0 <= i < r@.len() implies r@[i] == shl_flags(self@, rhs as nat, 32)[i] by {
                if i >= rhs as int {
                    assert(bit_u32(nw, i as u32) == bit_u32(self.inner, (i - rhs) as u32));
                } else {
                    assert(!bit_u32(nw, i as u32));
                }
            }
            assert(r@ =~= shl_flags(self@, rhs as nat, 32));
        }
        r
    }

    /// Shifts every flag of `self` `rhs` positions higher in place.
    pub fn shl_assign(&mut self, rhs: usize)
        requires
            old(self).inv(),
            rhs < 32,
        ensures
            final(self).inv(),
            final(self)@ == shl_flags(old(self)@, rhs as nat, 32),
    {
        let s = *self;
        *self = s.shl(rhs);
    }

    /// Shifts every flag `rhs` positions lower, dropping the bottom
    /// `rhs` flags; the length shrinks by `rhs`, stopping at zero.
    pub fn shr(self, rhs: usize) -> (r: Self)
        requires
            self.inv(),
            rhs < 32,
        ensures
            r.inv(),
            r@ == shr_flags(self@, rhs as nat),
    {
        let nw = self.inner >> (rhs as u32);
        let len: usize = if self.len > rhs {
            self.len - rhs
        } else {
            0
        };
        proof {
            lemma_shr_u32(self.inner, nw, rhs as u32, self.len as u32);
            crate::bits::lemma_zero_word();
        }
        let r = B32 { inner: nw, len };
        proof {
            assert forall|i: int| 0 <= i < r@.len() implies r@[i] == shr_flags(self@, rhs as nat)[i] by {
                assert(bit_u32(nw, i as u32) == bit_u32(self.inner, (i + rhs) as u32));
            }
            assert(r@ =~= shr_flags(self@, rhs as nat));
        }
        r
    }

    /// Shifts every flag of `self` `rhs` positions lower in place.
    pub fn shr_assign(&mut self, rhs: usize)
        requires
            old(self).inv(),
            rhs < 32,
        ensures
            final(self).inv(),
            final(self)@ == shr_flags(old(self)@, rhs as nat),
    {
        let s = *self;
        *self = s.shr(rhs);
    }

    /// Complements every flag of the list; the length is unchanged.
    pub fn not(self) -> (r: Self)
        requires
            self.inv(),
        ensures
            r.inv(),
            r@ == not_flags(self@),
    {
        let low = Self::lower_mask(self.len);
        let nw = (!self.inner) & low;
        proof {
            lemma_not_u32(self.inner, nw, low, self.len as u32);
        }
        let r = B32 { inner: nw, len: self.len };
        proof {
            assert forall|i: int| 0 <= i < r@.len() implies r@[i] == not_flags(self@)[i] by {
                assert(bit_u32(nw, i as u32) == !bit_u32(self.inner, i as u32));
            }
            assert(r@ =~= not_flags(self@));
        }
        r
    }

    /// The set difference: the flags of `self` with the flags of `rhs`
    /// switched off; the length stays that of `self`.
    pub fn sub(self, rhs: Self) -> (r: Self)
        requires
            self.inv(),
            rhs.inv(),
        ensures
            r.inv(),
            r@ == diff_flags(self@, rhs@),
    {
        let a = self.inner;
        let b = rhs.inner;
        let nw = a & !b;
        proof {
            lemma_bitwise_u32(a, b, self.len as u32, rhs.len as u32);
            lemma_above_len_u32(b, rhs.len as u32);
        }
        let r = B32 { inner: nw, len: self.len };
        proof {
            assert forall|i: int| 0 <= i < r@.len() implies r@[i] == diff_flags(self@, rhs@)[i] by {
                assert(bit_u32(nw, i as u32) == (bit_u32(a, i as u32) && !bit_u32(b, i as u32)));
                if i >= rhs.len {
                    assert(!bit_u32(b, i as u32));
                }
            }
            assert(r@ =~= diff_flags(self@, rhs@));
        }
        r
    }

    /// Rebuilds a `B64` in this variant, failing exactly when the
    /// source holds more flags than this variant's capacity.
    pub fn try_from_b64(value: B64) -> (r: Result<Self, FlagLsError>)
        requires
            value.inv(),
        ensures
            value@.len() <= Self::spec_max_length() ==> r is Ok,
            r matches Ok(d) ==> d.inv() && d@ == value@,
            value@.len() > Self::spec_max_length() ==> r == Err::<Self, FlagLsError>(
                FlagLsError::MaximumLengthExceeded {
                    mx_len: Self::spec_max_length(),
                    attempt_len: value@.len() as usize,
                },
            ),
    {
        convert::<B64, Self>(&value)
    }

    /// Rebuilds a `B128` in this variant, failing exactly when the
    /// source holds more flags than this variant's capacity.
    pub fn try_from_b128(value: B128) -> (r: Result<Self, FlagLsError>)
        requires
            value.inv(),
        ensures
            value@.len() <= Self::spec_max_length() ==> r is Ok,
            r matches Ok(d) ==> d.inv() && d@ == value@,
            value@.len() > Self::spec_max_length() ==> r == Err::<Self, FlagLsError>(
                FlagLsError::MaximumLengthExceeded {
                    mx_len: Self::spec_max_length(),
                    attempt_len: value@.len() as usize,
                },
            ),
    {
        convert::<B128, Self>(&value)
    }

    /// Rebuilds a `Bsize` in this variant, failing exactly when the
    /// source holds more flags than this variant's capacity.
    pub fn try_from_bsize(value: Bsize) -> (r: Result<Self, FlagLsError>)
        requires
            value.inv(),
        ensures
            value@.len() <= Self::spec_max_length() ==> r is Ok,
            r matches Ok(d) ==> d.inv() && d@ == value@,
            value@.len() > Self::spec_max_length() ==> r == Err::<Self, FlagLsError>(
                FlagLsError::MaximumLengthExceeded {
                    mx_len: Self::spec_max_length(),
                    attempt_len: value@.len() as usize,
                },
            ),
    {
        convert::<Bsize, Self>(&value)
    }

    /// Rebuilds a `Blong` in this variant, failing exactly when the
    /// source holds more flags than this variant's capacity.
    pub fn try_from_blong(value: Blong) -> (r: Result<Self, FlagLsError>)
        requires
            value.inv(),
        ensures
            value@.len() <= Self::spec_max_length() ==> r is Ok,
            r matches Ok(d) ==> d.inv() && d@ == value@,
            value@.len() > Self::spec_max_length() ==> r == Err::<Self, FlagLsError>(
                FlagLsError::MaximumLengthExceeded {
                    mx_len: Self::spec_max_length(),
                    attempt_len: value@.len() as usize,
                },
            ),
    {
        convert::<Blong, Self>(&value)
    }
}

impl FlagLs for B32 {
    closed spec fn inv(&self) -> bool {
        self.len <= 32 && self.inner >> (self.len as u32) == 0
    }

    open spec fn spec_max_length() -> usize {
        32
    }

    proof fn lemma_len_bounded(&self) {
    }

    fn max_length() -> (r: usize) {
        32
    }

    fn new() -> (r: Self) {
        proof {
            crate::bits::lemma_zero_word();
        }
        B32 { inner: 0, len: 0 }
    }

    fn len(&self) -> (r: usize) {
        self.len
    }

    fn set_len(&mut self, new_len: usize) {
        let w = self.inner;
        let low = Self::lower_mask(new_len);
        let nw = w & low;
        proof {
            lemma_mask_u32(w, nw, low, new_len as u32, self.len as u32);
            lemma_above_len_u32(w, self.len as u32);
        }
        self.inner = nw;
        self.len = new_len;
        proof {
            if new_len <= old(self)@.len() {
                assert(self@ =~= old(self)@.take(new_len as int));
            } else {
                assert(self@ =~= old(self)@ + Seq::new(
                    (new_len - old(self)@.len()) as nat,
                    |i: int| false,
                ));
            }
        }
    }

    fn insert(&mut self, index: usize, flag: bool) {
        let w = self.inner;
        let low = Self::lower_mask(index);
        let high = Self::uper_mask(index);
        let fbit: u32 = if flag {
            1
        } else {
            0
        };
        let nw = (((w & high) << 1u32) | (fbit << (index as u32))) | (w & low);
        proof {
            lemma_insert_u32(w, nw, low, high, index as u32, self.len as u32, flag);
        }
        self.inner = nw;
        self.len = self.len + 1;
        proof {
            let s = old(self)@;
            s.insert_ensures(index as int, flag);
            assert forall|i: int| 0 <= i < self@.len() implies self@[i] == s.insert(
                index as int,
                flag,
            )[i] by {
                if i < index as int {
                    assert(bit_u32(nw, i as u32) == bit_u32(w, i as u32));
                } else if i > index as int {
                    assert(bit_u32(nw, i as u32) == bit_u32(w, (i - 1) as u32));
                    assert(s.insert(index as int, flag)[(i - 1) + 1] == s[i - 1]);
                }
            }
            assert(self@ =~= s.insert(index as int, flag));
        }
    }

    fn remove(&mut self, index: usize) -> (r: bool) {
        let w = self.inner;
        let low = Self::lower_mask(index);
        let high = Self::uper_mask(index + 1);
        let nw = ((w & high) >> 1u32) | (w & low);
        let out = ((w >> (index as u32)) & 1u32) == 1u32;
        proof {
            lemma_remove_u32(w, nw, low, high, index as u32, self.len as u32);
        }
        self.inner = nw;
        self.len = self.len - 1;
        proof {
            let s = old(self)@;
            s.remove_ensures(index as int);
            assert forall|i: int| 0 <= i < self@.len() implies self@[i] == s.remove(
                index as int,
            )[i] by {
                if i < index as int {
                    assert(bit_u32(nw, i as u32) == bit_u32(w, i as u32));
                } else {
                    assert(bit_u32(nw, i as u32) == bit_u32(w, (i + 1) as u32));
                }
            }
            assert(self@ =~= s.remove(index as int));
        }
        out
    }

    fn clear(&mut self) {
        self.inner = 0;
        self.len = 0;
        proof {
            crate::bits::lemma_zero_word();
            assert(self@ =~= Seq::<bool>::empty());
        }
    }

    fn get(&self, index: usize) -> (r: Option<bool>) {
        if index < self.len {
            Some(((self.inner >> (index as u32)) & 1u32) == 1u32)
        } else {
            None
        }
    }

    fn index(&self, index: usize) -> (r: bool) {
        ((self.inner >> (index as u32)) & 1u32) == 1u32
    }

    fn set(&mut self, index: usize, flag: bool) {
        let w = self.inner;
        let low = Self::lower_mask(index);
        let high = Self::uper_mask(index + 1);
        let fbit: u32 = if flag {
            1
        } else {
            0
        };
        let nw = ((w & high) | (fbit << (index as u32))) | (w & low);
        proof {
            lemma_set_u32(w, nw, low, high, index as u32, self.len as u32, flag);
        }
        self.inner = nw;
        proof {
            assert(self@ =~= old(self)@.update(index as int, flag));
        }
    }

}

} // verus!

//! A list of flags packed into one pointer-sized word.
use vstd::prelude::*;

use crate::FlagLsError;
use crate::bit128::B128;
use crate::bit32::B32;
use crate::bit64::B64;
use crate::bitlong::Blong;
use crate::bits::bit_usize;
use crate::bits::lemma_above_len_usize;
use crate::bits::lemma_bitwise_usize;
use crate::bits::lemma_insert_usize;
use crate::bits::lemma_mask_usize;
use crate::bits::lemma_not_usize;
use crate::bits::lemma_remove_usize;
use crate::bits::lemma_set_usize;
use crate::bits::lemma_shl_usize;
use crate::bits::lemma_shr_usize;
use crate::flag_iter::Iter;
use crate::flagls::FlagLs;
use crate::flagls::and_flags;
use crate::flagls::convert;
use crate::flagls::diff_flags;
use crate::flagls::not_flags;
use crate::flagls::or_flags;
use crate::flagls::shl_flags;
use crate::flagls::shr_flags;
use crate::flagls::xor_flags;

verus! {

/// A list of up to pointer-width many flags, or a pointer-sized bitfield.
///
/// Bit `i` of the backing word holds flag `i`, with bit 0 the least
/// significant; every bit at or above the tracked length stays clear.
#[derive(PartialEq, Eq, Clone, Copy, Debug, Hash)]
pub struct Bsize {
    inner: usize,
    len: usize,
}

impl View for Bsize {
    type V = Seq<bool>;

    closed spec fn view(&self) -> Seq<bool> {
        Seq::new(self.len as nat, |i: int| bit_usize(self.inner, i as usize))
    }
}

impl Default for Bsize {
    /// Creates an empty list.
    fn default() -> (r: Self)
        ensures
            r.inv(),
            r@ == Seq::<bool>::empty(),
    {
        proof {
            crate::bits::lemma_zero_word();
        }
        Bsize { inner: 0, len: 0 }
    }
}

impl Bsize {
    /// The mask of the bits strictly below `point`.
    fn lower_mask(point: usize) -> (r: usize)
        requires
            point <= (usize::BITS as usize),
        ensures
            point == (usize::BITS as usize) ==> r == !0usize,
            point < (usize::BITS as usize) ==> r as int == (1usize << point) - 1,
    {
        if point == (usize::BITS as usize) {
            !0usize
        } else {
            proof {
                crate::bits::lemma_one_shl();
            }
            (1usize << point) - 1
        }
    }

    /// The mask of the bits at or above `point`.
    fn uper_mask(point: usize) -> (r: usize)
        requires
            point <= (usize::BITS as usize),
        ensures
            point == (usize::BITS as usize) ==> r == 0usize,
            point < (usize::BITS as usize) ==> r as int == !0usize - (1usize << point) + 1,
    {
        if point == (usize::BITS as usize) {
            0
        } else {
            proof {
                crate::bits::lemma_one_shl();
            }
            !0usize - (1usize << point) + 1
        }
    }

    /// Converts the list into its backing word, consuming it.
    ///
    /// Bit `i` of the result holds flag `i`; the bits at or above the
    /// length are clear.
    pub fn as_inner(self) -> (r: usize)
        requires
            self.inv(),
        ensures
            forall|i: usize| i < self@.len() ==> bit_usize(r, i) == self@[i as int],
            r >> (self@.len() as usize) == 0,
    {
        self.inner
    }

    /// Creates a list from a backing word and a length.
    ///
    /// The length is capped at the maximum, and the word is masked down
    /// to that many bits.
    pub fn initialize(inner: usize, len: usize) -> (r: Self)
        ensures
            r.inv(),
            r@ == Seq::new((if len < (usize::BITS as usize) {
                len
            } else {
                (usize::BITS as usize)
            }) as nat, |i: int| bit_usize(inner, i as usize)),
    {
        let l: usize = if len < (usize::BITS as usize) {
            len
        } else {
            (usize::BITS as usize)
        };
        let low = Self::lower_mask(l);
        let nw = inner & low;
        proof {
            lemma_mask_usize(inner, nw, low, l as usize, l as usize);
        }
        let r = Bsize { inner: nw, len: l };
        proof {
            assert(r@ =~= Seq::new(l as nat, |i: int| bit_usize(inner, i as usize)));
        }
        r
    }

    /// An iterator over the flags, front to back.
    pub fn iter<'a>(&'a self) -> (r: Iter<'a, Self>)
        requires
            self.inv(),
        ensures
            r.wf(),
            r.list() == self@,
            r.pos() == 0,
            r.end() == self@.len(),
    {
        Iter::new(self)
    }

    /// The bitwise conjunction of two lists; the result has the longer
    /// of the two lengths.
    pub fn bitand(self, rhs: Self) -> (r: Self)
        requires
            self.inv(),
            rhs.inv(),
        ensures
            r.inv(),
            r@ == and_flags(self@, rhs@),
    {
        let a = self.inner;
        let b = rhs.inner;
        let len: usize = if self.len >= rhs.len {
            self.len
        } else {
            rhs.len
        };
        let nw = a & b;
        proof {
            lemma_bitwise_usize(a, b, self.len as usize, rhs.len as usize);
            lemma_above_len_usize(a, self.len as usize);
            lemma_above_len_usize(b, rhs.len as usize);
        }
        let r = Bsize { inner: nw, len };
        proof {
            assert forall|i: int| 0 <= i < r@.len() implies r@[i] == and_flags(self@, rhs@)[i] by {
                assert(bit_usize(nw, i as usize) == (bit_usize(a, i as usize) && bit_usize(b, i as usize)));
                if i >= self.len {
                    assert(!bit_usize(a, i as usize));
                }
                if i >= rhs.len {
                    assert(!bit_usize(b, i as usize));
                }
            }
            assert(r@ =~= and_flags(self@, rhs@));
        }
        r
    }

    /// Replaces `self` with the bitwise conjunction of `self` and `rhs`.
    pub fn bitand_assign(&mut self, rhs: Self)
        requires
            old(self).inv(),
            rhs.inv(),
        ensures
            final(self).inv(),
            final(self)@ == and_flags(old(self)@, rhs@),
    {
        let s = *self;
        *self = s.bitand(rhs);
    }

    /// The bitwise disjunction of two lists; the result has the longer
    /// of the two lengths.
    pub fn bitor(self, rhs: Self) -> (r: Self)
        requires
            self.inv(),
            rhs.inv(),
        ensures
            r.inv(),
            r@ == or_flags(self@, rhs@),
    {
        let a = self.inner;
        let b = rhs.inner;
        let len: usize = if self.len >= rhs.len {
            self.len
        } else {
            rhs.len
        };
        let nw = a | b;
        proof {
            lemma_bitwise_usize(a, b, self.len as usize, rhs.len as usize);
            lemma_above_len_usize(a, self.len as usize);
            lemma_above_len_usize(b, rhs.len as usize);
        }
        let r = Bsize { inner: nw, len };
        proof {
            assert forall|i: int| 0 <= i < r@.len() implies r@[i] == or_flags(self@, rhs@)[i] by {
                assert(bit_usize(nw, i as usize) == (bit_usize(a, i as usize) || bit_usize(b, i as usize)));
                if i >= self.len {
                    assert(!bit_usize(a, i as usize));
                }
                if i >= rhs.len {
                    assert(!bit_usize(b, i as usize));
                }
            }
            assert(r@ =~= or_flags(self@, rhs@));
        }
        r
    }

    /// Replaces `self` with the bitwise disjunction of `self` and `rhs`.
    pub fn bitor_assign(&mut self, rhs: Self)
        requires
            old(self).inv(),
            rhs.inv(),
        ensures
            final(self).inv(),
            final(self)@ == or_flags(old(self)@, rhs@),
    {
        let s = *self;
        *self = s.bitor(rhs);
    }

    /// The bitwise symmetric difference of two lists; the result has the
    /// longer of the two lengths.
    pub fn bitxor(self, rhs: Self) -> (r: Self)
        requires
            self.inv(),
            rhs.inv(),
        ensures
            r.inv(),
            r@ == xor_flags(self@, rhs@),
    {
        let a = self.inner;
        let b = rhs.inner;
        let len: usize = if self.len >= rhs.len {
            self.len
        } else {
            rhs.len
        };
        let nw = a ^ b;
        proof {
            lemma_bitwise_usize(a, b, self.len as usize, rhs.len as usize);
            lemma_above_len_usize(a, self.len as usize);
            lemma_above_len_usize(b, rhs.len as usize);
        }
        let r = Bsize { inner: nw, len };
        proof {
            assert forall|i: int| 0 <= i < r@.len() implies r@[i] == xor_flags(self@, rhs@)[i] by {
                assert(bit_usize(nw, i as usize) == (bit_usize(a, i as usize) != bit_usize(b, i as usize)));
                if i >= self.len {
                    assert(!bit_usize(a, i as usize));
                }
                if i >= rhs.len {
                    assert(!bit_usize(b, i as usize));
                }
            }
            assert(r@ =~= xor_flags(self@, rhs@));
        }
        r
    }

    /// Replaces `self` with the bitwise symmetric difference of `self`
    /// and `rhs`.
    pub fn bitxor_assign(&mut self, rhs: Self)
        requires
            old(self).inv(),
            rhs.inv(),
        ensures
            final(self).inv(),
            final(self)@ == xor_flags(old(self)@, rhs@),
    {
        let s = *self;
        *self = s.bitxor(rhs);
    }

    /// Shifts every flag `rhs` positions higher, filling the bottom with
    /// false flags; the length grows by `rhs`, capped at the maximum.
    pub fn shl(self, rhs: usize) -> (r: Self)
        requires
            self.inv(),
            rhs < (usize::BITS as usize),
        ensures
            r.inv(),
            r@ == shl_flags(self@, rhs as nat, usize::BITS as nat),
    {
        let nw = self.inner << rhs;
        let len: usize = if self.len + rhs <= (usize::BITS as usize) {
            self.len + rhs
        } else {
            (usize::BITS as usize)
        };
        proof {
            lemma_shl_usize(self.inner, nw, rhs as usize, self.len as usize);
        }
        let r = Bsize { inner: nw, len };
        proof {
            assert forall|i: int| 0 <= i < r@.len() implies r@[i] == shl_flags(self@, rhs as nat, usize::BITS as nat)[i] by {
                if i >= rhs as int {
                    assert(bit_usize(nw, i as usize) == bit_usize(self.inner, (i - rhs) as usize));
                } else {
                    assert(!bit_usize(nw, i as usize));
                }
            }
            assert(r@ =~= shl_flags(self@, rhs as nat, usize::BITS as nat));
        }
        r
    }

    /// Shifts every flag of `self` `rhs` positions higher in place.
    pub fn shl_assign(&mut self, rhs: usize)
        requires
            old(self).inv(),
            rhs < (usize::BITS as usize),
        ensures
            final(self).inv(),
            final(self)@ == shl_flags(old(self)@, rhs as nat, usize::BITS as nat),
    {
        let s = *self;
        *self = s.shl(rhs);
    }

    /// Shifts every flag `rhs` positions lower, dropping the bottom
    /// `rhs` flags; the length shrinks by `rhs`, stopping at zero.
    pub fn shr(self, rhs: usize) -> (r: Self)
        requires
            self.inv(),
            rhs < (usize::BITS as usize),
        ensures
            r.inv(),
            r@ == shr_flags(self@, rhs as nat),
    {
        let nw = self.inner >> rhs;
        let len: usize = if self.len > rhs {
            self.len - rhs
        } else {
            0
        };
        proof {
            lemma_shr_usize(self.inner, nw, rhs as usize, self.len as usize);
            crate::bits::lemma_zero_word();
        }
        let r = Bsize { inner: nw, len };
        proof {
            assert forall|i: int| 0 <= i < r@.len() implies r@[i] == shr_flags(self@, rhs as nat)[i] by {
                assert(bit_usize(nw, i as usize) == bit_usize(self.inner, (i + rhs) as usize));
            }
            assert(r@ =~= shr_flags(self@, rhs as nat));
        }
        r
    }

    /// Shifts every flag of `self` `rhs` positions lower in place.
    pub fn shr_assign(&mut self, rhs: usize)
        requires
            old(self).inv(),
            rhs < (usize::BITS as usize),
        ensures
            final(self).inv(),
            final(self)@ == shr_flags(old(self)@, rhs as nat),
    {
        let s = *self;
        *self = s.shr(rhs);
    }

    /// Complements every flag of the list; the length is unchanged.
    pub fn not(self) -> (r: Self)
        requires
            self.inv(),
        ensures
            r.inv(),
            r@ == not_flags(self@),
    {
        let low = Self::lower_mask(self.len);
        let nw = (!self.inner) & low;
        proof {
            lemma_not_usize(self.inner, nw, low, self.len as usize);
        }
        let r = Bsize { inner: nw, len: self.len };
        proof {
            assert forall|i: int| 0 <= i < r@.len() implies r@[i] == not_flags(self@)[i] by {
                assert(bit_usize(nw, i as usize) == !bit_usize(self.inner, i as usize));
            }
            assert(r@ =~= not_flags(self@));
        }
        r
    }

    /// The set difference: the flags of `self` with the flags of `rhs`
    /// switched off; the length stays that of `self`.
    pub fn sub(self, rhs: Self) -> (r: Self)
        requires
            self.inv(),
            rhs.inv(),
        ensures
            r.inv(),
            r@ == diff_flags(self@, rhs@),
    {
        let a = self.inner;
        let b = rhs.inner;
        let nw = a & !b;
        proof {
            lemma_bitwise_usize(a, b, self.len as usize, rhs.len as usize);
            lemma_above_len_usize(b, rhs.len as usize);
        }
        let r = Bsize { inner: nw, len: self.len };
        proof {
            assert forall|i: int| 0 <= i < r@.len() implies r@[i] == diff_flags(self@, rhs@)[i] by {
                assert(bit_usize(nw, i as usize) == (bit_usize(a, i as usize) && !bit_usize(b, i as usize)));
                if i >= rhs.len {
                    assert(!bit_usize(b, i as usize));
                }
            }
            assert(r@ =~= diff_flags(self@, rhs@));
        }
        r
    }

    /// Rebuilds a `B32` in this variant, failing exactly when the
    /// source holds more flags than this variant's capacity.
    pub fn try_from_b32(value: B32) -> (r: Result<Self, FlagLsError>)
        requires
            value.inv(),
        ensures
            value@.len() <= Self::spec_max_length() ==> r is Ok,
            r matches Ok(d) ==> d.inv() && d@ == value@,
            value@.len() > Self::spec_max_length() ==> r == Err::<Self, FlagLsError>(
                FlagLsError::MaximumLengthExceeded {
                    mx_len: Self::spec_max_length(),
                    attempt_len: value@.len() as usize,
                },
            ),
    {
        convert::<B32, Self>(&value)
    }

    /// Rebuilds a `B64` in this variant, failing exactly when the
    /// source holds more flags than this variant's capacity.
    pub fn try_from_b64(value: B64) -> (r: Result<Self, FlagLsError>)
        requires
            value.inv(),
        ensures
            value@.len() <= Self::spec_max_length() ==> r is Ok,
            r matches Ok(d) ==> d.inv() && d@ == value@,
            value@.len() > Self::spec_max_length() ==> r == Err::<Self, FlagLsError>(
                FlagLsError::MaximumLengthExceeded {
                    mx_len: Self::spec_max_length(),
                    attempt_len: value@.len() as usize,
                },
            ),
    {
        convert::<B64, Self>(&value)
    }

    /// Rebuilds a `B128` in this variant, failing exactly when the
    /// source holds more flags than this variant's capacity.
    pub fn try_from_b128(value: B128) -> (r: Result<Self, FlagLsError>)
        requires
            value.inv(),
        ensures
            value@.len() <= Self::spec_max_length() ==> r is Ok,
            r matches Ok(d) ==> d.inv() && d@ == value@,
            value@.len() > Self::spec_max_length() ==> r == Err::<Self, FlagLsError>(
                FlagLsError::MaximumLengthExceeded {
                    mx_len: Self::spec_max_length(),
                    attempt_len: value@.len() as usize,
                },
            ),
    {
        convert::<B128, Self>(&value)
    }

    /// Rebuilds a `Blong` in this variant, failing exactly when the
    /// source holds more flags than this variant's capacity.
    pub fn try_from_blong(value: Blong) -> (r: Result<Self, FlagLsError>)
        requires
            value.inv(),
        ensures
            value@.len() <= Self::spec_max_length() ==> r is Ok,
            r matches Ok(d) ==> d.inv() && d@ == value@,
            value@.len() > Self::spec_max_length() ==> r == Err::<Self, FlagLsError>(
                FlagLsError::MaximumLengthExceeded {
                    mx_len: Self::spec_max_length(),
                    attempt_len: value@.len() as usize,
                },
            ),
    {
        convert::<Blong, Self>(&value)
    }
}

impl FlagLs for Bsize {
    closed spec fn inv(&self) -> bool {
        self.len <= (usize::BITS as usize) && self.inner >> self.len == 0
    }

    open spec fn spec_max_length() -> usize {
        (usize::BITS as usize)
    }

    proof fn lemma_len_bounded(&self) {
    }

    fn max_length() -> (r: usize) {
        (usize::BITS as usize)
    }

    fn new() -> (r: Self) {
        proof {
            crate::bits::lemma_zero_word();
        }
        Bsize { inner: 0, len: 0 }
    }

    fn len(&self) -> (r: usize) {
        self.len
    }

    fn set_len(&mut self, new_len: usize) {
        let w = self.inner;
        let low = Self::lower_mask(new_len);
        let nw = w & low;
        proof {
            lemma_mask_usize(w, nw, low, new_len as usize, self.len as usize);
            lemma_above_len_usize(w, self.len as usize);
        }
        self.inner = nw;
        self.len = new_len;
        proof {
            if new_len <= old(self)@.len() {
                assert(self@ =~= old(self)@.take(new_len as int));
            } else {
                assert(self@ =~= old(self)@ + Seq::new(
                    (new_len - old(self)@.len()) as nat,
                    |i: int| false,
                ));
            }
        }
    }

    fn insert(&mut self, index: usize, flag: bool) {
        let w = self.inner;
        let low = Self::lower_mask(index);
        let high = Self::uper_mask(index);
        let fbit: usize = if flag {
            1
        } else {
            0
        };
        let nw = (((w & high) << 1usize) | (fbit << index)) | (w & low);
        proof {
            lemma_insert_usize(w, nw, low, high, index as usize, self.len as usize, flag);
        }
        self.inner = nw;
        self.len = self.len + 1;
        proof {
            let s = old(self)@;
            s.insert_ensures(index as int, flag);
            assert forall|i: int| 0 <= i < self@.len() implies self@[i] == s.insert(
                index as int,
                flag,
            )[i] by {
                if i < index as int {
                    assert(bit_usize(nw, i as usize) == bit_usize(w, i as usize));
                } else if i > index as int {
                    assert(bit_usize(nw, i as usize) == bit_usize(w, (i - 1) as usize));
                    assert(s.insert(index as int, flag)[(i - 1) + 1] == s[i - 1]);
                }
            }
            assert(self@ =~= s.insert(index as int, flag));
        }
    }

    fn remove(&mut self, index: usize) -> (r: bool) {
        let w = self.inner;
        let low = Self::lower_mask(index);
        let high = Self::uper_mask(index + 1);
        let nw = ((w & high) >> 1usize) | (w & low);
        let out = ((w >> index) & 1usize) == 1usize;
        proof {
            lemma_remove_usize(w, nw, low, high, index as usize, self.len as usize);
        }
        self.inner = nw;
        self.len = self.len - 1;
        proof {
            let s = old(self)@;
            s.remove_ensures(index as int);
            assert forall|i: int| 0 <= i < self@.len() implies self@[i] == s.remove(
                index as int,
            )[i] by {
                if i < index as int {
                    assert(bit_usize(nw, i as usize) == bit_usize(w, i as usize));
                } else {
                    assert(bit_usize(nw, i as usize) == bit_usize(w, (i + 1) as usize));
                }
            }
            assert(self@ =~= s.remove(index as int));
        }
        out
    }

    fn clear(&mut self) {
        self.inner = 0;
        self.len = 0;
        proof {
            crate::bits::lemma_zero_word();
            assert(self@ =~= Seq::<bool>::empty());
        }
    }

    fn get(&self, index: usize) -> (r: Option<bool>) {
        if index < self.len {
            Some(((self.inner >> index) & 1usize) == 1usize)
        } else {
            None
        }
    }

    fn index(&self, index: usize) -> (r: bool) {
        ((self.inner >> index) & 1usize) == 1usize
    }

    fn set(&mut self, index: usize, flag: bool) {
        let w = self.inner;
        let low = Self::lower_mask(index);
        let high = Self::uper_mask(index + 1);
        let fbit: usize = if flag {
            1
        } else {
            0
        };
        let nw = ((w & high) | (fbit << index)) | (w & low);
        proof {
            lemma_set_usize(w, nw, low, high, index as usize, self.len as usize, flag);
        }
        self.inner = nw;
        proof {
            assert(self@ =~= old(self)@.update(index as int, flag));
        }
    }

}

} // verus!

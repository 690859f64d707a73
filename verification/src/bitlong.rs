//! A list of arbitrarily many flags packed across a growable sequence
//! of pointer-sized words.
use vstd::prelude::*;

use vstd::arithmetic::div_mod::lemma_fundamental_div_mod;
use vstd::arithmetic::div_mod::lemma_fundamental_div_mod_converse;
use vstd::arithmetic::div_mod::lemma_multiply_divide_lt;

use crate::FlagLsError;
use crate::bit128::B128;
use crate::bit32::B32;
use crate::bit64::B64;
use crate::bits::bit_usize;
use crate::bits::lemma_above_len_usize;
use crate::bits::lemma_bitwise_usize;
use crate::bits::lemma_mask_usize;
use crate::bits::lemma_not_usize;
use crate::bits::lemma_one_shl;
use crate::bits::lemma_set_usize;
use crate::bits::lemma_word_edges_usize;
use crate::bits::lemma_word_insert_usize;
use crate::bits::lemma_word_remove_usize;
use crate::bits::lemma_word_shl1_usize;
use crate::bits::lemma_word_shr1_usize;
use crate::bits::lemma_zero_word;
use crate::bitsize::Bsize;
use crate::flag_iter::Iter;
use crate::flagls::FlagLs;
use crate::flagls::and_flags;
use crate::flagls::convert;
use crate::flagls::diff_flags;
use crate::flagls::not_flags;
use crate::flagls::or_flags;
use crate::flagls::xor_flags;

verus! {

/// The number of flags each backing word holds.
pub open spec fn word_bits() -> int {
    usize::BITS as int
}

/// The number of words needed to hold `len` flags.
pub open spec fn words_for(len: int) -> int {
    len / word_bits() + if len % word_bits() == 0 {
        0int
    } else {
        1int
    }
}

/// The flag at global position `p` of the word sequence `ws`: bit
/// `p % word_bits()` of word `p / word_bits()`.
pub open spec fn bit_at(ws: Seq<usize>, p: int) -> bool {
    bit_usize(ws[p / word_bits()], (p % word_bits()) as usize)
}

/// How far the flags of a list of length `len` reach into its word `t`:
/// all the way for every word but the last, and up to the length's
/// remainder for the last.
pub open spec fn word_valid_bits(len: int, t: int) -> int {
    if len - t * word_bits() >= word_bits() {
        word_bits()
    } else {
        len - t * word_bits()
    }
}

/// An arbitrarily long list of flags.
///
/// Word 0 holds the first `word_bits()` flags at its low bits, word 1
/// the next ones, and so on; the word sequence always holds exactly as
/// many words as the length needs, and the bits of the last word at or
/// above the length stay clear.
#[derive(PartialEq, Eq, Clone, Debug, Hash)]
pub struct Blong {
    inner: Vec<usize>,
    len: usize,
}

impl View for Blong {
    type V = Seq<bool>;

    closed spec fn view(&self) -> Seq<bool> {
        Seq::new(self.len as nat, |p: int| bit_at(self.inner@, p))
    }
}

impl Default for Blong {
    /// Creates an empty list.
    fn default() -> (r: Self)
        ensures
            r.inv(),
            r@ == Seq::<bool>::empty(),
    {
        proof {
            lemma_bits_pos();
            lemma_words_for(0);
        }
        Blong { inner: Vec::new(), len: 0 }
    }
}

/// Each backing word holds 32 or 64 flags.
proof fn lemma_bits_pos()
    ensures
        word_bits() == 32 || word_bits() == 64,
{
}

/// Multiplication distributes over growing the word index by one.
proof fn lemma_mul_dist(a: int, b: int)
    by (nonlinear_arith)
    ensures
        (a + 1) * b == a * b + b,
{
}

/// Decomposing a global position into its word index and in-word
/// offset.
proof fn lemma_pos(p: int)
    requires
        0 <= p,
    ensures
        0 <= p % word_bits() < word_bits(),
        p == (p / word_bits()) * word_bits() + (p % word_bits()),
        0 <= p / word_bits(),
{
    lemma_bits_pos();
    lemma_fundamental_div_mod(p, word_bits());
}

/// Recomposing a word index and in-word offset into the global position
/// they stand for.
proof fn lemma_pos_of(j: int, m: int)
    requires
        0 <= j,
        0 <= m < word_bits(),
    ensures
        (j * word_bits() + m) / word_bits() == j,
        (j * word_bits() + m) % word_bits() == m,
        j * word_bits() >= 0,
{
    lemma_bits_pos();
    lemma_fundamental_div_mod_converse(j * word_bits() + m, word_bits(), j, m);
    assert(j * word_bits() >= 0) by (nonlinear_arith)
        requires
            j >= 0,
            word_bits() > 0,
    ;
}

/// A global position lies below the `k`th word boundary exactly when
/// its word index lies below `k`.
proof fn lemma_pos_lt(p: int, k: int)
    requires
        0 <= p,
        0 <= k,
    ensures
        p < k * word_bits() <==> p / word_bits() < k,
{
    lemma_bits_pos();
    lemma_pos(p);
    if p < k * word_bits() {
        lemma_multiply_divide_lt(p, word_bits(), k);
    }
    if p / word_bits() < k {
        assert((p / word_bits()) * word_bits() + (p % word_bits()) < k * word_bits())
            by (nonlinear_arith)
            requires
                p / word_bits() < k,
                0 <= p % word_bits() < word_bits(),
                word_bits() > 0,
        ;
    }
}

/// How many words a length needs, how the count moves as the length
/// grows or shrinks by one, and how the remainder moves with it.
proof fn lemma_words_for(len: int)
    requires
        0 <= len,
    ensures
        0 <= words_for(len),
        len <= words_for(len) * word_bits(),
        len == 0 ==> words_for(len) == 0,
        len > 0 ==> len > (words_for(len) - 1) * word_bits(),
        len % word_bits() == 0 ==> len == words_for(len) * word_bits(),
        words_for(len + 1) == if len % word_bits() == 0 {
            words_for(len) + 1
        } else {
            words_for(len)
        },
        (len + 1) % word_bits() == if len % word_bits() == word_bits() - 1 {
            0int
        } else {
            len % word_bits() + 1
        },
        len > 0 ==> words_for(len - 1) == if len % word_bits() == 1 {
            words_for(len) - 1
        } else {
            words_for(len)
        },
        len > 0 ==> (len - 1) % word_bits() == if len % word_bits() == 0 {
            word_bits() - 1
        } else {
            len % word_bits() - 1
        },
{
    lemma_bits_pos();
    lemma_pos(len);
    vstd::arithmetic::div_mod::lemma_div_pos_is_pos(len, word_bits());
    let q = len / word_bits();
    let r = len % word_bits();
    assert(len <= words_for(len) * word_bits() && (len > 0 ==> len > (words_for(len) - 1)
        * word_bits()) && (r == 0 ==> len == words_for(len) * word_bits())) by (nonlinear_arith)
        requires
            word_bits() > 0,
            0 <= r < word_bits(),
            len == q * word_bits() + r,
            0 <= q,
            words_for(len) == q + if r == 0 {
                0int
            } else {
                1int
            },
    ;
    if r == word_bits() - 1 {
        lemma_mul_dist(q, word_bits());
        lemma_fundamental_div_mod_converse(len + 1, word_bits(), q + 1, 0);
    } else {
        lemma_fundamental_div_mod_converse(len + 1, word_bits(), q, r + 1);
    }
    if len > 0 {
        if r == 0 {
            lemma_mul_dist(q - 1, word_bits());
            lemma_fundamental_div_mod_converse(len - 1, word_bits(), q - 1, word_bits() - 1);
        } else {
            lemma_fundamental_div_mod_converse(len - 1, word_bits(), q, r - 1);
        }
    }
}


/// A longer list never needs fewer words.
proof fn lemma_words_for_mono(a: int, b: int)
    requires
        0 <= a <= b,
    ensures
        words_for(a) <= words_for(b),
{
    lemma_bits_pos();
    lemma_pos(a);
    lemma_pos(b);
    vstd::arithmetic::div_mod::lemma_div_is_ordered(a, b, word_bits());
    let qa = a / word_bits();
    let qb = b / word_bits();
    if qa == qb && a % word_bits() != 0 && b % word_bits() == 0 {
        assert(false) by (nonlinear_arith)
            requires
                word_bits() > 0,
                a == qa * word_bits() + a % word_bits(),
                b == qb * word_bits(),
                qa == qb,
                0 < a % word_bits() < word_bits(),
                a <= b,
        ;
    }
}

/// The reach of two stacked lengths into one word: the shorter never
/// reaches further than the longer.
proof fn lemma_valid_mono(a: int, b: int, t: int)
    requires
        0 <= a <= b,
    ensures
        word_valid_bits(a, t) <= word_valid_bits(b, t),
{
}

/// The reach of the flags into each word: positive for every word the
/// length needs, a full word for all but the last, and the length's
/// remainder for a partial last word.
proof fn lemma_word_span(len: int, t: int)
    requires
        0 < len,
        0 <= t < words_for(len),
    ensures
        0 < word_valid_bits(len, t) <= word_bits(),
        t * word_bits() >= 0,
        t < words_for(len) - 1 ==> word_valid_bits(len, t) == word_bits(),
        t == words_for(len) - 1 && len % word_bits() == 0 ==> word_valid_bits(len, t)
            == word_bits(),
        t == words_for(len) - 1 && len % word_bits() != 0 ==> word_valid_bits(len, t) == len
            % word_bits(),
{
    lemma_bits_pos();
    lemma_pos(len);
    lemma_words_for(len);
    let q = len / word_bits();
    let r = len % word_bits();
    assert((0 < len - t * word_bits()) && t * word_bits() >= 0 && (t < words_for(len) - 1 ==> len
        - t * word_bits() >= word_bits()) && (t == words_for(len) - 1 && r == 0 ==> len - t
        * word_bits() == word_bits()) && (t == words_for(len) - 1 && r != 0 ==> len - t
        * word_bits() == r)) by (nonlinear_arith)
        requires
            word_bits() > 0,
            0 <= r < word_bits(),
            len == q * word_bits() + r,
            0 <= t < words_for(len),
            words_for(len) == q + if r == 0 {
                0int
            } else {
                1int
            },
    ;
}

impl Blong {
    /// The mask of the bits strictly below `point`.
    fn lower_mask(point: usize) -> (r: usize)
        requires
            point <= usize::BITS,
        ensures
            point == usize::BITS ==> r == !0usize,
            point < usize::BITS ==> r as int == (1usize << point) - 1,
    {
        if point == usize::BITS as usize {
            !0usize
        } else {
            proof {
                lemma_one_shl();
            }
            (1usize << point) - 1
        }
    }

    /// The mask of the bits at or above `point`.
    fn uper_mask(point: usize) -> (r: usize)
        requires
            point <= usize::BITS,
        ensures
            point == usize::BITS ==> r == 0usize,
            point < usize::BITS ==> r as int == !0usize - (1usize << point) + 1,
    {
        if point == usize::BITS as usize {
            0
        } else {
            proof {
                lemma_one_shl();
            }
            !0usize - (1usize << point) + 1
        }
    }

    /// Every word of a well-formed list is clear at and above the reach
    /// of the flags into it.
    proof fn lemma_word_valid(&self, t: int)
        requires
            self.inv(),
            0 <= t < self.inner@.len(),
        ensures
            0 < word_valid_bits(self.len as int, t) <= word_bits(),
            self.inner@[t] >> (word_valid_bits(self.len as int, t) as usize) == 0,
    {
        lemma_bits_pos();
        lemma_words_for(self.len as int);
        lemma_word_span(self.len as int, t);
        lemma_zero_word();
        if t < self.inner@.len() - 1 {
            assert(self.inner@[t] >> (usize::BITS as usize) == 0);
        } else {
            if (self.len as int) % word_bits() == 0 {
                assert(self.inner@[t] >> (usize::BITS as usize) == 0);
            }
        }
    }


    /// Any position at or above the length reads a clear bit from the
    /// backing words.
    proof fn lemma_read_above(&self, p: int)
        requires
            self.inv(),
            self@.len() <= p,
            0 <= p,
            p / word_bits() < self.inner@.len(),
        ensures
            !bit_at(self.inner@, p),
    {
        lemma_bits_pos();
        lemma_pos(p);
        lemma_words_for(self.len as int);
        let j = p / word_bits();
        let i = p % word_bits();
        let len = self.len as int;
        lemma_mul_dist(j, word_bits());
        if j < self.inner@.len() - 1 {
            // every word but the last is filled to the brim
            assert((j + 1) * word_bits() <= (self.inner@.len() - 1) * word_bits())
                by (nonlinear_arith)
                requires
                    j + 1 <= self.inner@.len() - 1,
                    word_bits() > 0,
            ;
            assert(false);
        } else {
            self.lemma_word_valid(j);
            lemma_word_span(len, j);
            lemma_above_len_usize(self.inner@[j], word_valid_bits(len, j) as usize);
        }
    }

    /// The number of words `len` flags need.
    fn words_needed(len: usize) -> (r: usize)
        ensures
            r == words_for(len as int),
    {
        proof {
            lemma_bits_pos();
            lemma_pos(len as int);
            assert((len as int / word_bits()) * 32 <= (len as int / word_bits()) * word_bits())
                by (nonlinear_arith)
                requires
                    word_bits() >= 32,
                    len as int / word_bits() >= 0,
            ;
        }
        let b: usize = usize::BITS as usize;
        len / b + (if len % b != 0 {
            1
        } else {
            0
        })
    }

    /// Converts the list into its backing words, consuming it.
    ///
    /// Flag `p` sits at bit `p % word_bits()` of word
    /// `p / word_bits()`; the word count is exactly what the length
    /// needs, and a partial last word is clear at and above the length.
    pub fn as_inner(self) -> (r: Vec<usize>)
        requires
            self.inv(),
        ensures
            r@.len() == words_for(self@.len() as int),
            forall|p: int| 0 <= p < self@.len() ==> bit_at(r@, p) == self@[p],
            (self@.len() as int) % word_bits() != 0 ==> r@.last() >> (((self@.len() as int)
                % word_bits()) as usize) == 0,
    {
        self.inner
    }

    /// Creates a list from backing words and a length.
    ///
    /// The list reads the low `len` flags of `inner`, extending with
    /// false flags where `len` reaches past the given words; any bits of
    /// the words at or above `len` are dropped.
    #[verifier::loop_isolation(false)]
    pub fn initialize(inner: Vec<usize>, len: usize) -> (r: Self)
        ensures
            r.inv(),
            r@ == Seq::new(
                len as nat,
                |p: int| p / word_bits() < inner@.len() && bit_at(inner@, p),
            ),
    {
        let ghost given = inner@;
        let mut v = inner;
        let b: usize = usize::BITS as usize;
        proof {
            lemma_bits_pos();
            lemma_words_for(len as int);
            lemma_zero_word();
            assert(given.take(given.len() as int) =~= given);
        }
        let k: usize = Self::words_needed(len);
        while v.len() > k
            invariant
                v@.len() <= given.len(),
                v@.len() >= k || v@.len() == given.len(),
                v@ == given.take(v@.len() as int),
            decreases v@.len(),
        {
            let _ = v.pop();
            proof {
                assert(v@ =~= given.take(v@.len() as int));
            }
        }
        while v.len() < k
            invariant
                v@.len() <= k,
                v@.len() >= given.len() || v@.len() >= k,
                forall|j: int| 0 <= j < v@.len() && j < given.len() ==> v@[j] == given[j],
                forall|j: int| given.len() <= j < v@.len() ==> v@[j] == 0usize,
            decreases k - v@.len(),
        {
            let ghost prev = v@;
            v.push(0);
            proof {
                assert(forall|j: int| 0 <= j < prev.len() ==> v@[j] == prev[j]);
            }
        }
        if len % b != 0 {
            let lw = k - 1;
            let w = v[lw];
            let low = Self::lower_mask(len % b);
            let nw = w & low;
            proof {
                lemma_mask_usize(w, nw, low, (len % b) as usize, (len % b) as usize);
            }
            v.set(lw, nw);
        }
        let r = Blong { inner: v, len };
        proof {
            let target = Seq::new(
                len as nat,
                |p: int| p / word_bits() < given.len() && bit_at(given, p),
            );
            assert forall|p: int| 0 <= p < len implies r@[p] == target[p] by {
                lemma_pos(p);
                lemma_pos_lt(p, k as int);
                let j = p / word_bits();
                let i = p % word_bits();
                if j < given.len() {
                    if j == k - 1 && len as int % word_bits() != 0 {
                        assert(i < len as int % word_bits()) by {
                            lemma_word_span(len as int, j);
                        }
                        assert(bit_usize(r.inner@[j], i as usize) == bit_usize(
                            given[j],
                            i as usize,
                        ));
                    } else {
                        assert(r.inner@[j] == given[j]);
                    }
                } else {
                    if j == k - 1 && len as int % word_bits() != 0 {
                        assert(bit_usize(r.inner@[j], i as usize) == bit_usize(
                            0usize,
                            i as usize,
                        ));
                        assert((0usize >> (i as usize)) == 0);
                    } else {
                        assert(r.inner@[j] == 0usize);
                        assert((0usize >> (i as usize)) == 0);
                    }
                }
            }
            assert(r@ =~= target);
        }
        r
    }


    /// Replaces `self` with the bitwise disjunction of `self` and `rhs`;
    /// the shorter operand counts as padded with false flags, and the
    /// result has the longer of the two lengths.
    #[verifier::loop_isolation(false)]
    #[verifier::rlimit(100)]
    pub fn bitor_assign(&mut self, rhs: &Self)
        requires
            old(self).inv(),
            rhs.inv(),
        ensures
            final(self).inv(),
            final(self)@ == or_flags(old(self)@, rhs@),
    {
        let ghost ws = self.inner@;
        let ghost wsb = rhs.inner@;
        let ghost la = self.len as int;
        let ghost lb = rhs.len as int;
        proof {
            lemma_bits_pos();
            lemma_words_for(la);
            lemma_words_for(lb);
            if la <= lb {
                lemma_words_for_mono(la, lb);
            } else {
                lemma_words_for_mono(lb, la);
            }
            lemma_zero_word();
        }
        let na = self.inner.len();
        let nb = rhs.inner.len();
        let mn = if na <= nb {
            na
        } else {
            nb
        };
        let mut i: usize = 0;
        while i < mn
            invariant
                i <= mn,
                self.inner@.len() == na,
                self.len == la,
                forall|k: int| 0 <= k < i ==> self.inner@[k] == (ws[k] | wsb[k]),
                forall|k: int| i <= k < na ==> self.inner@[k] == ws[k],
            decreases mn - i,
        {
            let nw = self.inner[i] | rhs.inner[i];
            self.inner.set(i, nw);
            i = i + 1;
        }
        while self.inner.len() < nb
            invariant
                na <= self.inner@.len(),
                self.inner@.len() <= if na >= nb {
                    na as int
                } else {
                    nb as int
                },
                self.len == la,
                forall|k: int| 0 <= k < mn ==> self.inner@[k] == (ws[k] | wsb[k]),
                forall|k: int| mn <= k < na ==> self.inner@[k] == ws[k],
                forall|k: int| na <= k < self.inner@.len() ==> self.inner@[k] == wsb[k],
            decreases nb - self.inner@.len(),
        {
            let ghost prev = self.inner@;
            let idx = self.inner.len();
            self.inner.push(rhs.inner[idx]);
            proof {
                assert(forall|j: int| 0 <= j < prev.len() ==> self.inner@[j] == prev[j]);
            }
        }
        self.len = if self.len >= rhs.len {
            self.len
        } else {
            rhs.len
        };
        proof {
            let sa = old(self)@;
            let sb = rhs@;
            let ml = self.len as int;
            assert forall|p: int| 0 <= p < self@.len() implies self@[p] == or_flags(sa, sb)[p] by {
                lemma_pos(p);
                let j = p / word_bits();
                let i2 = p % word_bits();
                lemma_pos_lt(p, na as int);
                lemma_pos_lt(p, nb as int);
                lemma_pos_lt(p, mn as int);
                if j < mn {
                    lemma_bitwise_usize(
                        ws[j],
                        wsb[j],
                        usize::BITS as usize,
                        usize::BITS as usize,
                    );
                    if p >= la {
                        old(self).lemma_read_above(p);
                    }
                    if p >= lb {
                        rhs.lemma_read_above(p);
                    }
                } else if j < na {
                    if p >= la {
                        old(self).lemma_read_above(p);
                    }
                } else {
                    if p >= lb {
                        rhs.lemma_read_above(p);
                    }
                }
            }
            assert(self@ =~= or_flags(sa, sb));
            // well-formedness of the last word
            lemma_words_for(ml);
            if ml % word_bits() != 0 {
                let lw = self.inner@.len() - 1;
                lemma_word_span(ml, lw);
                if lw < mn {
                    old(self).lemma_word_valid(lw);
                    rhs.lemma_word_valid(lw);
                    lemma_valid_mono(if la <= lb {
                        la
                    } else {
                        lb
                    }, ml, lw);
                    lemma_word_span(la, lw);
                    lemma_word_span(lb, lw);
                    lemma_bitwise_usize(
                        ws[lw],
                        wsb[lw],
                        word_valid_bits(la, lw) as usize,
                        word_valid_bits(lb, lw) as usize,
                    );
                } else if lw < na {
                    old(self).lemma_word_valid(lw);
                    lemma_word_span(la, lw);
                } else {
                    rhs.lemma_word_valid(lw);
                    lemma_word_span(lb, lw);
                }
            }
        }
    }

    /// Replaces `self` with the bitwise symmetric difference of `self`
    /// and `rhs`; the shorter operand counts as padded with false flags,
    /// and the result has the longer of the two lengths.
    #[verifier::loop_isolation(false)]
    #[verifier::rlimit(100)]
    pub fn bitxor_assign(&mut self, rhs: &Self)
        requires
            old(self).inv(),
            rhs.inv(),
        ensures
            final(self).inv(),
            final(self)@ == xor_flags(old(self)@, rhs@),
    {
        let ghost ws = self.inner@;
        let ghost wsb = rhs.inner@;
        let ghost la = self.len as int;
        let ghost lb = rhs.len as int;
        proof {
            lemma_bits_pos();
            lemma_words_for(la);
            lemma_words_for(lb);
            if la <= lb {
                lemma_words_for_mono(la, lb);
            } else {
                lemma_words_for_mono(lb, la);
            }
            lemma_zero_word();
        }
        let na = self.inner.len();
        let nb = rhs.inner.len();
        let mn = if na <= nb {
            na
        } else {
            nb
        };
        let mut i: usize = 0;
        while i < mn
            invariant
                i <= mn,
                self.inner@.len() == na,
                self.len == la,
                forall|k: int| 0 <= k < i ==> self.inner@[k] == (ws[k] ^ wsb[k]),
                forall|k: int| i <= k < na ==> self.inner@[k] == ws[k],
            decreases mn - i,
        {
            let nw = self.inner[i] ^ rhs.inner[i];
            self.inner.set(i, nw);
            i = i + 1;
        }
        while self.inner.len() < nb
            invariant
                na <= self.inner@.len(),
                self.inner@.len() <= if na >= nb {
                    na as int
                } else {
                    nb as int
                },
                self.len == la,
                forall|k: int| 0 <= k < mn ==> self.inner@[k] == (ws[k] ^ wsb[k]),
                forall|k: int| mn <= k < na ==> self.inner@[k] == ws[k],
                forall|k: int| na <= k < self.inner@.len() ==> self.inner@[k] == wsb[k],
            decreases nb - self.inner@.len(),
        {
            let ghost prev = self.inner@;
            let idx = self.inner.len();
            self.inner.push(rhs.inner[idx]);
            proof {
                assert(forall|j: int| 0 <= j < prev.len() ==> self.inner@[j] == prev[j]);
            }
        }
        self.len = if self.len >= rhs.len {
            self.len
        } else {
            rhs.len
        };
        proof {
            let sa = old(self)@;
            let sb = rhs@;
            let ml = self.len as int;
            assert forall|p: int| 0 <= p < self@.len() implies self@[p] == xor_flags(sa, sb)[p] by {
                lemma_pos(p);
                let j = p / word_bits();
                let i2 = p % word_bits();
                lemma_pos_lt(p, na as int);
                lemma_pos_lt(p, nb as int);
                lemma_pos_lt(p, mn as int);
                if j < mn {
                    lemma_bitwise_usize(
                        ws[j],
                        wsb[j],
                        usize::BITS as usize,
                        usize::BITS as usize,
                    );
                    if p >= la {
                        old(self).lemma_read_above(p);
                    }
                    if p >= lb {
                        rhs.lemma_read_above(p);
                    }
                } else if j < na {
                    if p >= la {
                        old(self).lemma_read_above(p);
                    }
                } else {
                    if p >= lb {
                        rhs.lemma_read_above(p);
                    }
                }
            }
            assert(self@ =~= xor_flags(sa, sb));
            // well-formedness of the last word
            lemma_words_for(ml);
            if ml % word_bits() != 0 {
                let lw = self.inner@.len() - 1;
                lemma_word_span(ml, lw);
                if lw < mn {
                    old(self).lemma_word_valid(lw);
                    rhs.lemma_word_valid(lw);
                    lemma_valid_mono(if la <= lb {
                        la
                    } else {
                        lb
                    }, ml, lw);
                    lemma_word_span(la, lw);
                    lemma_word_span(lb, lw);
                    lemma_bitwise_usize(
                        ws[lw],
                        wsb[lw],
                        word_valid_bits(la, lw) as usize,
                        word_valid_bits(lb, lw) as usize,
                    );
                } else if lw < na {
                    old(self).lemma_word_valid(lw);
                    lemma_word_span(la, lw);
                } else {
                    rhs.lemma_word_valid(lw);
                    lemma_word_span(lb, lw);
                }
            }
        }
    }

    /// Replaces `self` with the bitwise conjunction of `self` and `rhs`;
    /// the shorter operand counts as padded with false flags, so the
    /// result is clear beyond it, and the result has the longer of the
    /// two lengths.
    #[verifier::loop_isolation(false)]
    #[verifier::rlimit(100)]
    pub fn bitand_assign(&mut self, rhs: &Self)
        requires
            old(self).inv(),
            rhs.inv(),
        ensures
            final(self).inv(),
            final(self)@ == and_flags(old(self)@, rhs@),
    {
        let ghost ws = self.inner@;
        let ghost wsb = rhs.inner@;
        let ghost la = self.len as int;
        let ghost lb = rhs.len as int;
        proof {
            lemma_bits_pos();
            lemma_words_for(la);
            lemma_words_for(lb);
            if la <= lb {
                lemma_words_for_mono(la, lb);
            } else {
                lemma_words_for_mono(lb, la);
            }
            lemma_zero_word();
        }
        let na = self.inner.len();
        let nb = rhs.inner.len();
        let mn = if na <= nb {
            na
        } else {
            nb
        };
        let mut i: usize = 0;
        while i < mn
            invariant
                i <= mn,
                self.inner@.len() == na,
                self.len == la,
                forall|k: int| 0 <= k < i ==> self.inner@[k] == (ws[k] & wsb[k]),
                forall|k: int| i <= k < na ==> self.inner@[k] == ws[k],
            decreases mn - i,
        {
            let nw = self.inner[i] & rhs.inner[i];
            self.inner.set(i, nw);
            i = i + 1;
        }
        // the words the shorter operand lacks count as zero
        let mut z: usize = mn;
        while z < na
            invariant
                mn <= z <= na,
                self.inner@.len() == na,
                self.len == la,
                forall|k: int| 0 <= k < mn ==> self.inner@[k] == (ws[k] & wsb[k]),
                forall|k: int| mn <= k < z ==> self.inner@[k] == 0usize,
                forall|k: int| z <= k < na ==> self.inner@[k] == ws[k],
            decreases na - z,
        {
            self.inner.set(z, 0);
            z = z + 1;
        }
        while self.inner.len() < nb
            invariant
                na <= self.inner@.len(),
                self.inner@.len() <= if na >= nb {
                    na as int
                } else {
                    nb as int
                },
                self.len == la,
                forall|k: int| 0 <= k < mn ==> self.inner@[k] == (ws[k] & wsb[k]),
                forall|k: int| mn <= k < self.inner@.len() ==> self.inner@[k] == 0usize,
            decreases nb - self.inner@.len(),
        {
            let ghost prev = self.inner@;
            self.inner.push(0);
            proof {
                assert(forall|j: int| 0 <= j < prev.len() ==> self.inner@[j] == prev[j]);
            }
        }
        self.len = if self.len >= rhs.len {
            self.len
        } else {
            rhs.len
        };
        proof {
            let sa = old(self)@;
            let sb = rhs@;
            let ml = self.len as int;
            assert forall|p: int| 0 <= p < self@.len() implies self@[p] == and_flags(sa, sb)[p] by {
                lemma_pos(p);
                let j = p / word_bits();
                let i2 = p % word_bits();
                lemma_pos_lt(p, na as int);
                lemma_pos_lt(p, nb as int);
                lemma_pos_lt(p, mn as int);
                if j < mn {
                    lemma_bitwise_usize(
                        ws[j],
                        wsb[j],
                        usize::BITS as usize,
                        usize::BITS as usize,
                    );
                    if p >= la {
                        old(self).lemma_read_above(p);
                    }
                    if p >= lb {
                        rhs.lemma_read_above(p);
                    }
                } else {
                    // a zero word: one operand has no flags here
                    assert(self.inner@[j] == 0usize);
                    if p >= la {
                    } else {
                        assert(p >= lb);
                    }
                }
            }
            assert(self@ =~= and_flags(sa, sb));
            // well-formedness of the last word
            lemma_words_for(ml);
            if ml % word_bits() != 0 {
                let lw = self.inner@.len() - 1;
                lemma_word_span(ml, lw);
                if lw < mn {
                    old(self).lemma_word_valid(lw);
                    rhs.lemma_word_valid(lw);
                    lemma_bitwise_usize(
                        ws[lw],
                        wsb[lw],
                        word_valid_bits(la, lw) as usize,
                        word_valid_bits(lb, lw) as usize,
                    );
                }
            }
        }
    }

    /// Complements every flag of the list in place; the length is
    /// unchanged.
    #[verifier::loop_isolation(false)]
    pub fn not(self) -> (r: Self)
        requires
            self.inv(),
        ensures
            r.inv(),
            r@ == not_flags(self@),
    {
        let ghost ws = self.inner@;
        let ghost la = self.len as int;
        proof {
            lemma_bits_pos();
            lemma_words_for(la);
            lemma_zero_word();
        }
        let b: usize = usize::BITS as usize;
        let mut out = self;
        let n = out.inner.len();
        let mut i: usize = 0;
        while i < n
            invariant
                i <= n,
                out.inner@.len() == n,
                out.len == la,
                forall|k: int|
                    0 <= k < i ==> (forall|q: usize|
                        q < word_valid_bits(la, k) ==> bit_usize(out.inner@[k], q) == !bit_usize(
                            ws[k],
                            q,
                        )) && out.inner@[k] >> (word_valid_bits(la, k) as usize) == 0,
                forall|k: int| i <= k < n ==> out.inner@[k] == ws[k],
            decreases n - i,
        {
            proof {
                self.lemma_word_valid(i as int);
                lemma_word_span(la, i as int);
            }
            let wl: usize = if i + 1 < n {
                b
            } else {
                if out.len % b == 0 {
                    b
                } else {
                    out.len % b
                }
            };
            let w = out.inner[i];
            let low = Self::lower_mask(wl);
            let nw = (!w) & low;
            proof {
                lemma_not_usize(w, nw, low, wl);
            }
            out.inner.set(i, nw);
            i = i + 1;
        }
        proof {
            assert forall|p: int| 0 <= p < out@.len() implies out@[p] == not_flags(self@)[p] by {
                lemma_pos(p);
                lemma_pos_lt(p, n as int);
                let j = p / word_bits();
                lemma_word_span(la, j);
            }
            assert(out@ =~= not_flags(self@));
            if la % word_bits() != 0 {
                lemma_word_span(la, n - 1 as int);
            }
        }
        out
    }

    /// Removes from `self` every flag that is set in `rhs` (set
    /// difference); flags of `rhs` beyond `self` have nothing to clear,
    /// and the length stays that of `self`.
    #[verifier::loop_isolation(false)]
    pub fn sub_assign(&mut self, rhs: &Self)
        requires
            old(self).inv(),
            rhs.inv(),
        ensures
            final(self).inv(),
            final(self)@ == diff_flags(old(self)@, rhs@),
    {
        let ghost ws = self.inner@;
        let ghost wsb = rhs.inner@;
        let ghost la = self.len as int;
        let ghost lb = rhs.len as int;
        proof {
            lemma_bits_pos();
            lemma_words_for(la);
            lemma_words_for(lb);
            lemma_zero_word();
        }
        let na = self.inner.len();
        let nb = rhs.inner.len();
        let mn = if na <= nb {
            na
        } else {
            nb
        };
        let mut i: usize = 0;
        while i < mn
            invariant
                i <= mn,
                self.inner@.len() == na,
                self.len == la,
                forall|k: int| 0 <= k < i ==> self.inner@[k] == (ws[k] & !wsb[k]),
                forall|k: int| i <= k < na ==> self.inner@[k] == ws[k],
            decreases mn - i,
        {
            let nw = self.inner[i] & !rhs.inner[i];
            self.inner.set(i, nw);
            i = i + 1;
        }
        proof {
            let sa = old(self)@;
            let sb = rhs@;
            assert forall|p: int| 0 <= p < self@.len() implies self@[p] == diff_flags(sa, sb)[p]
            by {
                lemma_pos(p);
                let j = p / word_bits();
                lemma_pos_lt(p, na as int);
                lemma_pos_lt(p, nb as int);
                lemma_pos_lt(p, mn as int);
                if j < mn {
                    lemma_bitwise_usize(
                        ws[j],
                        wsb[j],
                        usize::BITS as usize,
                        usize::BITS as usize,
                    );
                    if p >= lb {
                        rhs.lemma_read_above(p);
                    }
                } else {
                    // rhs has no words here, so nothing is cleared
                    assert(p >= lb);
                }
            }
            assert(self@ =~= diff_flags(sa, sb));
            // well-formedness of the last word
            if la % word_bits() != 0 {
                let lw = self.inner@.len() - 1;
                lemma_word_span(la, lw);
                if lw < mn {
                    old(self).lemma_word_valid(lw);
                    rhs.lemma_word_valid(lw);
                    lemma_bitwise_usize(
                        ws[lw],
                        wsb[lw],
                        word_valid_bits(la, lw) as usize,
                        word_valid_bits(lb, lw) as usize,
                    );
                }
            }
        }
    }

    /// An iterator over the flags, front to back.
    pub fn iter<'a>(&'a self) -> (r: Iter<'a, Self>)
        requires
            self.inv(),
        ensures
            r.wf(),
            r.list() == self@,
            r.pos() == 0,
            r.end() == self@.len(),
    {
        Iter::new(self)
    }

    /// Rebuilds a `B32` in this variant; the source always fits.
    pub fn from_b32(value: B32) -> (r: Self)
        requires
            value.inv(),
        ensures
            r.inv(),
            r@ == value@,
    {
        proof {
            value.lemma_len_bounded();
        }
        match convert::<B32, Self>(&value) {
            Ok(d) => d,
            Err(_) => unreached(),
        }
    }

    /// Rebuilds a `B64` in this variant; the source always fits.
    pub fn from_b64(value: B64) -> (r: Self)
        requires
            value.inv(),
        ensures
            r.inv(),
            r@ == value@,
    {
        proof {
            value.lemma_len_bounded();
        }
        match convert::<B64, Self>(&value) {
            Ok(d) => d,
            Err(_) => unreached(),
        }
    }

    /// Rebuilds a `B128` in this variant; the source always fits.
    pub fn from_b128(value: B128) -> (r: Self)
        requires
            value.inv(),
        ensures
            r.inv(),
            r@ == value@,
    {
        proof {
            value.lemma_len_bounded();
        }
        match convert::<B128, Self>(&value) {
            Ok(d) => d,
            Err(_) => unreached(),
        }
    }

    /// Rebuilds a `Bsize` in this variant; the source always fits.
    pub fn from_bsize(value: Bsize) -> (r: Self)
        requires
            value.inv(),
        ensures
            r.inv(),
            r@ == value@,
    {
        proof {
            value.lemma_len_bounded();
            assert(usize::BITS == 32 || usize::BITS == 64);
        }
        match convert::<Bsize, Self>(&value) {
            Ok(d) => d,
            Err(_) => unreached(),
        }
    }
}

impl FlagLs for Blong {
    closed spec fn inv(&self) -> bool {
        &&& self.inner@.len() == words_for(self.len as int)
        &&& (self.len as int) % word_bits() != 0 ==> self.inner@.last() >> (((self.len as int)
            % word_bits()) as usize) == 0
    }

    open spec fn spec_max_length() -> usize {
        usize::MAX
    }

    proof fn lemma_len_bounded(&self) {
    }

    fn max_length() -> (r: usize) {
        usize::MAX
    }

    fn new() -> (r: Self) {
        proof {
            lemma_bits_pos();
            lemma_words_for(0);
        }
        Blong { inner: Vec::new(), len: 0 }
    }

    fn len(&self) -> (r: usize) {
        self.len
    }

    #[verifier::loop_isolation(false)]
    fn set_len(&mut self, new_len: usize) {
        let b: usize = usize::BITS as usize;
        let ghost ws = self.inner@;
        let ghost old_len = self.len as int;
        proof {
            lemma_bits_pos();
            lemma_words_for(old_len);
            lemma_words_for(new_len as int);
            lemma_zero_word();
            assert(ws.take(ws.len() as int) =~= ws);
        }
        let k: usize = Self::words_needed(new_len);
        while self.inner.len() > k
            invariant
                self.inner@.len() <= ws.len(),
                self.inner@.len() >= k || self.inner@.len() == ws.len(),
                self.inner@ == ws.take(self.inner@.len() as int),
                self.len == old_len,
            decreases self.inner@.len(),
        {
            let _ = self.inner.pop();
            proof {
                assert(self.inner@ =~= ws.take(self.inner@.len() as int));
            }
        }
        while self.inner.len() < k
            invariant
                self.inner@.len() <= k,
                self.inner@.len() >= ws.len() || self.inner@.len() >= k,
                forall|j: int| 0 <= j < self.inner@.len() && j < ws.len() ==> self.inner@[j]
                    == ws[j],
                forall|j: int| ws.len() <= j < self.inner@.len() ==> self.inner@[j] == 0usize,
                self.len == old_len,
            decreases k - self.inner@.len(),
        {
            let ghost prev = self.inner@;
            self.inner.push(0);
            proof {
                assert(forall|j: int| 0 <= j < prev.len() ==> self.inner@[j] == prev[j]);
            }
        }
        if new_len % b != 0 {
            let lw = k - 1;
            let w = self.inner[lw];
            let low = Self::lower_mask(new_len % b);
            let nw = w & low;
            proof {
                lemma_mask_usize(w, nw, low, (new_len % b) as usize, (new_len % b) as usize);
            }
            self.inner.set(lw, nw);
        }
        self.len = new_len;
        proof {
            let s = old(self)@;
            assert forall|p: int| 0 <= p < new_len implies self@[p] == (if new_len <= old_len {
                s.take(new_len as int)
            } else {
                s + Seq::new((new_len - old_len) as nat, |q: int| false)
            })[p] by {
                lemma_pos(p);
                lemma_pos_lt(p, k as int);
                lemma_pos_lt(p, ws.len() as int);
                let j = p / word_bits();
                let i = p % word_bits();
                if p < old_len {
                    if j == k - 1 && new_len as int % word_bits() != 0 {
                        assert(i < new_len as int % word_bits()) by {
                            lemma_word_span(new_len as int, j);
                        }
                        assert(bit_usize(self.inner@[j], i as usize) == bit_usize(
                            ws[j],
                            i as usize,
                        ));
                    } else {
                        assert(self.inner@[j] == ws[j]);
                    }
                } else {
                    // at or above the old length: the flag reads false
                    lemma_mul_dist(j, word_bits());
                    if j == k - 1 && new_len as int % word_bits() != 0 {
                        lemma_above_len_usize(
                            self.inner@[j],
                            (new_len as int % word_bits()) as usize,
                        );
                        if i < new_len as int % word_bits() {
                            if j < ws.len() {
                                old(self).lemma_word_valid(j);
                                lemma_above_len_usize(ws[j], word_valid_bits(old_len, j) as usize);
                                assert(i >= word_valid_bits(old_len, j)) by {
                                    if old_len > 0 {
                                        lemma_word_span(old_len, j);
                                    }
                                }
                                assert(bit_usize(self.inner@[j], i as usize) == bit_usize(
                                    ws[j],
                                    i as usize,
                                ));
                            } else {
                                assert(bit_usize(self.inner@[j], i as usize) == bit_usize(
                                    0usize,
                                    i as usize,
                                ));
                            }
                        } else {
                            assert(!bit_usize(self.inner@[j], i as usize));
                        }
                    } else {
                        if j < ws.len() {
                            assert(self.inner@[j] == ws[j]);
                            old(self).lemma_word_valid(j);
                            lemma_above_len_usize(ws[j], word_valid_bits(old_len, j) as usize);
                            assert(i >= word_valid_bits(old_len, j)) by {
                                if old_len > 0 {
                                    lemma_word_span(old_len, j);
                                }
                            }
                            assert(!bit_usize(ws[j], i as usize));
                        } else {
                            assert(self.inner@[j] == 0usize);
                        }
                    }
                }
            }
            if new_len <= old_len {
                assert(self@ =~= s.take(new_len as int));
            } else {
                assert(self@ =~= s + Seq::new((new_len - old_len) as nat, |q: int| false));
            }
        }
    }

    #[verifier::loop_isolation(false)]
    #[verifier::rlimit(100)]
    fn insert(&mut self, index: usize, flag: bool) {
        let b: usize = usize::BITS as usize;
        let ghost ws = self.inner@;
        let ghost s = self@;
        let ghost len = self.len as int;
        proof {
            lemma_bits_pos();
            lemma_pos(index as int);
            lemma_words_for(len);
            lemma_zero_word();
        }
        let t: usize = index / b;
        let m: usize = index % b;
        let n: usize = self.inner.len();
        let fbit: usize = if flag {
            1
        } else {
            0
        };
        proof {
            lemma_pos_lt(index as int, n as int);
            lemma_mul_dist(t as int, word_bits());
        }
        if t == n {
            // the length sits exactly on the last word boundary: a fresh
            // word receives the new flag at its lowest bit
            proof {
                lemma_pos_of(n as int, 0);
                assert(index == len && m == 0);
            }
            self.inner.push(fbit);
            self.len = self.len + 1;
            proof {
                lemma_word_edges_usize(fbit);
                let s2 = self@;
                s.insert_ensures(index as int, flag);
                assert forall|p: int| 0 <= p < s2.len() implies s2[p] == s.insert(
                    index as int,
                    flag,
                )[p] by {
                    lemma_pos(p);
                    lemma_pos_lt(p, n as int);
                    let pj = p / word_bits();
                    let i = p % word_bits();
                    if p < index {
                        assert(s.insert(index as int, flag)[p] == s[p]);
                        assert(self.inner@[pj] == ws[pj]);
                    } else {
                        assert(p == index && pj == n as int && i == 0);
                    }
                }
                assert(s2 =~= s.insert(index as int, flag));
                lemma_fundamental_div_mod_converse(len + 1, word_bits(), n as int, 1);
            }
        } else {
            // split word `t` at the in-word offset, then ripple the
            // displaced top bit up through the higher words
            let w = self.inner[t];
            let low = Self::lower_mask(m);
            let high = Self::uper_mask(m);
            let mut carry: usize = w >> (b - 1);
            let nw = (((w & high) << 1usize) | (fbit << m)) | (w & low);
            proof {
                self.lemma_word_valid(t as int);
                lemma_word_span(len, t as int);
                lemma_word_edges_usize(w);
                lemma_word_insert_usize(
                    w,
                    nw,
                    low,
                    high,
                    m,
                    word_valid_bits(len, t as int) as usize,
                    flag,
                );
            }
            self.inner.set(t, nw);
            let mut j: usize = t + 1;
            while j < n
                invariant
                    t + 1 <= j <= n,
                    self.inner@.len() == n,
                    self.len == len,
                    forall|k: int| 0 <= k < t ==> self.inner@[k] == ws[k],
                    self.inner@[t as int] == nw,
                    forall|k: int| j <= k < n ==> self.inner@[k] == ws[k],
                    forall|k: int|
                        t < k < j ==> (forall|i: usize|
                            0 < i < usize::BITS ==> bit_usize(self.inner@[k], i) == bit_usize(
                                ws[k],
                                (i - 1) as usize,
                            )) && bit_usize(self.inner@[k], 0) == bit_usize(
                            ws[k - 1],
                            (usize::BITS - 1) as usize,
                        ),
                    carry <= 1,
                    (carry == 1) == bit_usize(ws[j - 1], (usize::BITS - 1) as usize),
                    len % word_bits() != 0 && t < n - 1 && j == n ==> self.inner@[n - 1] >> (((len
                        % word_bits()) + 1) as usize) == 0,
                decreases n - j,
            {
                let wj = self.inner[j];
                let newc = wj >> (b - 1);
                let nwj = (wj << 1usize) | carry;
                proof {
                    old(self).lemma_word_valid(j as int);
                    lemma_word_span(len, j as int);
                    lemma_word_edges_usize(wj);
                    lemma_word_shl1_usize(
                        wj,
                        nwj,
                        carry,
                        word_valid_bits(len, j as int) as usize,
                    );
                }
                self.inner.set(j, nwj);
                carry = newc;
                j = j + 1;
            }
            let pushed = self.len % b == 0;
            if pushed {
                // every word was full: the final carry is a live flag
                self.inner.push(carry);
                proof {
                    lemma_word_edges_usize(carry);
                }
            }
            self.len = self.len + 1;
            proof {
                let s2 = self@;
                s.insert_ensures(index as int, flag);
                assert forall|p: int| 0 <= p < s2.len() implies s2[p] == s.insert(
                    index as int,
                    flag,
                )[p] by {
                    lemma_pos(p);
                    let pj = p / word_bits();
                    let i = p % word_bits();
                    lemma_pos_lt(p, t as int);
                    lemma_pos_lt(p, (t + 1) as int);
                    lemma_pos_lt(p, n as int);
                    if p < index {
                        assert(s.insert(index as int, flag)[p] == s[p]);
                        if pj < t {
                            assert(self.inner@[pj] == ws[pj]);
                        } else {
                            assert(pj == t && i < m);
                        }
                    } else if p == index {
                        assert(pj == t && i == m) by {
                            lemma_pos_of(t as int, m as int);
                        }
                    } else {
                        assert(s.insert(index as int, flag)[(p - 1) + 1] == s[p - 1]);
                        lemma_pos(p - 1);
                        if pj == t {
                            assert(i > m);
                            assert((p - 1) / word_bits() == t && (p - 1) % word_bits() == i - 1)
                                by {
                                lemma_pos_of(t as int, i - 1);
                            }
                        } else {
                            assert(pj > t);
                            if pj < n {
                                if i > 0 {
                                    assert((p - 1) / word_bits() == pj && (p - 1) % word_bits()
                                        == i - 1) by {
                                        lemma_pos_of(pj, i - 1);
                                    }
                                } else {
                                    assert((p - 1) / word_bits() == pj - 1 && (p - 1)
                                        % word_bits() == word_bits() - 1) by {
                                        lemma_pos_of(pj - 1, word_bits() - 1);
                                    }
                                }
                            } else {
                                // the appended word: its one flag came from
                                // the displaced top bit of the old last word
                                assert(pj == n as int && i == 0) by {
                                    lemma_pos_lt(p, (n + 1) as int);
                                    lemma_mul_dist(n as int, word_bits());
                                    lemma_pos_of(n as int, 0);
                                }
                                assert((p - 1) / word_bits() == n - 1 && (p - 1) % word_bits()
                                    == word_bits() - 1) by {
                                    lemma_pos_of(n - 1 as int, word_bits() - 1);
                                    lemma_mul_dist(n - 1 as int, word_bits());
                                }
                            }
                        }
                    }
                }
                assert(s2 =~= s.insert(index as int, flag));
                // well-formedness of the (possibly new) last word
                lemma_words_for(len);
                if (len + 1) % word_bits() != 0 {
                    if len % word_bits() == 0 {
                        assert(self.inner@.last() <= 1);
                        assert(self.inner@.last() >> 1usize == 0) by {
                            lemma_word_edges_usize(carry);
                        }
                    } else {
                        if t == n - 1 {
                            lemma_word_span(len, t as int);
                        }
                    }
                }
            }
        }
    }

    #[verifier::loop_isolation(false)]
    #[verifier::rlimit(100)]
    fn remove(&mut self, index: usize) -> (r: bool) {
        let b: usize = usize::BITS as usize;
        let ghost ws = self.inner@;
        let ghost s = self@;
        let ghost len = self.len as int;
        proof {
            lemma_bits_pos();
            lemma_pos(index as int);
            lemma_words_for(len);
            lemma_zero_word();
        }
        let t: usize = index / b;
        let m: usize = index % b;
        let n: usize = self.inner.len();
        proof {
            lemma_pos_lt(index as int, n as int);
            lemma_mul_dist(t as int, word_bits());
        }
        let w_t = self.inner[t];
        let out = ((w_t >> m) & 1usize) == 1usize;
        let mut c: usize = 0;
        let mut j: usize = n;
        while j > t + 1
            invariant
                t + 1 <= j <= n,
                self.inner@.len() == n,
                self.len == len,
                forall|k: int| 0 <= k < j ==> self.inner@[k] == ws[k],
                forall|k: int|
                    j <= k < n ==> (forall|i: usize|
                        i < usize::BITS - 1 ==> bit_usize(self.inner@[k], i) == bit_usize(
                            ws[k],
                            (i + 1) as usize,
                        )) && (bit_usize(self.inner@[k], (usize::BITS - 1) as usize) == (k < n - 1
                        && bit_usize(ws[k + 1], 0))),
                c <= 1,
                (c == 1) == (j < n && bit_usize(ws[j as int], 0)),
                j < n ==> self.inner@[n - 1] >> ((word_valid_bits(len, n - 1) - 1) as usize) == 0,
            decreases j,
        {
            j = j - 1;
            let wj = self.inner[j];
            let newc = wj & 1;
            let nwj = (wj >> 1usize) | (c << (b - 1));
            proof {
                old(self).lemma_word_valid(j as int);
                lemma_word_span(len, j as int);
                lemma_word_edges_usize(wj);
                lemma_word_shr1_usize(wj, nwj, c, word_valid_bits(len, j as int) as usize);
            }
            self.inner.set(j, nwj);
            c = newc;
        }
        // splice the flag out of word `t`, the borrow becoming its top bit
        let w = self.inner[t];
        let low = Self::lower_mask(m);
        let high = Self::uper_mask(if m < b - 1 {
            m + 1
        } else {
            b
        });
        let nw = (((w & high) >> 1usize) | (w & low)) | (c << (b - 1));
        proof {
            old(self).lemma_word_valid(t as int);
            lemma_word_span(len, t as int);
            lemma_word_remove_usize(
                w,
                nw,
                low,
                high,
                m,
                word_valid_bits(len, t as int) as usize,
                c,
            );
        }
        self.inner.set(t, nw);
        if self.len % b == 1 {
            // the last word held a single flag: it is empty now
            let _ = self.inner.pop();
        }
        self.len = self.len - 1;
        proof {
            lemma_words_for(len);
            let s2 = self@;
            s.remove_ensures(index as int);
            assert forall|p: int| 0 <= p < s2.len() implies s2[p] == s.remove(index as int)[p] by {
                lemma_pos(p);
                let pj = p / word_bits();
                let i = p % word_bits();
                lemma_pos_lt(p, t as int);
                lemma_pos_lt(p, (t + 1) as int);
                if p < index {
                    assert(s.remove(index as int)[p] == s[p]);
                    if pj < t {
                        assert(self.inner@[pj] == ws[pj]);
                    } else {
                        assert(pj == t && i < m);
                    }
                } else {
                    assert(s.remove(index as int)[p] == s[p + 1]);
                    lemma_pos(p + 1);
                    lemma_pos_lt(p + 1, n as int);
                    if pj == t && i < word_bits() - 1 {
                        assert((p + 1) / word_bits() == t && (p + 1) % word_bits() == i + 1) by {
                            lemma_pos_of(t as int, i + 1);
                        }
                    } else if i < word_bits() - 1 {
                        assert(pj > t);
                        assert((p + 1) / word_bits() == pj && (p + 1) % word_bits() == i + 1) by {
                            lemma_pos_of(pj, i + 1);
                        }
                    } else {
                        // the top bit of a word: the flag came from the
                        // lowest bit of the word above
                        assert((p + 1) / word_bits() == pj + 1 && (p + 1) % word_bits() == 0) by {
                            lemma_pos_of(pj + 1, 0);
                            lemma_mul_dist(pj, word_bits());
                        }
                    }
                }
            }
            assert(s2 =~= s.remove(index as int));
            // well-formedness of the last remaining word
            if (len - 1) % word_bits() != 0 {
                lemma_word_span(len, self.inner@.len() - 1);
            }
        }
        out
    }

    fn clear(&mut self) {
        self.inner = Vec::new();
        self.len = 0;
        proof {
            lemma_bits_pos();
            lemma_words_for(0);
            assert(self@ =~= Seq::<bool>::empty());
        }
    }

    fn get(&self, index: usize) -> (r: Option<bool>) {
        if index < self.len {
            proof {
                lemma_bits_pos();
                lemma_pos(index as int);
                lemma_words_for(self.len as int);
                lemma_pos_lt(index as int, self.inner@.len() as int);
            }
            let b: usize = usize::BITS as usize;
            let t: usize = index / b;
            let m: usize = index % b;
            Some(((self.inner[t] >> m) & 1usize) == 1usize)
        } else {
            None
        }
    }

    fn index(&self, index: usize) -> (r: bool) {
        proof {
            lemma_bits_pos();
            lemma_pos(index as int);
            lemma_words_for(self.len as int);
            lemma_pos_lt(index as int, self.inner@.len() as int);
        }
        let b: usize = usize::BITS as usize;
        let t: usize = index / b;
        let m: usize = index % b;
        ((self.inner[t] >> m) & 1usize) == 1usize
    }

    fn set(&mut self, index: usize, flag: bool) {
        let b: usize = usize::BITS as usize;
        proof {
            lemma_bits_pos();
            lemma_pos(index as int);
            lemma_words_for(self.len as int);
            lemma_pos_lt(index as int, self.inner@.len() as int);
        }
        let t: usize = index / b;
        let m: usize = index % b;
        let w = self.inner[t];
        let low = Self::lower_mask(m);
        let high = Self::uper_mask(if m < b - 1 {
            m + 1
        } else {
            b
        });
        let fbit: usize = if flag {
            1
        } else {
            0
        };
        let nw = ((w & high) | (fbit << m)) | (w & low);
        proof {
            self.lemma_word_valid(t as int);
            lemma_word_span(self.len as int, t as int);
            lemma_mul_dist(t as int, word_bits());
            lemma_set_usize(
                w,
                nw,
                low,
                high,
                m,
                word_valid_bits(self.len as int, t as int) as usize,
                flag,
            );
        }
        self.inner.set(t, nw);
        proof {
            let s = old(self)@;
            assert forall|p: int| 0 <= p < self@.len() implies self@[p] == s.update(
                index as int,
                flag,
            )[p] by {
                lemma_pos(p);
                let pj = p / word_bits();
                let i = p % word_bits();
                if p == index {
                    assert(pj == t && i == m) by {
                        lemma_pos_of(t as int, m as int);
                    }
                } else {
                    if pj == t {
                        assert(i != m) by {
                            lemma_pos_of(t as int, m as int);
                        }
                        assert(bit_usize(nw, i as usize) == bit_usize(w, i as usize));
                    } else {
                        assert(self.inner@[pj] == old(self).inner@[pj]);
                    }
                }
            }
            assert(self@ =~= s.update(index as int, flag));
        }
    }
}

} // verus!

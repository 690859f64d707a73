//! The shared contract of every packed flag list.
use vstd::prelude::*;

use crate::FlagLsError;

verus! {

/// The flag of `s` at `i`, with false beyond either end.
///
/// The bitwise operators conceptually pad the shorter operand with
/// false flags up to the longer one; this is that padding.
pub open spec fn padded(s: Seq<bool>, i: int) -> bool {
    0 <= i < s.len() && s[i]
}

/// The longer of the two operand lengths.
pub open spec fn longer_len(a: Seq<bool>, b: Seq<bool>) -> nat {
    if a.len() >= b.len() {
        a.len()
    } else {
        b.len()
    }
}

/// The conjunction of two flag sequences, padded with false to the
/// longer length.
pub open spec fn and_flags(a: Seq<bool>, b: Seq<bool>) -> Seq<bool> {
    Seq::new(longer_len(a, b), |i: int| padded(a, i) && padded(b, i))
}

/// The disjunction of two flag sequences, padded with false to the
/// longer length.
pub open spec fn or_flags(a: Seq<bool>, b: Seq<bool>) -> Seq<bool> {
    Seq::new(longer_len(a, b), |i: int| padded(a, i) || padded(b, i))
}

/// The symmetric difference of two flag sequences, padded with false to
/// the longer length.
pub open spec fn xor_flags(a: Seq<bool>, b: Seq<bool>) -> Seq<bool> {
    Seq::new(longer_len(a, b), |i: int| padded(a, i) != padded(b, i))
}

/// The set difference of two flag sequences: the flags of `a` with the
/// flags of `b` switched off; the length stays that of `a`.
pub open spec fn diff_flags(a: Seq<bool>, b: Seq<bool>) -> Seq<bool> {
    Seq::new(a.len(), |i: int| a[i] && !padded(b, i))
}

/// Every flag of `a` complemented; the length stays that of `a`.
pub open spec fn not_flags(a: Seq<bool>) -> Seq<bool> {
    Seq::new(a.len(), |i: int| !a[i])
}

/// The flags of `a` shifted `n` positions higher, false flags filling
/// the bottom, with the length growing by `n` but capped at `max`.
pub open spec fn shl_flags(a: Seq<bool>, n: nat, max: nat) -> Seq<bool> {
    Seq::new(
        if a.len() + n <= max {
            a.len() + n
        } else {
            max
        },
        |i: int| i >= n && a[i - n],
    )
}

/// The flags of `a` shifted `n` positions lower: the bottom `n` flags
/// are dropped and the length shrinks by `n`, stopping at zero.
pub open spec fn shr_flags(a: Seq<bool>, n: nat) -> Seq<bool> {
    Seq::new(
        if a.len() >= n {
            (a.len() - n) as nat
        } else {
            0
        },
        |i: int| a[i + n],
    )
}

/// The length reported inside a capacity error when one more flag would
/// not fit: one past the current length, saturating at the largest
/// representable count.
pub open spec fn grown_len(len: nat) -> nat {
    if len < usize::MAX {
        (len + 1) as nat
    } else {
        len
    }
}


/// Rebuilds the flags of one list variant in another, front to back,
/// failing exactly when the source holds more flags than the
/// destination's capacity.
pub fn convert<S: FlagLs, D: FlagLs>(src: &S) -> (r: Result<D, FlagLsError>)
    requires
        src.inv(),
    ensures
        src@.len() <= D::spec_max_length() ==> r is Ok,
        r matches Ok(d) ==> d.inv() && d@ == src@,
        src@.len() > D::spec_max_length() ==> r == Err::<D, FlagLsError>(
            FlagLsError::MaximumLengthExceeded {
                mx_len: D::spec_max_length(),
                attempt_len: src@.len() as usize,
            },
        ),
{
    let l = src.len();
    if l > D::max_length() {
        return Err(FlagLsError::MaximumLengthExceeded { mx_len: D::max_length(), attempt_len: l });
    }
    let mut out = D::new();
    let mut i: usize = 0;
    while i < l
        invariant
            src.inv(),
            out.inv(),
            i <= l,
            l == src@.len(),
            l <= D::spec_max_length(),
            out@ == src@.take(i as int),
        decreases l - i,
    {
        let f = src.index(i);
        out.push(f);
        proof {
            assert(out@ =~= src@.take((i + 1) as int));
        }
        i = i + 1;
    }
    proof {
        assert(src@.take(l as int) =~= src@);
    }
    Ok(out)
}

/// A list of boolean flags packed one per bit of its backing storage.
///
/// A conforming type supplies the primitive operations; the bulk
/// operations and the checked entry points are derived from them once,
/// here.  The view of a list is the sequence of its flags, front to
/// back; `inv` is the internal well-formedness every operation
/// preserves: the length never exceeds the capacity and the storage
/// holds no live bit at or above the length.
pub trait FlagLs: Sized + View<V = Seq<bool>> {
    /// Internal well-formedness of the representation.
    spec fn inv(&self) -> bool;

    /// The capacity ceiling of this variant.
    spec fn spec_max_length() -> usize;

    /// A well-formed list never holds more flags than its capacity.
    proof fn lemma_len_bounded(&self)
        requires
            self.inv(),
        ensures
            self@.len() <= Self::spec_max_length(),
    ;

    /// The capacity ceiling, as a runtime value.
    fn max_length() -> (r: usize)
        ensures
            r == Self::spec_max_length(),
    ;

    /// Creates an empty list.
    fn new() -> (r: Self)
        ensures
            r.inv(),
            r@ == Seq::<bool>::empty(),
    ;

    /// The number of flags in the list.
    fn len(&self) -> (r: usize)
        requires
            self.inv(),
        ensures
            r == self@.len(),
    ;

    /// Resizes the list: shrinking drops the tail, growing appends
    /// false flags.
    fn set_len(&mut self, new_len: usize)
        requires
            old(self).inv(),
            new_len <= Self::spec_max_length(),
        ensures
            final(self).inv(),
            final(self)@ == (if new_len <= old(self)@.len() {
                old(self)@.take(new_len as int)
            } else {
                old(self)@ + Seq::new((new_len - old(self)@.len()) as nat, |i: int| false)
            }),
    ;

    /// Inserts `flag` so it becomes the flag at `index`, shifting every
    /// flag previously at `index` or above one position higher.
    fn insert(&mut self, index: usize, flag: bool)
        requires
            old(self).inv(),
            index <= old(self)@.len(),
            old(self)@.len() < Self::spec_max_length(),
        ensures
            final(self).inv(),
            final(self)@ == old(self)@.insert(index as int, flag),
    ;

    /// Removes and returns the flag at `index`, shifting every higher
    /// flag one position lower.
    fn remove(&mut self, index: usize) -> (r: bool)
        requires
            old(self).inv(),
            index < old(self)@.len(),
        ensures
            final(self).inv(),
            r == old(self)@[index as int],
            final(self)@ == old(self)@.remove(index as int),
    ;

    /// Resets the list to empty.
    fn clear(&mut self)
        requires
            old(self).inv(),
        ensures
            final(self).inv(),
            final(self)@ == Seq::<bool>::empty(),
    ;

    /// The flag at `index`, or `None` when `index` is out of bounds.
    fn get(&self, index: usize) -> (r: Option<bool>)
        requires
            self.inv(),
        ensures
            r == (if index < self@.len() {
                Some(self@[index as int])
            } else {
                None::<bool>
            }),
    ;

    /// The flag at `index`; the index must be in bounds.
    fn index(&self, index: usize) -> (r: bool)
        requires
            self.inv(),
            index < self@.len(),
        ensures
            r == self@[index as int],
    ;

    /// Overwrites the flag at `index` in place.
    fn set(&mut self, index: usize, flag: bool)
        requires
            old(self).inv(),
            index < old(self)@.len(),
        ensures
            final(self).inv(),
            final(self)@ == old(self)@.update(index as int, flag),
    ;

    /// Attempts to insert at `index`, reporting an out-of-bounds index
    /// or a full list as an error instead of failing.
    fn try_insert(&mut self, index: usize, flag: bool) -> (r: Result<(), FlagLsError>)
        requires
            old(self).inv(),
        ensures
            final(self).inv(),
            index > old(self)@.len() ==> {
                &&& r == Err::<(), FlagLsError>(
                    FlagLsError::IndexOutOfBounds { idx: index, len: old(self)@.len() as usize },
                )
                &&& final(self)@ == old(self)@
            },
            index <= old(self)@.len() && old(self)@.len() >= Self::spec_max_length() ==> {
                &&& r == Err::<(), FlagLsError>(
                    FlagLsError::MaximumLengthExceeded {
                        mx_len: Self::spec_max_length(),
                        attempt_len: grown_len(old(self)@.len()) as usize,
                    },
                )
                &&& final(self)@ == old(self)@
            },
            index <= old(self)@.len() && old(self)@.len() < Self::spec_max_length() ==> {
                &&& r == Ok::<(), FlagLsError>(())
                &&& final(self)@ == old(self)@.insert(index as int, flag)
            },
    {
        proof {
            self.lemma_len_bounded();
        }
        let l = self.len();
        if index > l {
            Err(FlagLsError::IndexOutOfBounds { idx: index, len: l })
        } else if l >= Self::max_length() {
            let attempt: usize = if l < usize::MAX {
                l + 1
            } else {
                l
            };
            Err(FlagLsError::MaximumLengthExceeded { mx_len: Self::max_length(), attempt_len: attempt })
        } else {
            self.insert(index, flag);
            Ok(())
        }
    }

    /// Attempts to remove the flag at `index`, returning it, or `None`
    /// when the index is out of bounds.
    fn try_remove(&mut self, index: usize) -> (r: Option<bool>)
        requires
            old(self).inv(),
        ensures
            final(self).inv(),
            index < old(self)@.len() ==> {
                &&& r == Some(old(self)@[index as int])
                &&& final(self)@ == old(self)@.remove(index as int)
            },
            index >= old(self)@.len() ==> {
                &&& r == None::<bool>
                &&& final(self)@ == old(self)@
            },
    {
        if index < self.len() {
            Some(self.remove(index))
        } else {
            None
        }
    }

    /// Shortens the list to `len` flags; a `len` at or above the current
    /// length leaves the list unchanged.
    fn truncate(&mut self, len: usize)
        requires
            old(self).inv(),
        ensures
            final(self).inv(),
            final(self)@ == (if len < old(self)@.len() {
                old(self)@.take(len as int)
            } else {
                old(self)@
            }),
    {
        proof {
            self.lemma_len_bounded();
        }
        if len < self.len() {
            self.set_len(len);
        }
    }

    /// Attempts to append a flag, reporting a full list as an error
    /// instead of failing.
    fn try_push(&mut self, flag: bool) -> (r: Result<(), FlagLsError>)
        requires
            old(self).inv(),
        ensures
            final(self).inv(),
            old(self)@.len() >= Self::spec_max_length() ==> {
                &&& r == Err::<(), FlagLsError>(
                    FlagLsError::MaximumLengthExceeded {
                        mx_len: Self::spec_max_length(),
                        attempt_len: grown_len(old(self)@.len()) as usize,
                    },
                )
                &&& final(self)@ == old(self)@
            },
            old(self)@.len() < Self::spec_max_length() ==> {
                &&& r == Ok::<(), FlagLsError>(())
                &&& final(self)@ == old(self)@.push(flag)
            },
    {
        proof {
            self.lemma_len_bounded();
        }
        let l = self.len();
        if l >= Self::max_length() {
            let attempt: usize = if l < usize::MAX {
                l + 1
            } else {
                l
            };
            Err(FlagLsError::MaximumLengthExceeded { mx_len: Self::max_length(), attempt_len: attempt })
        } else {
            self.insert(l, flag);
            proof {
                old(self)@.insert_ensures(old(self)@.len() as int, flag);
                assert(final(self)@ =~= old(self)@.push(flag));
            }
            Ok(())
        }
    }

    /// Appends a flag at the end of the list.
    fn push(&mut self, flag: bool)
        requires
            old(self).inv(),
            old(self)@.len() < Self::spec_max_length(),
        ensures
            final(self).inv(),
            final(self)@ == old(self)@.push(flag),
    {
        let l = self.len();
        self.insert(l, flag);
        proof {
            old(self)@.insert_ensures(old(self)@.len() as int, flag);
            assert(final(self)@ =~= old(self)@.push(flag));
        }
    }

    /// Removes and returns the last flag, or `None` when the list is
    /// empty.
    fn pop(&mut self) -> (r: Option<bool>)
        requires
            old(self).inv(),
        ensures
            final(self).inv(),
            old(self)@.len() > 0 ==> {
                &&& r == Some(old(self)@.last())
                &&& final(self)@ == old(self)@.drop_last()
            },
            old(self)@.len() == 0 ==> {
                &&& r == None::<bool>
                &&& final(self)@ == old(self)@
            },
    {
        let l = self.len();
        if l > 0 {
            let out = self.remove(l - 1);
            proof {
                old(self)@.remove_ensures(old(self)@.len() - 1);
                assert(final(self)@ =~= old(self)@.drop_last());
            }
            Some(out)
        } else {
            None
        }
    }

    /// Attempts to overwrite the flag at `index`, returning the prior
    /// flag, or `None` when the index is out of bounds.
    fn try_set(&mut self, index: usize, flag: bool) -> (r: Option<bool>)
        requires
            old(self).inv(),
        ensures
            final(self).inv(),
            index < old(self)@.len() ==> {
                &&& r == Some(old(self)@[index as int])
                &&& final(self)@ == old(self)@.update(index as int, flag)
            },
            index >= old(self)@.len() ==> {
                &&& r == None::<bool>
                &&& final(self)@ == old(self)@
            },
    {
        match self.get(index) {
            Some(prior) => {
                self.set(index, flag);
                Some(prior)
            },
            None => None,
        }
    }

    /// Builds a list holding the flags of `v`, front to back.
    fn from_iter(v: Vec<bool>) -> (r: Self)
        requires
            v@.len() <= Self::spec_max_length(),
        ensures
            r.inv(),
            r@ == v@,
    {
        match Self::try_from_iter(v) {
            Ok(out) => out,
            Err(_) => unreached(),
        }
    }

    /// Attempts to build a list holding the flags of `v`, reporting an
    /// input longer than the capacity as an error.
    fn try_from_iter(v: Vec<bool>) -> (r: Result<Self, FlagLsError>)
        ensures
            v@.len() <= Self::spec_max_length() ==> r is Ok,
            r matches Ok(out) ==> out.inv() && out@ == v@,
            v@.len() > Self::spec_max_length() ==> r == Err::<Self, FlagLsError>(
                FlagLsError::MaximumLengthExceeded {
                    mx_len: Self::spec_max_length(),
                    attempt_len: grown_len(Self::spec_max_length() as nat) as usize,
                },
            ),
    {
        let mut out = Self::new();
        let m = Self::max_length();
        if v.len() > m {
            let attempt: usize = if m < usize::MAX {
                m + 1
            } else {
                m
            };
            return Err(
                FlagLsError::MaximumLengthExceeded { mx_len: m, attempt_len: attempt },
            );
        }
        let mut i: usize = 0;
        while i < v.len()
            invariant
                out.inv(),
                i <= v@.len() <= Self::spec_max_length(),
                out@ == v@.take(i as int),
            decreases v@.len() - i,
        {
            out.push(v[i]);
            proof {
                assert(out@ =~= v@.take((i + 1) as int));
            }
            i = i + 1;
        }
        proof {
            assert(v@.take(v@.len() as int) =~= v@);
        }
        Ok(out)
    }

    /// Builds a list of `len` true flags.
    fn all_true(len: usize) -> (r: Self)
        requires
            len <= Self::spec_max_length(),
        ensures
            r.inv(),
            r@ == Seq::new(len as nat, |i: int| true),
    {
        let mut out = Self::new();
        let mut i: usize = 0;
        while i < len
            invariant
                out.inv(),
                i <= len <= Self::spec_max_length(),
                out@ == Seq::new(i as nat, |j: int| true),
            decreases len - i,
        {
            out.push(true);
            proof {
                assert(out@ =~= Seq::new((i + 1) as nat, |j: int| true));
            }
            i = i + 1;
        }
        out
    }

    /// Builds a list of `len` false flags.
    fn all_false(len: usize) -> (r: Self)
        requires
            len <= Self::spec_max_length(),
        ensures
            r.inv(),
            r@ == Seq::new(len as nat, |i: int| false),
    {
        let mut out = Self::new();
        let mut i: usize = 0;
        while i < len
            invariant
                out.inv(),
                i <= len <= Self::spec_max_length(),
                out@ == Seq::new(i as nat, |j: int| false),
            decreases len - i,
        {
            out.push(false);
            proof {
                assert(out@ =~= Seq::new((i + 1) as nat, |j: int| false));
            }
            i = i + 1;
        }
        out
    }

    /// Whether the list holds no flags.
    fn is_empty(&self) -> (r: bool)
        requires
            self.inv(),
        ensures
            r == (self@.len() == 0),
    {
        self.len() == 0
    }
}

} // verus!

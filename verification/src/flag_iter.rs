//! A cursor over the flags of any list implementing `FlagLs`.
use vstd::prelude::*;

use crate::flagls::FlagLs;

verus! {

/// A double-ended cursor over a flag list.
///
/// `next` reads at the front cursor and advances it; `next_back` reads
/// just below the back cursor and retreats it.  Once the cursors meet,
/// both ends report exhaustion forever.  The cursor never mutates the
/// underlying list.
pub struct Iter<'a, T: FlagLs> {
    inner: &'a T,
    front: usize,
    back: usize,
}

impl<'a, T: FlagLs> Iter<'a, T> {
    /// The flags the cursor walks over.
    pub closed spec fn list(&self) -> Seq<bool> {
        self.inner@
    }

    /// The front cursor: the index of the next flag `next` yields.
    pub closed spec fn pos(&self) -> int {
        self.front as int
    }

    /// The back cursor: one past the index of the next flag `next_back`
    /// yields.
    pub closed spec fn end(&self) -> int {
        self.back as int
    }

    /// Well-formedness: the referenced list is well formed and the
    /// cursors are ordered and in bounds.
    pub closed spec fn wf(&self) -> bool {
        &&& self.inner.inv()
        &&& self.front <= self.back
        &&& self.back <= self.inner@.len()
    }

    /// Creates a cursor over all flags of `ls`.
    pub fn new(ls: &'a T) -> (r: Iter<'a, T>)
        requires
            ls.inv(),
        ensures
            r.wf(),
            r.list() == ls@,
            r.pos() == 0,
            r.end() == ls@.len(),
    {
        Iter { inner: ls, front: 0, back: ls.len() }
    }

    /// Yields the flag at the front cursor and advances it, or reports
    /// exhaustion once the cursors have met.
    pub fn next(&mut self) -> (r: Option<bool>)
        requires
            old(self).wf(),
        ensures
            final(self).wf(),
            final(self).list() == old(self).list(),
            final(self).end() == old(self).end(),
            old(self).pos() < old(self).end() ==> {
                &&& final(self).pos() == old(self).pos() + 1
                &&& r == Some(old(self).list()[old(self).pos()])
            },
            old(self).pos() >= old(self).end() ==> {
                &&& final(self).pos() == old(self).pos()
                &&& r == None::<bool>
            },
    {
        if self.front >= self.back {
            None
        } else {
            let out = self.inner.get(self.front);
            self.front = self.front + 1;
            out
        }
    }

    /// The exact number of flags the cursor has yet to yield.
    pub fn size_hint(&self) -> (r: (usize, Option<usize>))
        requires
            self.wf(),
        ensures
            r.0 == self.end() - self.pos(),
            r.1 == Some(r.0),
    {
        let rem: usize = self.back - self.front;
        (rem, Some(rem))
    }

    /// Yields the flag just below the back cursor and retreats it, or
    /// reports exhaustion once the cursors have met.
    pub fn next_back(&mut self) -> (r: Option<bool>)
        requires
            old(self).wf(),
        ensures
            final(self).wf(),
            final(self).list() == old(self).list(),
            final(self).pos() == old(self).pos(),
            old(self).pos() < old(self).end() ==> {
                &&& final(self).end() == old(self).end() - 1
                &&& r == Some(old(self).list()[old(self).end() - 1])
            },
            old(self).pos() >= old(self).end() ==> {
                &&& final(self).end() == old(self).end()
                &&& r == None::<bool>
            },
    {
        if self.front >= self.back {
            None
        } else {
            let out = self.inner.get(self.back - 1);
            self.back = self.back - 1;
            out
        }
    }
}

} // verus!

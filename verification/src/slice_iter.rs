//! A zero-copy, forward-only cursor over a borrowed slice: lookahead,
//! single-byte and bulk consumption, and a chunked scan used by the string
//! decoder.

use vstd::prelude::*;

verus! {

/// A read position over a borrowed slice. The position only ever moves
/// forward and never passes the end of the slice.
pub struct SliceIter<'a, T: Copy> {
    slice: &'a [T],
    index: usize,
}

impl<'a, T: Copy> SliceIter<'a, T> {
    /// The elements the cursor walks over.
    pub closed spec fn bytes(&self) -> Seq<T> {
        self.slice@
    }

    /// The current read position.
    pub closed spec fn pos(&self) -> int {
        self.index as int
    }

    /// The position never passes the end of the slice.
    pub open spec fn wf(&self) -> bool {
        0 <= self.pos() <= self.bytes().len()
    }

    pub fn new(slice: &'a [T]) -> (r: Self)
        ensures
            r.bytes() == slice@,
            r.pos() == 0,
            r.wf(),
    {
        Self { slice, index: 0 }
    }

    /// The element at the cursor, without consuming it.
    pub fn peek_copy(&self) -> (r: Option<T>)
        requires
            self.wf(),
        ensures
            self.pos() < self.bytes().len() ==> r == Some(self.bytes()[self.pos()]),
            self.pos() >= self.bytes().len() ==> r is None,
    {
        if self.index < self.slice.len() {
            Some(self.slice[self.index])
        } else {
            None
        }
    }

    /// A borrowed view of the next `len` elements, or `None` if fewer remain.
    pub fn peek_many_ref(&self, len: usize) -> (r: Option<&'a [T]>)
        requires
            self.wf(),
        ensures
            self.pos() + len <= self.bytes().len() ==> (r matches Some(sub) && sub@
                == self.bytes().subrange(self.pos(), self.pos() + len)),
            self.pos() + len > self.bytes().len() ==> r is None,
    {
        if len <= self.slice.len() - self.index {
            Some(&self.slice[self.index..self.index + len])
        } else {
            None
        }
    }

    /// How many elements remain ahead of the cursor.
    pub fn remaining(&self) -> (r: usize)
        requires
            self.wf(),
        ensures
            r == self.bytes().len() - self.pos(),
    {
        self.slice.len() - self.index
    }

    /// Consumes and returns one element, or `None` at the end.
    pub fn next(&mut self) -> (r: Option<T>)
        requires
            old(self).wf(),
        ensures
            final(self).wf(),
            final(self).bytes() == old(self).bytes(),
            old(self).pos() < old(self).bytes().len() ==> r == Some(
                old(self).bytes()[old(self).pos()],
            ) && final(self).pos() == old(self).pos() + 1,
            old(self).pos() >= old(self).bytes().len() ==> r is None && final(self).pos() == old(
                self,
            ).pos(),
    {
        if self.index < self.slice.len() {
            let ret = self.slice[self.index];
            self.index = self.index + 1;
            Some(ret)
        } else {
            None
        }
    }

    /// Consumes one element if any remains.
    pub fn ignore_next(&mut self)
        requires
            old(self).wf(),
        ensures
            final(self).wf(),
            final(self).bytes() == old(self).bytes(),
            old(self).pos() < old(self).bytes().len() ==> final(self).pos() == old(self).pos() + 1,
            old(self).pos() >= old(self).bytes().len() ==> final(self).pos() == old(self).pos(),
    {
        if self.index < self.slice.len() {
            self.index = self.index + 1;
        }
    }

    /// Consumes up to `num` elements, stopping at the end of the slice.
    pub fn ignore_many(&mut self, num: usize)
        requires
            old(self).wf(),
        ensures
            final(self).wf(),
            final(self).bytes() == old(self).bytes(),
            old(self).pos() + num <= old(self).bytes().len() ==> final(self).pos() == old(
                self,
            ).pos() + num,
            old(self).pos() + num > old(self).bytes().len() ==> final(self).pos() == old(
                self,
            ).bytes().len(),
    {
        if num <= self.slice.len() - self.index {
            self.index = self.index + num;
        } else {
            self.index = self.slice.len();
        }
    }

}

impl<'a> SliceIter<'a, u8> {
    /// The longest run from the cursor in which no element equals `m1` or
    /// `m2`, consumed and returned as one borrowed slice. The scan tests a
    /// chunk of eight elements at a time and finishes element by element;
    /// the result is the same as a purely element-wise scan.
    pub fn take_while_chunked(&mut self, m1: u8, m2: u8) -> (run: &'a [u8])
        requires
            old(self).wf(),
        ensures
            final(self).wf(),
            final(self).bytes() == old(self).bytes(),
            old(self).pos() <= final(self).pos(),
            run@ == old(self).bytes().subrange(old(self).pos(), final(self).pos()),
            forall|k: int|
                old(self).pos() <= k < final(self).pos() ==> old(self).bytes()[k] != m1 && old(
                    self,
                ).bytes()[k] != m2,
            final(self).pos() < old(self).bytes().len() ==> old(self).bytes()[final(self).pos()]
                == m1 || old(self).bytes()[final(self).pos()] == m2,
    {
        let ghost s = self.slice@;
        let start_idx = self.index;
        let ghost start = self.index as int;
        loop
            invariant
                self.slice@ == s,
                start <= self.index as int <= self.slice@.len(),
                forall|k: int| start <= k < self.index as int ==> s[k] != m1 && s[k] != m2,
            decreases self.slice@.len() - self.index,
        {
            if self.slice.len() - self.index >= 8 {
                let a0 = self.slice[self.index];
                let a1 = self.slice[self.index + 1];
                let a2 = self.slice[self.index + 2];
                let a3 = self.slice[self.index + 3];
                let a4 = self.slice[self.index + 4];
                let a5 = self.slice[self.index + 5];
                let a6 = self.slice[self.index + 6];
                let a7 = self.slice[self.index + 7];
                if !(a0 == m1) && !(a0 == m2) && !(a1 == m1) && !(a1 == m2) && !(a2 == m1) && !(a2
                    == m2) && !(a3 == m1) && !(a3 == m2) && !(a4 == m1) && !(a4 == m2) && !(a5
                    == m1) && !(a5 == m2) && !(a6 == m1) && !(a6 == m2) && !(a7 == m1) && !(a7
                    == m2) {
                    self.index = self.index + 8;
                    continue ;
                }
            }
            break ;
        }
        loop
            invariant
                self.slice@ == s,
                start <= self.index as int <= self.slice@.len(),
                forall|k: int| start <= k < self.index as int ==> s[k] != m1 && s[k] != m2,
            ensures
                self.slice@ == s,
                start <= self.index as int <= self.slice@.len(),
                forall|k: int| start <= k < self.index as int ==> s[k] != m1 && s[k] != m2,
                self.index < s.len() ==> s[self.index as int] == m1 || s[self.index as int] == m2,
            decreases self.slice@.len() - self.index,
        {
            if self.index < self.slice.len() {
                let a = self.slice[self.index];
                if !(a == m1) && !(a == m2) {
                    self.index = self.index + 1;
                    continue ;
                }
            }
            break ;
        }
        &self.slice[start_idx..self.index]
    }
}

/// Copies and returns the next `N` elements as an array, or `None` (after
/// consuming whatever remained) if fewer than `N` remain.
pub fn take_static<const N: usize, T: Default + Copy>(iter: &mut SliceIter<T>) -> (r: Option<
    [T; N],
>)
    requires
        old(iter).wf(),
    ensures
        final(iter).wf(),
        final(iter).bytes() == old(iter).bytes(),
        old(iter).pos() + N <= old(iter).bytes().len() ==> (r matches Some(arr) && arr@ == old(
            iter,
        ).bytes().subrange(old(iter).pos(), old(iter).pos() + N) && final(iter).pos() == old(
            iter,
        ).pos() + N),
        old(iter).pos() + N > old(iter).bytes().len() ==> (r is None && final(iter).pos() == old(
            iter,
        ).bytes().len()),
{
    if iter.remaining() < N {
        iter.ignore_many(N);
        return None;
    }
    let mut i: usize = 0;
    let mut out_buf: [T; N] = [T::default();N];
    while i < N
        invariant
            iter.wf(),
            iter.bytes() == old(iter).bytes(),
            0 <= i <= N,
            old(iter).pos() + N <= iter.bytes().len(),
            iter.pos() == old(iter).pos() + i,
            out_buf@.len() == N,
            forall|k: int| 0 <= k < i ==> out_buf@[k] == iter.bytes()[old(iter).pos() + k],
        decreases N - i,
    {
        if let Some(v) = iter.next() {
            out_buf[i] = v;
            i = i + 1;
        } else {
            return None;
        }
    }
    assert(out_buf@ =~= iter.bytes().subrange(old(iter).pos(), old(iter).pos() + N as int));
    Some(out_buf)
}

} // verus!

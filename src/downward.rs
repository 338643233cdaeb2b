//! A byte buffer that grows toward lower addresses.
//!
//! The live bytes are `inner[next..]`. A byte is addressed by its distance from
//! the end of the buffer, which stays the same when more bytes are added in front
//! or when the storage is moved to a larger allocation.
use vstd::prelude::*;
use vstd::slice::slice_subrange;

verus! {

/// `n` zero bytes.
pub open spec fn zeros(n: nat) -> Seq<u8> {
    Seq::new(n, |i: int| 0u8)
}

/// The largest number of bytes a buffer may hold: every distance within it fits a
/// signed 32-bit offset.
pub const MAX_BUFFER_SIZE: usize = 0x7fff_ffff;

pub(crate) struct VecDownward {
    pub(crate) inner: Vec<u8>,
    pub(crate) next: usize,
}

impl View for VecDownward {
    type V = Seq<u8>;

    closed spec fn view(&self) -> Seq<u8> {
        self.inner@.subrange(self.next as int, self.inner@.len() as int)
    }
}

impl VecDownward {
    pub(crate) open spec fn wf(&self) -> bool {
        self.next <= self.inner@.len()
    }

    pub(crate) fn new(initial_capacity: usize) -> (r: VecDownward)
        ensures
            r.wf(),
            r@ == Seq::<u8>::empty(),
    {
        let inner: Vec<u8> = vec![0u8; initial_capacity];
        let r = VecDownward { inner, next: initial_capacity };
        assert(r@ =~= Seq::<u8>::empty());
        r
    }

    pub(crate) fn data(&self) -> (r: &[u8])
        requires
            self.wf(),
        ensures
            r@ == self@,
    {
        slice_subrange(self.inner.as_slice(), self.next, self.inner.len())
    }

    /// The live bytes from distance `offset` from the end onward.
    pub(crate) fn data_at(&self, offset: usize) -> (r: &[u8])
        requires
            self.wf(),
            offset <= self@.len(),
        ensures
            r@ == self@.subrange(self@.len() - offset, self@.len() as int),
    {
        let len = self.inner.len();
        let r = slice_subrange(self.inner.as_slice(), len - offset, len);
        assert(r@ =~= self@.subrange(self@.len() - offset, self@.len() as int));
        r
    }

    /// Overwrites the live bytes that start at distance `offset` from the end.
    pub(crate) fn write_at(&mut self, offset: usize, dat: &[u8])
        requires
            old(self).wf(),
            dat@.len() <= offset <= old(self)@.len(),
        ensures
            final(self).wf(),
            final(self)@ == old(self)@.subrange(0, old(self)@.len() - offset) + dat@
                + old(self)@.subrange(old(self)@.len() - offset + dat@.len(), old(self)@.len() as int),
    {
        let total = self.inner.len();
        let start = total - offset;
        let mut i: usize = 0;
        while i < dat.len()
            invariant
                self.wf(),
                total == self.inner@.len(),
                self.next == old(self).next,
                self.inner@.len() == old(self).inner@.len(),
                start == self.inner@.len() - offset,
                dat@.len() <= offset <= old(self)@.len(),
                i <= dat@.len(),
                forall|j: int|
                    0 <= j < self.inner@.len() ==> #[trigger] self.inner@[j] == if start <= j < start + i {
                        dat@[j - start]
                    } else {
                        old(self).inner@[j]
                    },
            decreases dat@.len() - i,
        {
            self.inner.set(start + i, dat[i]);
            i = i + 1;
        }
        assert(self@ =~= old(self)@.subrange(0, old(self)@.len() - offset) + dat@
            + old(self)@.subrange(old(self)@.len() - offset + dat@.len(), old(self)@.len() as int));
    }

    pub(crate) fn len(&self) -> (r: usize)
        requires
            self.wf(),
        ensures
            r == self@.len(),
    {
        self.inner.len() - self.next
    }

    pub(crate) fn clear(&mut self)
        requires
            old(self).wf(),
        ensures
            final(self).wf(),
            final(self)@ == Seq::<u8>::empty(),
    {
        self.next = self.inner.len();
        assert(self@ =~= Seq::<u8>::empty());
    }

    /// Makes room for `len` more bytes in front of the live bytes and returns the
    /// index of the first of them. Their contents are not fixed.
    pub(crate) fn make_space(&mut self, len: usize) -> (r: usize)
        requires
            old(self).wf(),
            old(self)@.len() + len <= MAX_BUFFER_SIZE,
        ensures
            final(self).wf(),
            final(self)@.len() == old(self)@.len() + len,
            final(self)@.subrange(len as int, final(self)@.len() as int) == old(self)@,
            r == final(self).next,
            r + final(self)@.len() == final(self).inner@.len(),
            len > old(self).next ==> final(self).inner@.len() == 2 * old(self)@.len() + len,
            len <= old(self).next ==> final(self).inner@.len() == old(self).inner@.len(),
    {
        if len > self.next {
            let live = self.inner.len() - self.next;
            let new_len = 2 * live + len;
            let mut grown: Vec<u8> = vec![0u8; new_len];
            let new_next = new_len - live;
            let total = self.inner.len();
            let mut i: usize = 0;
            while i < live
                invariant
                    self.wf(),
                    total == self.inner@.len(),
                    live == total - self.next,
                    grown@.len() == new_len,
                    new_next + live == new_len,
                    i <= live,
                    forall|j: int|
                        0 <= j < i ==> #[trigger] grown@[new_next + j] == self.inner@[self.next + j],
                decreases live - i,
            {
                grown.set(new_next + i, self.inner[self.next + i]);
                i = i + 1;
            }
            assert forall|j: int| 0 <= j < live implies grown@.subrange(new_next as int, new_len as int)[j] == self@[j] by {
                assert(grown@[new_next + j] == self.inner@[self.next + j]);
            }
            assert(grown@.subrange(new_next as int, new_len as int) =~= self@);
            self.inner = grown;
            self.next = new_next;
        }
        let ghost before = self@;
        self.next = self.next - len;
        assert(self@.subrange(len as int, self@.len() as int) =~= before);
        self.next
    }

    /// Adds the bytes of `dat` in front of the live bytes.
    pub(crate) fn push(&mut self, dat: &[u8])
        requires
            old(self).wf(),
            old(self)@.len() + dat@.len() <= MAX_BUFFER_SIZE,
        ensures
            final(self).wf(),
            final(self)@ == dat@ + old(self)@,
    {
        let off = self.make_space(dat.len());
        let ghost mid = self@;
        let total = self.inner.len();
        let mut i: usize = 0;
        while i < dat.len()
            invariant
                self.wf(),
                off == self.next,
                off + mid.len() == self.inner@.len(),
                total == self.inner@.len(),
                mid.len() == old(self)@.len() + dat@.len(),
                mid.subrange(dat@.len() as int, mid.len() as int) == old(self)@,
                i <= dat@.len(),
                self@.len() == mid.len(),
                forall|j: int| 0 <= j < i ==> #[trigger] self.inner@[off + j] == dat@[j],
                forall|j: int|
                    dat@.len() <= j < mid.len() ==> #[trigger] self.inner@[off + j] == mid[j],
            decreases dat@.len() - i,
        {
            self.inner.set(off + i, dat[i]);
            i = i + 1;
        }
        assert(self@ =~= dat@ + old(self)@) by {
            assert forall|j: int| 0 <= j < self@.len() implies self@[j] == (dat@ + old(self)@)[j] by {
                assert(self@[j] == self.inner@[off + j]);
                if j >= dat@.len() {
                    assert(mid.subrange(dat@.len() as int, mid.len() as int)[j - dat@.len()] == mid[j]);
                }
            }
        }
    }

    /// Adds `len` zero bytes in front of the live bytes.
    pub(crate) fn fill(&mut self, len: usize)
        requires
            old(self).wf(),
            old(self)@.len() + len <= MAX_BUFFER_SIZE,
        ensures
            final(self).wf(),
            final(self)@ == zeros(len as nat) + old(self)@,
    {
        let off = self.make_space(len);
        let ghost mid = self@;
        let total = self.inner.len();
        let mut i: usize = 0;
        while i < len
            invariant
                self.wf(),
                off == self.next,
                off + mid.len() == self.inner@.len(),
                total == self.inner@.len(),
                mid.len() == old(self)@.len() + len,
                mid.subrange(len as int, mid.len() as int) == old(self)@,
                i <= len,
                self@.len() == mid.len(),
                forall|j: int| 0 <= j < i ==> #[trigger] self.inner@[off + j] == 0u8,
                forall|j: int| len <= j < mid.len() ==> #[trigger] self.inner@[off + j] == mid[j],
            decreases len - i,
        {
            self.inner.set(off + i, 0);
            i = i + 1;
        }
        assert(self@ =~= zeros(len as nat) + old(self)@) by {
            assert forall|j: int| 0 <= j < self@.len() implies self@[j] == (zeros(len as nat) + old(self)@)[j] by {
                assert(self@[j] == self.inner@[off + j]);
                if j >= len {
                    assert(mid.subrange(len as int, mid.len() as int)[j - len] == mid[j]);
                }
            }
        }
    }

    /// Drops `len` bytes from the front of the live bytes.
    pub(crate) fn pop(&mut self, len: usize)
        requires
            old(self).wf(),
            len <= old(self)@.len(),
        ensures
            final(self).wf(),
            final(self)@ == old(self)@.subrange(len as int, old(self)@.len() as int),
    {
        let total = self.inner.len();
        self.next = self.next + len;
        assert(self@ =~= old(self)@.subrange(len as int, old(self)@.len() as int));
    }
}

} // verus!

//! A read cursor over an owned byte buffer.

use vstd::prelude::*;

verus! {

/// A byte buffer with a read position.
pub struct ValueCursor {
    index: usize,
    value: Vec<u8>,
}

impl ValueCursor {
    /// The bytes under the cursor.
    pub closed spec fn data(&self) -> Seq<u8> {
        self.value@
    }

    /// The read position.
    pub closed spec fn pos(&self) -> int {
        self.index as int
    }

    /// The position never passes the end of the buffer.
    pub open spec fn wf(&self) -> bool {
        0 <= self.pos() <= self.data().len() <= usize::MAX
    }

    pub fn new(value: Vec<u8>) -> (r: ValueCursor)
        ensures
            r.wf(),
            r.data() == value@,
            r.pos() == 0,
    {
        // the length of a vector fits in usize
        let _len = value.len();
        ValueCursor { index: 0, value }
    }

    pub fn skip_next(&mut self)
        requires
            old(self).wf(),
            old(self).pos() < old(self).data().len(),
        ensures
            final(self).wf(),
            final(self).data() == old(self).data(),
            final(self).pos() == old(self).pos() + 1,
    {
        self.skip_by(1);
    }

    pub fn skip_by(&mut self, n: usize)
        requires
            old(self).wf(),
            old(self).pos() + n <= old(self).data().len(),
        ensures
            final(self).wf(),
            final(self).data() == old(self).data(),
            final(self).pos() == old(self).pos() + n,
    {
        self.index = self.index + n;
    }

    pub fn skip_reverse_by(&mut self, n: usize)
        requires
            old(self).wf(),
            n <= old(self).pos(),
        ensures
            final(self).wf(),
            final(self).data() == old(self).data(),
            final(self).pos() == old(self).pos() - n,
    {
        self.index = self.index - n;
    }

    pub fn skip_rest(&mut self)
        requires
            old(self).wf(),
        ensures
            final(self).wf(),
            final(self).data() == old(self).data(),
            final(self).pos() == old(self).data().len(),
    {
        self.index = self.value.len();
    }

    pub fn read_next(&mut self) -> (r: u8)
        requires
            old(self).wf(),
            old(self).pos() < old(self).data().len(),
        ensures
            final(self).wf(),
            final(self).data() == old(self).data(),
            final(self).pos() == old(self).pos() + 1,
            r == old(self).data()[old(self).pos()],
    {
        let i = self.index;
        self.index = self.index + 1;
        self.value[i]
    }

    pub fn peek(&self) -> (r: u8)
        requires
            self.wf(),
            self.pos() < self.data().len(),
        ensures
            r == self.data()[self.pos()],
    {
        self.value[self.index]
    }

    pub fn read_by(&mut self, n: usize) -> (r: &[u8])
        requires
            old(self).wf(),
            old(self).pos() + n <= old(self).data().len(),
        ensures
            final(self).wf(),
            final(self).data() == old(self).data(),
            final(self).pos() == old(self).pos() + n,
            r@ == old(self).data().subrange(old(self).pos(), old(self).pos() + n),
    {
        let i = self.index;
        self.index = self.index + n;
        &self.value[i..self.index]
    }

    pub fn read_range(&self, range: std::ops::Range<usize>) -> (r: &[u8])
        requires
            range.start <= range.end <= self.data().len(),
        ensures
            r@ == self.data().subrange(range.start as int, range.end as int),
    {
        &self.value[range]
    }

    pub fn get_index(&self) -> (r: usize)
        ensures
            r == self.pos(),
    {
        self.index
    }

    pub fn get_value_ref(&self) -> (r: &[u8])
        ensures
            r@ == self.data(),
    {
        self.value.as_slice()
    }

    pub fn get_value(self) -> (r: Vec<u8>)
        ensures
            r@ == self.data(),
    {
        self.value
    }
}

} // verus!

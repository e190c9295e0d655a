//! An append-only byte sink with in-place patching of earlier bytes.

use vstd::prelude::*;

verus! {

/// Output bytes of a transcoder.
pub struct Parsed {
    parsed: Vec<u8>,
}

impl View for Parsed {
    type V = Seq<u8>;

    closed spec fn view(&self) -> Seq<u8> {
        self.parsed@
    }
}

impl Parsed {
    pub fn new() -> (r: Parsed)
        ensures
            r@ == Seq::<u8>::empty(),
    {
        Parsed { parsed: Vec::new() }
    }

    pub fn with_capacity(capacity: usize) -> (r: Parsed)
        ensures
            r@ == Seq::<u8>::empty(),
    {
        Parsed { parsed: Vec::with_capacity(capacity) }
    }

    pub fn get_parsed(self) -> (r: Vec<u8>)
        ensures
            r@ == self@,
    {
        self.parsed
    }

    pub fn get_parsed_clone(&self) -> (r: Vec<u8>)
        ensures
            r@ == self@,
    {
        let mut r: Vec<u8> = Vec::with_capacity(self.parsed.len());
        let mut i: usize = 0;
        while i < self.parsed.len()
            invariant
                i <= self.parsed@.len(),
                r@ == self.parsed@.subrange(0, i as int),
            decreases self.parsed@.len() - i,
        {
            r.push(self.parsed[i]);
            i = i + 1;
            assert(r@ =~= self.parsed@.subrange(0, i as int));
        }
        assert(r@ =~= self.parsed@);
        r
    }

    pub fn get_parsed_len(&self) -> (r: usize)
        ensures
            r == self@.len(),
    {
        self.parsed.len()
    }

    pub fn write(&mut self, val: u8)
        ensures
            final(self)@ == old(self)@.push(val),
    {
        self.parsed.push(val);
    }

    pub fn write_slice(&mut self, slice: &[u8])
        ensures
            final(self)@ == old(self)@ + slice@,
    {
        let ghost start = self.parsed@;
        let mut i: usize = 0;
        while i < slice.len()
            invariant
                i <= slice@.len(),
                self.parsed@ == start + slice@.subrange(0, i as int),
            decreases slice@.len() - i,
        {
            self.parsed.push(slice[i]);
            i = i + 1;
            assert(self.parsed@ =~= start + slice@.subrange(0, i as int));
        }
        assert(slice@.subrange(0, i as int) =~= slice@);
    }

    /// Overwrites the bytes from `start` on with `slice`.
    pub fn rewrite_slice(&mut self, start: usize, slice: &[u8])
        requires
            start + slice@.len() <= old(self)@.len(),
        ensures
            final(self)@.len() == old(self)@.len(),
            final(self)@.subrange(start as int, start + slice@.len()) == slice@,
            forall|j: int|
                0 <= j < old(self)@.len() && !(start <= j < start + slice@.len())
                    ==> #[trigger] final(self)@[j] == old(self)@[j],
    {
        let ghost before = self.parsed@;
        let total = self.parsed.len();
        let mut i: usize = 0;
        while i < slice.len()
            invariant
                i <= slice@.len(),
                start + slice@.len() <= before.len() == total,
                self.parsed@.len() == before.len(),
                forall|j: int|
                    0 <= j < before.len() && !(start <= j < start + i) ==> #[trigger] self.parsed@[j]
                        == before[j],
                forall|j: int| start <= j < start + i ==> #[trigger] self.parsed@[j] == slice@[j - start],
            decreases slice@.len() - i,
        {
            self.parsed.set(start + i, slice[i]);
            i = i + 1;
        }
        assert(self.parsed@.subrange(start as int, start + slice@.len()) =~= slice@);
    }
}

} // verus!

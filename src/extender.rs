//! A pass over JSON text that copies it byte by byte.

use vstd::prelude::*;

verus! {

/// Copies JSON text into a new buffer, one byte at a time.
pub struct Extender {
    original: Vec<u8>,
    extended: Vec<u8>,
    stack: Vec<usize>,
    index: usize,
}

impl Extender {
    /// The text being copied.
    pub closed spec fn text(&self) -> Seq<u8> {
        self.original@
    }

    pub fn new(original: Vec<u8>) -> (r: Extender)
        ensures
            r.text() == original@,
    {
        let stack = Vec::new();
        let extended = Vec::new();
        Extender { original, stack, extended, index: 0 }
    }

    /// The copy of the whole text.
    pub fn extend(self) -> (r: Vec<u8>)
        ensures
            r@ == self.text(),
    {
        let mut e = self;
        e.index = 0;
        e.extended = Vec::new();
        let n = e.original.len();
        while e.index < e.original.len()
            invariant
                e.original@ == self.original@,
                e.index <= e.original@.len() == n,
                e.extended@ == e.original@.subrange(0, e.index as int),
            decreases e.original@.len() - e.index,
        {
            e.read_next();
        }
        assert(e.original@.subrange(0, e.index as int) =~= e.original@);
        e.extended
    }

    fn read_next(&mut self) -> (r: u8)
        requires
            old(self).index < old(self).original@.len() <= usize::MAX,
            old(self).extended@ == old(self).original@.subrange(0, old(self).index as int),
        ensures
            final(self).original == old(self).original,
            final(self).index == old(self).index + 1,
            final(self).extended@ == final(self).original@.subrange(0, final(self).index as int),
            r == old(self).original@[old(self).index as int],
    {
        let prev = self.index;
        self.index = self.index + 1;
        let val = self.original[prev];
        self.extended.push(val);
        assert(self.extended@ =~= self.original@.subrange(0, self.index as int));
        val
    }
}

} // verus!

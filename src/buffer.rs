//! A fixed-length, zero-initialised byte region with a single owner.
use vstd::prelude::*;

verus! {

/// An owned byte region whose length is fixed when it is created.
pub struct Buffer {
    bytes: Vec<u8>,
}

impl View for Buffer {
    type V = Seq<u8>;

    closed spec fn view(&self) -> Seq<u8> {
        self.bytes@
    }
}

impl Buffer {
    /// A region of `len` zero bytes.
    pub fn new(len: usize) -> (r: Buffer)
        ensures
            r@ == Seq::new(len as nat, |_i: int| 0u8),
    {
        let mut bytes: Vec<u8> = Vec::with_capacity(len);
        let mut i: usize = 0;
        while i < len
            invariant
                i <= len,
                bytes@ == Seq::new(i as nat, |_i: int| 0u8),
            decreases len - i,
        {
            bytes.push(0u8);
            i = i + 1;
        }
        Buffer { bytes }
    }

    pub fn len(&self) -> (r: usize)
        ensures
            r == self@.len(),
    {
        self.bytes.len()
    }

    pub fn as_slice(&self) -> (r: &[u8])
        ensures
            r@ == self@,
    {
        self.bytes.as_slice()
    }

    /// Overwrites the bytes at `offset .. offset + src.len()` with `src`; the
    /// length of the region never changes.
    pub fn write_at(&mut self, offset: usize, src: &[u8])
        requires
            offset + src@.len() <= old(self)@.len(),
        ensures
            final(self)@ == old(self)@.subrange(0, offset as int) + src@ + old(self)@.subrange(
                offset + src@.len(),
                old(self)@.len() as int,
            ),
    {
        let total = self.bytes.len();
        let mut i: usize = 0;
        while i < src.len()
            invariant
                i <= src@.len(),
                total == old(self)@.len(),
                offset + src@.len() <= old(self)@.len(),
                self@.len() == old(self)@.len(),
                forall|j: int| 0 <= j < offset ==> self@[j] == old(self)@[j],
                forall|j: int| 0 <= j < i ==> self@[offset + j] == src@[j],
                forall|j: int| offset + i <= j < self@.len() ==> self@[j] == old(self)@[j],
            decreases src@.len() - i,
        {
            self.bytes.set(offset + i, src[i]);
            i = i + 1;
        }
        assert(self@ =~= old(self)@.subrange(0, offset as int) + src@ + old(self)@.subrange(
            offset + src@.len(),
            old(self)@.len() as int,
        ));
    }
}

} // verus!

use vstd::prelude::*;

verus! {

/// A cursor over a buffer of input bytes: what is left to read is its view.
pub struct ByteStream {
    bytes: Vec<u8>,
    pos: usize,
}

impl ByteStream {
    #[verifier::type_invariant]
    spec fn well_formed(self) -> bool {
        self.pos <= self.bytes.len()
    }

    /// The bytes that are still to be read, in order.
    pub closed spec fn remaining(self) -> Seq<u8> {
        self.bytes@.subrange(self.pos as int, self.bytes@.len() as int)
    }

    /// A stream that yields `bytes` in order.
    pub fn new(bytes: Vec<u8>) -> (s: ByteStream)
        ensures
            s@ == bytes@,
    {
        let s = ByteStream { bytes, pos: 0 };
        assert(s.bytes@.subrange(0, s.bytes@.len() as int) =~= s.bytes@);
        s
    }

    /// The next byte, or `None` once the stream is exhausted.
    pub fn next(&mut self) -> (r: Option<u8>)
        ensures
            old(self)@.len() > 0 ==> r == Some(old(self)@[0]) && final(self)@ == old(self)@.drop_first(),
            old(self)@.len() == 0 ==> r is None && final(self)@ == old(self)@,
    {
        proof { use_type_invariant(&*self); }
        if self.pos < self.bytes.len() {
            let b = self.bytes[self.pos];
            self.pos = self.pos + 1;
            assert(self@ =~= old(self)@.drop_first());
            Some(b)
        } else {
            None
        }
    }

    /// The number of bytes that are still to be read.
    pub fn len(&self) -> (n: usize)
        ensures
            n == self@.len(),
    {
        proof { use_type_invariant(self); }
        self.bytes.len() - self.pos
    }
}

impl View for ByteStream {
    type V = Seq<u8>;

    open spec fn view(&self) -> Seq<u8> {
        self.remaining()
    }
}

} // verus!

use vstd::prelude::*;

verus! {

/// An append-only byte destination: the only thing the encode side writes
/// through. Writes are unconditionally successful (memory-only, no I/O
/// failure model); the only effect is growth of the byte sequence.
pub trait NestedEncodeOutput {
    /// The bytes written so far.
    spec fn bytes(&self) -> Seq<u8>;

    /// Append one byte.
    fn push_byte(&mut self, b: u8)
        ensures
            final(self).bytes() == old(self).bytes().push(b),
    ;

    /// Append a whole slice.
    fn write(&mut self, bytes: &[u8])
        ensures
            final(self).bytes() == old(self).bytes() + bytes@,
    ;
}

/// The growable buffer implementation.
impl NestedEncodeOutput for Vec<u8> {
    open spec fn bytes(&self) -> Seq<u8> {
        self@
    }

    fn push_byte(&mut self, b: u8) {
        self.push(b);
    }

    fn write(&mut self, bytes: &[u8]) {
        let mut i: usize = 0;
        while i < bytes.len()
            invariant
                i <= bytes@.len(),
                self@ == old(self)@ + bytes@.subrange(0, i as int),
            decreases bytes@.len() - i,
        {
            self.push(bytes[i]);
            proof {
                assert(old(self)@ + bytes@.subrange(0, i as int) + seq![bytes@[i as int]] =~= old(
                    self,
                )@ + bytes@.subrange(0, i + 1));
            }
            i += 1;
        }
        proof {
            assert(bytes@.subrange(0, bytes@.len() as int) =~= bytes@);
        }
    }
}

} // verus!

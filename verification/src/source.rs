//! A pull-based source of bytes held in memory.

use vstd::prelude::*;

verus! {

/// A sequence of bytes that is read front to back, one byte at a time.
pub struct ByteSource {
    bytes: Vec<u8>,
    pos: usize,
}

impl View for ByteSource {
    type V = Seq<u8>;

    /// The bytes not yet read, in the order in which they will come.
    closed spec fn view(&self) -> Seq<u8> {
        if self.pos <= self.bytes.len() {
            self.bytes@.skip(self.pos as int)
        } else {
            Seq::empty()
        }
    }
}

impl ByteSource {
    /// A source that will yield `bytes` from its first byte on.
    pub fn new(bytes: Vec<u8>) -> (source: ByteSource)
        ensures
            source@ == bytes@,
    {
        ByteSource { bytes, pos: 0 }
    }

    /// Takes the next byte, or reports that none is left. A source that has
    /// run dry stays as it is.
    pub fn next_byte(&mut self) -> (byte: Option<u8>)
        ensures
            old(self)@.len() == 0 ==> byte is None && final(self)@ == old(self)@,
            old(self)@.len() > 0 ==> byte == Some(old(self)@[0]) && final(self)@ == old(self)@.skip(
                1,
            ),
    {
        if self.pos < self.bytes.len() {
            let byte = self.bytes[self.pos];
            self.pos = self.pos + 1;
            Some(byte)
        } else {
            None
        }
    }
}

} // verus!

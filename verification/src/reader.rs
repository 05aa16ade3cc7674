//! Decoding as methods of a byte source.

use crate::decode::{signed_read, unsigned_read, vsN, vuN};
use crate::error::DecodeError;
use crate::source::ByteSource;
use vstd::prelude::*;

verus! {

/// A source of bytes from which LEB128 integers can be read.
pub trait ReadLEB {
    /// The bytes that the source has yet to yield.
    spec fn upcoming(&self) -> Seq<u8>;

    /// Reads an unsigned integer of at most `max_bits` bits.
    fn read_varuint(&mut self, max_bits: i8) -> (result: Result<u64, DecodeError>)
        requires
            max_bits > 0,
        ensures
            unsigned_read(old(self).upcoming(), max_bits as int, result, final(self).upcoming()),
    ;

    /// Reads a signed integer of at most `max_bits` bits.
    fn read_varint(&mut self, max_bits: i8) -> (result: Result<i64, DecodeError>)
        requires
            max_bits > 0,
        ensures
            signed_read(old(self).upcoming(), max_bits as int, result, final(self).upcoming()),
    ;
}

impl ReadLEB for ByteSource {
    open spec fn upcoming(&self) -> Seq<u8> {
        self@
    }

    fn read_varuint(&mut self, max_bits: i8) -> (result: Result<u64, DecodeError>) {
        vuN(self, max_bits as i64)
    }

    fn read_varint(&mut self, max_bits: i8) -> (result: Result<i64, DecodeError>) {
        vsN(self, max_bits as i64)
    }
}

} // verus!

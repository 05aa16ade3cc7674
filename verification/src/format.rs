//! What a run of LEB128 bytes means.
//!
//! Every encoded byte carries seven value bits, least-significant group
//! first, and one continuation bit. The functions here say, for a sequence of
//! bytes and a declared width, which integer the sequence stands for, how
//! many bytes belong to it, and when it has to be rejected.

use crate::error::DecodeError;
use vstd::prelude::*;

verus! {

/// The seven value bits of an encoded byte.
pub open spec fn payload(byte: u8) -> int {
    byte as int % 128
}

/// Whether the continuation bit of the byte is set: more bytes follow.
pub open spec fn continues(byte: u8) -> bool {
    byte >= 128
}

/// The value bits of the byte read as a seven-bit two's-complement number:
/// bit 6 is the sign.
pub open spec fn sign_extended(byte: u8) -> int {
    if payload(byte) >= 64 {
        payload(byte) - 128
    } else {
        payload(byte)
    }
}

/// Two to the power of the number of bits that one group may use when
/// `max_bits` bits of the declared width are left: all seven of them, or
/// fewer near the end of the width.
pub open spec fn group_limit(max_bits: int) -> int {
    if max_bits >= 7 {
        128
    } else if max_bits == 6 {
        64
    } else if max_bits == 5 {
        32
    } else if max_bits == 4 {
        16
    } else if max_bits == 3 {
        8
    } else if max_bits == 2 {
        4
    } else if max_bits == 1 {
        2
    } else {
        1
    }
}

/// Whether the value bits of the byte respect the width that is left.
///
/// Unsigned: no bit at position `max_bits` or above is set. Signed: the bits
/// at position `max_bits` and above are all equal, so that they only repeat
/// the sign.
pub open spec fn fits(byte: u8, max_bits: int, signed: bool) -> bool {
    if signed {
        -group_limit(max_bits) <= sign_extended(byte) < group_limit(max_bits)
    } else {
        payload(byte) < group_limit(max_bits)
    }
}

/// What the last byte of a group contributes: its value bits, sign-extended
/// in the signed reading.
pub open spec fn last_group(byte: u8, signed: bool) -> int {
    if signed {
        sign_extended(byte)
    } else {
        payload(byte)
    }
}

/// The outcome of decoding one integer from the front of a byte sequence.
pub struct Decoding {
    /// The integer that the bytes stand for, or why there is none.
    pub result: Result<int, DecodeError>,
    /// How many bytes were taken from the sequence, also on failure.
    pub consumed: nat,
}

/// Decodes one integer of at most `max_bits` bits from the front of `bytes`.
///
/// With no width left nothing is read and the encoding is rejected. Else one
/// byte is read; it must respect the width; if its continuation bit is clear
/// it ends the group, and otherwise the rest of the group is decoded with
/// seven bits less and placed above the byte's own seven bits.
pub open spec fn decoding(bytes: Seq<u8>, max_bits: int, signed: bool) -> Decoding
    decreases bytes.len(),
{
    if max_bits <= 0 {
        Decoding { result: Err(DecodeError::OverflowOrInvalidEncoding), consumed: 0 }
    } else if bytes.len() == 0 {
        Decoding { result: Err(DecodeError::EndOfStream), consumed: 0 }
    } else if !fits(bytes[0], max_bits, signed) {
        Decoding { result: Err(DecodeError::OverflowOrInvalidEncoding), consumed: 1 }
    } else if !continues(bytes[0]) {
        Decoding { result: Ok(last_group(bytes[0], signed)), consumed: 1 }
    } else {
        let rest = decoding(bytes.skip(1), max_bits - 7, signed);
        Decoding {
            result: match rest.result {
                Ok(high) => Ok(payload(bytes[0]) + 128 * high),
                Err(error) => Err(error),
            },
            consumed: rest.consumed + 1,
        }
    }
}

/// The unsigned reading of the front of `bytes`.
pub open spec fn unsigned_decoding(bytes: Seq<u8>, max_bits: int) -> Decoding {
    decoding(bytes, max_bits, false)
}

/// The signed reading of the front of `bytes`.
pub open spec fn signed_decoding(bytes: Seq<u8>, max_bits: int) -> Decoding {
    decoding(bytes, max_bits, true)
}

/// The low 64 bits of an integer, as a number from 0 to 2^64 - 1.
pub open spec fn low_64(value: int) -> int {
    value % 0x1_0000_0000_0000_0000
}

/// The low 64 bits of an integer read as a two's-complement number.
pub open spec fn twos_complement_64(value: int) -> int {
    if low_64(value) >= 0x8000_0000_0000_0000 {
        low_64(value) - 0x1_0000_0000_0000_0000
    } else {
        low_64(value)
    }
}

/// What an unsigned decode hands back for a decoding: the value in a `u64`.
/// A value of a declared width beyond 64 bits keeps its low 64 bits.
pub open spec fn unsigned_result(outcome: Decoding) -> Result<u64, DecodeError> {
    match outcome.result {
        Ok(value) => Ok(low_64(value) as u64),
        Err(error) => Err(error),
    }
}

/// What a signed decode hands back for a decoding: the bit pattern of the
/// value in an `i64`.
pub open spec fn signed_result(outcome: Decoding) -> Result<i64, DecodeError> {
    match outcome.result {
        Ok(value) => Ok(twos_complement_64(value) as i64),
        Err(error) => Err(error),
    }
}

} // verus!

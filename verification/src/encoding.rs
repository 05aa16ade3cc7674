//! The standard encodings of integers, and that decoding undoes them.

use crate::decode::{signed_read, unsigned_read};
use crate::error::DecodeError;
use crate::format::{signed_decoding, unsigned_decoding, Decoding};
use crate::laws::lemma_group_limit_within_width;
use vstd::arithmetic::power2::{lemma2_to64, lemma_pow2_strictly_increases, pow2};
use vstd::prelude::*;

verus! {

/// The LEB128 encoding of `value`: its bits in groups of seven, the lowest
/// group first, as few groups as hold the value, every byte but the last
/// with its continuation bit set.
pub open spec fn unsigned_encoding(value: nat) -> Seq<u8>
    decreases value,
{
    if value < 128 {
        seq![value as u8]
    } else {
        seq![(value % 128 + 128) as u8] + unsigned_encoding(value / 128)
    }
}

/// Decoding undoes encoding: an unsigned integer that fits within
/// `max_bits` bits, encoded and then decoded with that width, comes back as
/// it was. The decoding takes the bytes of the encoding and leaves whatever
/// follows them.
pub proof fn lemma_unsigned_round_trip(value: nat, max_bits: int, rest: Seq<u8>)
    requires
        max_bits > 0,
        value < pow2(max_bits as nat),
    ensures
        unsigned_decoding(unsigned_encoding(value) + rest, max_bits) == (Decoding {
            result: Ok::<int, DecodeError>(value as int),
            consumed: unsigned_encoding(value).len(),
        }),
        value <= u64::MAX ==> unsigned_read(
            unsigned_encoding(value) + rest,
            max_bits,
            Ok::<u64, DecodeError>(value as u64),
            rest,
        ),
    decreases value,
{
    let bytes: Seq<u8> = unsigned_encoding(value) + rest;
    lemma2_to64();
    lemma_group_limit_within_width(max_bits);
    if value < 128 {
        assert(bytes[0] == value as u8);
        if max_bits < 7 {
            assert(crate::format::group_limit(max_bits) == pow2(max_bits as nat));
        }
    } else {
        if max_bits < 7 {
            lemma_pow2_strictly_increases(max_bits as nat, 7);
        }
        assert(max_bits > 7);
        let first: u8 = (value % 128 + 128) as u8;
        assert(bytes[0] == first);
        assert(bytes.skip(1) =~= unsigned_encoding(value / 128) + rest);
        lemma_unsigned_round_trip(value / 128, max_bits - 7, rest);
    }
    assert(bytes.skip(unsigned_encoding(value).len() as int) =~= rest);
}

/// The signed LEB128 encoding of `value`: its two's-complement bits in
/// groups of seven, the lowest group first, as few groups as leave the sign
/// in bit 6 of the last one, every byte but the last with its continuation
/// bit set.
pub open spec fn signed_encoding(value: int) -> Seq<u8>
    decreases
            (if value >= 0 {
                value
            } else {
                -value
            }),
{
    if -64 <= value < 64 {
        seq![(value % 128) as u8]
    } else {
        seq![(value % 128 + 128) as u8] + signed_encoding(value / 128)
    }
}

/// Decoding undoes encoding: a signed integer that fits within `max_bits`
/// bits of two's complement, encoded and then decoded with that width, comes
/// back as it was. The decoding takes the bytes of the encoding and leaves
/// whatever follows them.
pub proof fn lemma_signed_round_trip(value: int, max_bits: int, rest: Seq<u8>)
    requires
        max_bits > 0,
        -pow2((max_bits - 1) as nat) <= value < pow2((max_bits - 1) as nat),
    ensures
        signed_decoding(signed_encoding(value) + rest, max_bits) == (Decoding {
            result: Ok::<int, DecodeError>(value),
            consumed: signed_encoding(value).len(),
        }),
        i64::MIN <= value <= i64::MAX ==> signed_read(
            signed_encoding(value) + rest,
            max_bits,
            Ok::<i64, DecodeError>(value as i64),
            rest,
        ),
    decreases
            (if value >= 0 {
                value
            } else {
                -value
            }),
{
    let bytes: Seq<u8> = signed_encoding(value) + rest;
    lemma2_to64();
    lemma_group_limit_within_width(max_bits);
    if max_bits < 7 {
        assert(crate::format::group_limit(max_bits) == pow2(max_bits as nat));
    }
    if max_bits <= 7 {
        assert(pow2((max_bits - 1) as nat) <= 64);
    }
    if -64 <= value < 64 {
        assert(bytes[0] == (value % 128) as u8);
    } else {
        assert(max_bits > 7);
        lemma_group_limit_within_width(max_bits - 1);
        let first: u8 = (value % 128 + 128) as u8;
        assert(bytes[0] == first);
        assert(bytes.skip(1) =~= signed_encoding(value / 128) + rest);
        lemma_signed_round_trip(value / 128, max_bits - 7, rest);
    }
    assert(bytes.skip(signed_encoding(value).len() as int) =~= rest);
}

} // verus!

//! Decoding one integer from a byte source.

use crate::error::DecodeError;
use crate::format::{signed_decoding, signed_result, unsigned_decoding, unsigned_result};
use crate::laws::{lemma_decoding_ignores_what_follows, lemma_value_within_width};
use crate::partial::{Partial, Step};
use crate::source::ByteSource;
use vstd::arithmetic::power2::{lemma2_to64, lemma2_to64_rest, lemma_pow2_strictly_increases,
    pow2};
use vstd::prelude::*;

verus! {

/// What an unsigned decode of at most `max_bits` bits does to a source that
/// holds `before`: it hands back the unsigned decoding of those bytes and
/// leaves in the source what follows the bytes that the decoding consumed.
pub open spec fn unsigned_read(
    before: Seq<u8>,
    max_bits: int,
    result: Result<u64, DecodeError>,
    after: Seq<u8>,
) -> bool {
    &&& result == unsigned_result(unsigned_decoding(before, max_bits))
    &&& after == before.skip(unsigned_decoding(before, max_bits).consumed as int)
}

/// What a signed decode of at most `max_bits` bits does to a source that
/// holds `before`: it hands back the signed decoding of those bytes and
/// leaves in the source what follows the bytes that the decoding consumed.
pub open spec fn signed_read(
    before: Seq<u8>,
    max_bits: int,
    result: Result<i64, DecodeError>,
    after: Seq<u8>,
) -> bool {
    &&& result == signed_result(signed_decoding(before, max_bits))
    &&& after == before.skip(signed_decoding(before, max_bits).consumed as int)
}

/// Decodes an unsigned integer of at most `max_bits` bits from the front of
/// `buffer`.
///
/// The bytes of the integer are taken from the source and no others; after a
/// failure the bytes read up to it are gone. A width of at most 64 bits
/// yields the value itself.
#[allow(non_snake_case)]
pub fn vuN(buffer: &mut ByteSource, max_bits: i64) -> (result: Result<u64, DecodeError>)
    requires
        max_bits > 0,
    ensures
        unsigned_read(old(buffer)@, max_bits as int, result, final(buffer)@),
        old(buffer)@.len() == 0 ==> result == Err::<u64, DecodeError>(DecodeError::EndOfStream),
        max_bits <= 64 ==> (result matches Ok(value) ==> unsigned_decoding(
            old(buffer)@,
            max_bits as int,
        ).result == Ok::<int, DecodeError>(value as int)),
{
    let ghost before: Seq<u8> = buffer@;
    let mut state: Partial = Partial::new(max_bits);
    assert(before =~= state.fed() + buffer@);
    loop
        invariant
            before == old(buffer)@,
            before == state.fed() + buffer@,
            state.max_bits() == max_bits,
            max_bits > 0,
        decreases buffer@.len(),
    {
        let ghost fed: Seq<u8> = state.fed();
        let input: Option<u8> = buffer.next_byte();
        let step: Step<u64> = state.unsigned_step(input);
        proof {
            let taken: Seq<u8> = match input {
                Some(byte) => fed.push(byte),
                None => fed,
            };
            assert(before =~= taken + buffer@);
            assert(before.skip(taken.len() as int) =~= buffer@);
            if !(step is More) && input is Some {
                lemma_decoding_ignores_what_follows(taken, buffer@, max_bits as int, false);
            }
            if input is None {
                assert(before =~= taken);
            }
            lemma_value_within_width(before, max_bits as int, false);
            lemma2_to64();
            lemma2_to64_rest();
            if max_bits < 64 {
                lemma_pow2_strictly_increases(max_bits as nat, 64);
            }
        }
        match step {
            Step::More(next) => {
                state = next;
            },
            Step::Done(value) => {
                return Ok(value);
            },
            Step::Failed(error) => {
                return Err(error);
            },
        }
    }
}

/// Decodes a signed integer of at most `max_bits` bits from the front of
/// `buffer`.
///
/// The bytes of the integer are taken from the source and no others; after a
/// failure the bytes read up to it are gone. A width below 64 bits yields
/// the value itself.
#[allow(non_snake_case)]
pub fn vsN(buffer: &mut ByteSource, max_bits: i64) -> (result: Result<i64, DecodeError>)
    requires
        max_bits > 0,
    ensures
        signed_read(old(buffer)@, max_bits as int, result, final(buffer)@),
        old(buffer)@.len() == 0 ==> result == Err::<i64, DecodeError>(DecodeError::EndOfStream),
        max_bits < 64 ==> (result matches Ok(value) ==> signed_decoding(
            old(buffer)@,
            max_bits as int,
        ).result == Ok::<int, DecodeError>(value as int)),
{
    let ghost before: Seq<u8> = buffer@;
    let mut state: Partial = Partial::new(max_bits);
    assert(before =~= state.fed() + buffer@);
    loop
        invariant
            before == old(buffer)@,
            before == state.fed() + buffer@,
            state.max_bits() == max_bits,
            max_bits > 0,
        decreases buffer@.len(),
    {
        let ghost fed: Seq<u8> = state.fed();
        let input: Option<u8> = buffer.next_byte();
        let step: Step<i64> = state.signed_step(input);
        proof {
            let taken: Seq<u8> = match input {
                Some(byte) => fed.push(byte),
                None => fed,
            };
            assert(before =~= taken + buffer@);
            assert(before.skip(taken.len() as int) =~= buffer@);
            if !(step is More) && input is Some {
                lemma_decoding_ignores_what_follows(taken, buffer@, max_bits as int, true);
            }
            if input is None {
                assert(before =~= taken);
            }
            lemma_value_within_width(before, max_bits as int, true);
            lemma2_to64();
            lemma2_to64_rest();
            if max_bits < 63 {
                lemma_pow2_strictly_increases(max_bits as nat, 63);
            }
        }
        match step {
            Step::More(next) => {
                state = next;
            },
            Step::Done(value) => {
                return Ok(value);
            },
            Step::Failed(error) => {
                return Err(error);
            },
        }
    }
}

} // verus!

//! What holds of every decoding.

use crate::decode::{signed_read, unsigned_read};
use crate::error::DecodeError;
use crate::format::{continues, decoding, fits, group_limit, last_group, payload, Decoding};
use crate::groups::{all_continue, groups_value, lemma_pow2_next_group};
use vstd::arithmetic::power2::{lemma2_to64, lemma_pow2_adds, lemma_pow2_pos, pow2};
use vstd::prelude::*;

verus! {

/// The bits that one group may use never exceed the width that is left.
pub proof fn lemma_group_limit_within_width(max_bits: int)
    requires
        max_bits > 0,
    ensures
        group_limit(max_bits) <= pow2(max_bits as nat),
        max_bits > 7 ==> pow2(max_bits as nat) == 128 * pow2((max_bits - 7) as nat),
{
    lemma2_to64();
    if max_bits > 7 {
        lemma_pow2_adds(7, (max_bits - 7) as nat);
        lemma_pow2_pos((max_bits - 7) as nat);
        assert(max_bits as nat == 7 + (max_bits - 7) as nat);
    }
}

/// A decoded value lies within the declared width: below two to the power
/// `max_bits`, and not below zero in the unsigned reading, not below minus
/// two to the power `max_bits` in the signed one.
pub proof fn lemma_value_within_width(bytes: Seq<u8>, max_bits: int, signed: bool)
    ensures
        decoding(bytes, max_bits, signed).result matches Ok(value) ==> {
            &&& max_bits > 0
            &&& value < pow2(max_bits as nat)
            &&& !signed ==> 0 <= value
            &&& signed ==> -pow2(max_bits as nat) <= value
        },
    decreases bytes.len(),
{
    if max_bits > 0 && bytes.len() > 0 {
        lemma_group_limit_within_width(max_bits);
        lemma_value_within_width(bytes.skip(1), max_bits - 7, signed);
        if max_bits > 7 {
            let rest: Decoding = decoding(bytes.skip(1), max_bits - 7, signed);
            if let Ok(high) = rest.result {
                assert(128 * high <= 128 * (pow2((max_bits - 7) as nat) - 1));
            }
        }
    }
}

/// A decoded value is the value bits of its bytes put side by side, least
/// significant group first: every byte but the last has its continuation bit
/// set, the last has it clear, and the last group stands above the others,
/// sign-extended in the signed reading.
pub proof fn lemma_value_from_groups(bytes: Seq<u8>, max_bits: int, signed: bool)
    ensures
        decoding(bytes, max_bits, signed).result matches Ok(value) ==> {
            let last: int = decoding(bytes, max_bits, signed).consumed - 1;
            &&& 0 <= last < bytes.len()
            &&& all_continue(bytes.take(last))
            &&& !continues(bytes[last])
            &&& value == groups_value(bytes.take(last)) + pow2((7 * last) as nat) * last_group(
                bytes[last],
                signed,
            )
        },
    decreases bytes.len(),
{
    let outcome: Decoding = decoding(bytes, max_bits, signed);
    if let Ok(value) = outcome.result {
        let last: int = outcome.consumed - 1;
        lemma2_to64();
        if !continues(bytes[0]) {
            assert(groups_value(bytes.take(0)) == 0);
            assert(pow2((7 * last) as nat) == 1);
        } else {
            let tail: Seq<u8> = bytes.skip(1);
            lemma_value_from_groups(tail, max_bits - 7, signed);
            let low: Seq<u8> = bytes.take(last);
            assert(low.skip(1) =~= tail.take(last - 1));
            assert(all_continue(low)) by {
                assert forall|i: int| 0 <= i < low.len() implies continues(#[trigger] low[i]) by {
                    if i > 0 {
                        assert(low[i] == tail.take(last - 1)[i - 1]);
                    }
                }
            }
            lemma_pow2_next_group((last - 1) as nat);
            assert((7 * last) as nat == 7 * ((last - 1) as nat + 1));
            let weight: int = pow2((7 * (last - 1)) as nat) as int;
            let top: int = last_group(bytes[last], signed);
            assert(tail[last - 1] == bytes[last]);
            assert(groups_value(low) == payload(bytes[0]) + 128 * groups_value(low.skip(1)));
            assert(pow2((7 * last) as nat) * top == 128 * (weight * top)) by (nonlinear_arith)
                requires
                    pow2((7 * last) as nat) == 128 * weight,
            ;
        }
    }
}

/// A decoding never takes more bytes than there are, nor more than one for
/// every seven bits of the declared width, the last ones rounded up. A
/// value takes at least one byte, and a decoding that ran out of bytes took
/// them all.
pub proof fn lemma_consumed_bounds(bytes: Seq<u8>, max_bits: int, signed: bool)
    ensures
        decoding(bytes, max_bits, signed).consumed <= bytes.len(),
        max_bits > 0 ==> 7 * decoding(bytes, max_bits, signed).consumed < max_bits + 7,
        max_bits <= 0 ==> decoding(bytes, max_bits, signed).consumed == 0,
        decoding(bytes, max_bits, signed).result is Ok ==> decoding(
            bytes,
            max_bits,
            signed,
        ).consumed >= 1,
        decoding(bytes, max_bits, signed).result == Err::<int, DecodeError>(
            DecodeError::EndOfStream,
        ) ==> decoding(bytes, max_bits, signed).consumed == bytes.len() && 7 * bytes.len()
            < max_bits,
    decreases bytes.len(),
{
    if max_bits > 0 && bytes.len() > 0 {
        lemma_consumed_bounds(bytes.skip(1), max_bits - 7, signed);
    }
}

/// A decoding that did not run out of bytes depends only on the bytes that
/// it consumed: whatever follows them changes neither the outcome nor the
/// number of bytes taken.
pub proof fn lemma_decoding_ignores_what_follows(
    bytes: Seq<u8>,
    extra: Seq<u8>,
    max_bits: int,
    signed: bool,
)
    requires
        decoding(bytes, max_bits, signed).result != Err::<int, DecodeError>(
            DecodeError::EndOfStream,
        ),
    ensures
        decoding(bytes + extra, max_bits, signed) == decoding(bytes, max_bits, signed),
    decreases bytes.len(),
{
    if max_bits > 0 && bytes.len() > 0 {
        let whole: Seq<u8> = bytes + extra;
        assert(whole[0] == bytes[0]);
        assert(whole.skip(1) =~= bytes.skip(1) + extra);
        if fits(bytes[0], max_bits, signed) && continues(bytes[0]) {
            lemma_decoding_ignores_what_follows(bytes.skip(1), extra, max_bits - 7, signed);
        }
    }
}

/// An unsigned decode comes out the same every time, and so a failing one
/// fails the same way: two decodes of the same bytes with the same width
/// hand back the same value or the same error, and leave the same bytes
/// behind.
pub proof fn lemma_unsigned_decode_repeats(
    before: Seq<u8>,
    max_bits: int,
    first: Result<u64, DecodeError>,
    first_after: Seq<u8>,
    second: Result<u64, DecodeError>,
    second_after: Seq<u8>,
)
    requires
        unsigned_read(before, max_bits, first, first_after),
        unsigned_read(before, max_bits, second, second_after),
    ensures
        second == first,
        second_after == first_after,
{
}

/// A signed decode comes out the same every time, and so a failing one
/// fails the same way: two decodes of the same bytes with the same width
/// hand back the same value or the same error, and leave the same bytes
/// behind.
pub proof fn lemma_signed_decode_repeats(
    before: Seq<u8>,
    max_bits: int,
    first: Result<i64, DecodeError>,
    first_after: Seq<u8>,
    second: Result<i64, DecodeError>,
    second_after: Seq<u8>,
)
    requires
        signed_read(before, max_bits, first, first_after),
        signed_read(before, max_bits, second, second_after),
    ensures
        second == first,
        second_after == first_after,
{
}

} // verus!

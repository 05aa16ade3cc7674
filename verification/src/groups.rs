//! Groups that have been read while more of the integer is still to come.

use crate::format::{continues, decoding, payload, Decoding};
use vstd::arithmetic::power2::{lemma2_to64, lemma_pow2_adds, lemma_pow2_pos, pow2};
use vstd::prelude::*;

verus! {

/// Whether every byte of the sequence has its continuation bit set.
pub open spec fn all_continue(bytes: Seq<u8>) -> bool {
    forall|i: int| 0 <= i < bytes.len() ==> continues(#[trigger] bytes[i])
}

/// The value bits of the bytes put side by side, those of the first byte
/// lowest.
pub open spec fn groups_value(bytes: Seq<u8>) -> int
    decreases bytes.len(),
{
    if bytes.len() == 0 {
        0
    } else {
        payload(bytes[0]) + 128 * groups_value(bytes.skip(1))
    }
}

/// The outcome of a decoding that went on after `groups` bytes had been
/// read: its value stands above their bits `low`, and they count as consumed.
pub open spec fn placed_after(outcome: Decoding, low: int, groups: nat) -> Decoding {
    Decoding {
        result: match outcome.result {
            Ok(high) => Ok(low + pow2(7 * groups) * high),
            Err(error) => Err(error),
        },
        consumed: outcome.consumed + groups,
    }
}

/// Seven more bits are worth a factor of 128.
pub proof fn lemma_pow2_next_group(groups: nat)
    ensures
        pow2(7 * (groups + 1)) == 128 * pow2(7 * groups),
        pow2(7 * groups) > 0,
{
    lemma_pow2_adds(7, 7 * groups);
    lemma_pow2_pos(7 * groups);
    lemma2_to64();
    assert(7 * (groups + 1) == 7 + 7 * groups);
}

/// The value bits of `groups` bytes fill exactly the low `7 * groups` bits.
pub proof fn lemma_groups_value_bounds(bytes: Seq<u8>)
    ensures
        0 <= groups_value(bytes) < pow2(7 * bytes.len()),
    decreases bytes.len(),
{
    if bytes.len() == 0 {
        lemma2_to64();
    } else {
        lemma_groups_value_bounds(bytes.skip(1));
        lemma_pow2_next_group(bytes.skip(1).len());
        assert(7 * bytes.len() == 7 * (bytes.skip(1).len() + 1));
    }
}

/// A byte read after the others puts its value bits above theirs.
pub proof fn lemma_groups_value_push(bytes: Seq<u8>, byte: u8)
    ensures
        groups_value(bytes.push(byte)) == groups_value(bytes) + pow2(7 * bytes.len()) * payload(
            byte,
        ),
    decreases bytes.len(),
{
    let longer: Seq<u8> = bytes.push(byte);
    if bytes.len() == 0 {
        lemma2_to64();
        assert(longer.skip(1).len() == 0);
        assert(groups_value(longer.skip(1)) == 0);
    } else {
        let tail: Seq<u8> = bytes.skip(1);
        assert(longer.skip(1) =~= tail.push(byte));
        assert(longer[0] == bytes[0]);
        lemma_groups_value_push(tail, byte);
        lemma_pow2_next_group(tail.len());
        assert(7 * bytes.len() == 7 * (tail.len() + 1));
        let weight: int = pow2(7 * tail.len()) as int;
        let top: int = payload(byte);
        assert(128 * (weight * top) == (128 * weight) * top) by (nonlinear_arith);
    }
}

/// Decoding bytes whose front is a run of continuation bytes, with width
/// left for more: the run contributes its value bits, and the decoding of
/// what follows, with the width that the run left, stands above them.
pub proof fn lemma_decoding_after_prefix(
    prefix: Seq<u8>,
    rest: Seq<u8>,
    max_bits: int,
    signed: bool,
)
    requires
        all_continue(prefix),
        7 * prefix.len() < max_bits,
    ensures
        decoding(prefix + rest, max_bits, signed) == placed_after(
            decoding(rest, max_bits - 7 * prefix.len(), signed),
            groups_value(prefix),
            prefix.len(),
        ),
    decreases prefix.len(),
{
    let whole: Seq<u8> = prefix + rest;
    if prefix.len() == 0 {
        assert(whole =~= rest);
        lemma2_to64();
        let outcome: Decoding = decoding(rest, max_bits, signed);
        assert(placed_after(outcome, 0, 0) == outcome) by {
            if let Ok(high) = outcome.result {
                assert(0 + 1 * high == high);
            }
        }
    } else {
        let tail: Seq<u8> = prefix.skip(1);
        assert(whole[0] == prefix[0]);
        assert(continues(prefix[0]));
        assert(whole.skip(1) =~= tail + rest);
        assert(all_continue(tail)) by {
            assert forall|i: int| 0 <= i < tail.len() implies continues(#[trigger] tail[i]) by {
                assert(tail[i] == prefix[i + 1]);
            }
        }
        lemma_decoding_after_prefix(tail, rest, max_bits - 7, signed);
        lemma_pow2_next_group(tail.len());
        assert(7 * prefix.len() == 7 * (tail.len() + 1));
        let inner: Decoding = decoding(rest, max_bits - 7 * prefix.len(), signed);
        if let Ok(high) = inner.result {
            let weight: int = pow2(7 * tail.len()) as int;
            assert(128 * (weight * high) == (128 * weight) * high) by (nonlinear_arith);
        }
    }
}

} // verus!

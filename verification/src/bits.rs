//! The shifts and masks of the decoder, tied to the arithmetic of the
//! format.

use crate::format::{fits, group_limit, low_64, payload, sign_extended, twos_complement_64};
use vstd::arithmetic::div_mod::lemma_mod_multiples_basic;
use vstd::arithmetic::power2::{lemma2_to64, lemma2_to64_rest, lemma_pow2_adds, pow2};
use vstd::bits::lemma_u64_shl_is_mul;
use vstd::prelude::*;

verus! {

/// The value bits of a byte.
pub(crate) fn value_bits(byte: u8) -> (bits: u64)
    ensures
        bits == payload(byte),
        bits < 128,
{
    assert(byte & 0x7f == byte % 128) by (bit_vector);
    (byte & 0x7f) as u64
}

/// Whether the continuation bit of a byte is set.
pub(crate) fn has_continuation(byte: u8) -> (set: bool)
    ensures
        set == crate::format::continues(byte),
{
    assert((byte & 0x80 != 0) == (byte >= 128)) by (bit_vector);
    byte & 0x80 != 0
}

/// The value bits of a byte, sign-extended from bit 6 to 64 bits.
pub(crate) fn sign_extended_bits(byte: u8) -> (bits: u64)
    ensures
        sign_extended(byte) >= 0 ==> bits == sign_extended(byte),
        sign_extended(byte) < 0 ==> bits == sign_extended(byte) + 0x1_0000_0000_0000_0000,
{
    let group: u64 = value_bits(byte);
    assert(group & 0x40 != 0 <==> group >= 64) by (bit_vector)
        requires
            group < 128,
    ;
    if group & 0x40 != 0 {
        assert(group | 0xffff_ffff_ffff_ff80 == group + 0xffff_ffff_ffff_ff80) by (bit_vector)
            requires
                group < 128,
        ;
        group | 0xffff_ffff_ffff_ff80
    } else {
        group
    }
}

/// Whether the value bits of a byte respect the width that is left: the bits
/// at position `budget` and above are all clear or, in the signed reading,
/// all set.
pub(crate) fn respects_width(byte: u8, budget: u64, signed: bool) -> (ok: bool)
    requires
        budget > 0,
    ensures
        ok == fits(byte, budget as int, signed),
{
    if budget >= 7 {
        return true;
    }
    let group: u64 = value_bits(byte);
    let above: u64 = group >> budget;
    let ones: u64 = 0x7f >> budget;
    proof {
        let limit: u64 = 1u64 << budget;
        assert(limit == if budget == 1 {
            2u64
        } else if budget == 2 {
            4u64
        } else if budget == 3 {
            8u64
        } else if budget == 4 {
            16u64
        } else if budget == 5 {
            32u64
        } else {
            64u64
        }) by (bit_vector)
            requires
                limit == 1u64 << budget,
                1 <= budget < 7,
        ;
        assert(limit == group_limit(budget as int));
        assert((above == 0 <==> group < limit) && (above == ones <==> group >= 128 - limit)
            && limit <= 64) by (bit_vector)
            requires
                above == group >> budget,
                ones == 0x7fu64 >> budget,
                limit == 1u64 << budget,
                1 <= budget < 7,
                group < 128,
        ;
    }
    above == 0 || (signed && above == ones)
}

/// Places `group` above the low `shift` bits `low`, within 64 bits: bits
/// that would come to stand at position 64 or above are dropped.
pub(crate) fn place_above(low: u64, shift: u64, group: u64, Ghost(value): Ghost<int>) -> (joined:
    u64)
    requires
        low == low_64(value),
        0 <= value < pow2(shift as nat),
    ensures
        joined == low_64(value + pow2(shift as nat) * group),
{
    if shift < 64 {
        let moved: u64 = group << shift;
        proof {
            let weight: u64 = 1u64 << shift;
            lemma2_to64();
            lemma2_to64_rest();
            vstd::bits::lemma_u64_pow2_no_overflow(shift as nat);
            lemma_u64_shl_is_mul(1, shift);
            assert(weight == pow2(shift as nat));
            assert(moved == (group * weight) % 0x1_0000_0000_0000_0000 && (low < weight ==> low
                | moved == low + moved)) by (bit_vector)
                requires
                    moved == group << shift,
                    weight == 1u64 << shift,
                    shift < 64,
            ;
            assert(low == value);
            assert(weight * group == group * weight) by (nonlinear_arith);
        }
        low | moved
    } else {
        proof {
            lemma2_to64();
            lemma_pow2_adds(64, (shift - 64) as nat);
            assert(shift as nat == 64 + (shift - 64) as nat);
            let rest: int = pow2((shift - 64) as nat) as int;
            assert(pow2(shift as nat) * group == (rest * group) * 0x1_0000_0000_0000_0000) by (nonlinear_arith)
                requires
                    pow2(shift as nat) == 0x1_0000_0000_0000_0000 * rest,
            ;
            lemma_mod_multiples_basic(rest * group, 0x1_0000_0000_0000_0000);
        }
        low
    }
}

/// Reads 64 bits as a two's-complement number.
pub(crate) fn as_signed(bits: u64, Ghost(value): Ghost<int>) -> (number: i64)
    requires
        bits == low_64(value),
    ensures
        number == twos_complement_64(value),
{
    assert(bits as i64 == (if bits >= 0x8000_0000_0000_0000 {
        bits - 0x1_0000_0000_0000_0000
    } else {
        bits as int
    })) by (bit_vector);
    #[verifier::truncate]
    (bits as i64)
}

} // verus!

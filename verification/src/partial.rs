//! Decoding one byte at a time.
//!
//! A caller that gets its bytes from somewhere else (a file, a socket) keeps
//! a [`Partial`] and hands it each byte as it arrives. Every step says
//! whether the integer is complete, has to be rejected, or needs another
//! byte, so that no byte beyond the integer is ever asked for.

use crate::bits::{as_signed, has_continuation, place_above, respects_width, sign_extended_bits,
    value_bits};
use crate::error::DecodeError;
use crate::format::{decoding, low_64, sign_extended, signed_result, unsigned_result, Decoding};
use crate::groups::{all_continue, groups_value, lemma_decoding_after_prefix,
    lemma_groups_value_bounds, lemma_groups_value_push, lemma_pow2_next_group, placed_after};
use vstd::arithmetic::div_mod::lemma_mod_multiples_vanish;
use vstd::arithmetic::power2::pow2;
use vstd::prelude::*;

verus! {

/// A decode in progress: the bytes taken in so far all had their
/// continuation bit set and left some of the declared width unused.
pub struct Partial {
    /// The low 64 bits of the value bits read so far.
    low: u64,
    /// Where the next group goes: seven times the number of bytes read.
    shift: u64,
    /// How many bits of the declared width are left.
    budget: u64,
    /// The bytes read so far.
    fed: Ghost<Seq<u8>>,
}

/// What one step of a decode led to.
pub enum Step<T> {
    /// The byte was taken in and another one is needed.
    More(Partial),
    /// The byte completed the integer.
    Done(T),
    /// The decode failed; nothing more is to be read for it.
    Failed(DecodeError),
}

impl Partial {
    #[verifier::type_invariant]
    spec fn well_formed(self) -> bool {
        &&& all_continue(self.fed@)
        &&& self.shift == 7 * self.fed@.len()
        &&& self.budget > 0
        &&& self.shift + self.budget <= i64::MAX
        &&& self.low == low_64(groups_value(self.fed@))
    }

    /// The bytes taken in so far, in the order in which they came.
    pub closed spec fn fed(self) -> Seq<u8> {
        self.fed@
    }

    /// The width that the decode was begun with.
    pub closed spec fn max_bits(self) -> int {
        self.shift + self.budget
    }

    /// The bytes of the decode once `input` has been offered: the byte is
    /// added to those taken in already, the end of the stream adds none.
    pub open spec fn offered(self, input: Option<u8>) -> Seq<u8> {
        match input {
            Some(byte) => self.fed().push(byte),
            None => self.fed(),
        }
    }

    /// Begins the decode of an integer of at most `max_bits` bits.
    pub fn new(max_bits: i64) -> (state: Partial)
        requires
            max_bits > 0,
        ensures
            state.fed() == Seq::<u8>::empty(),
            state.max_bits() == max_bits,
    {
        Partial { low: 0, shift: 0, budget: max_bits as u64, fed: Ghost(Seq::empty()) }
    }

    /// What decoding the bytes offered so far comes to, in terms of the
    /// state: used by both readings.
    proof fn lemma_offered(self, input: Option<u8>, signed: bool)
        requires
            self.well_formed(),
        ensures
            input is None ==> decoding(self.offered(input), self.max_bits(), signed) == (Decoding {
                result: Err(DecodeError::EndOfStream),
                consumed: self.fed@.len(),
            }),
            input matches Some(byte) ==> decoding(self.offered(input), self.max_bits(), signed)
                == placed_after(
                decoding(seq![byte], self.budget as int, signed),
                groups_value(self.fed@),
                self.fed@.len(),
            ),
            input matches Some(byte) ==> decoding(seq![byte].skip(1), self.budget - 7, signed).consumed
                == 0,
            input matches Some(byte) ==> decoding(seq![byte].skip(1), self.budget - 7, signed).result
                == Err::<int, DecodeError>(
                if self.budget <= 7 {
                    DecodeError::OverflowOrInvalidEncoding
                } else {
                    DecodeError::EndOfStream
                },
            ),
    {
        match input {
            None => {
                lemma_decoding_after_prefix(self.fed@, Seq::empty(), self.max_bits(), signed);
                assert(self.fed@ + Seq::<u8>::empty() =~= self.fed@);
            },
            Some(byte) => {
                lemma_decoding_after_prefix(self.fed@, seq![byte], self.max_bits(), signed);
                assert(self.fed@ + seq![byte] =~= self.fed@.push(byte));
                assert(seq![byte].skip(1).len() == 0);
            },
        }
    }

    /// Takes in the next byte of an unsigned integer, or the end of the
    /// stream.
    ///
    /// The step is the unsigned decoding of all bytes offered so far: its
    /// value or its failure, and `More` where those bytes are not yet a whole
    /// integer. Every byte offered counts as consumed.
    pub fn unsigned_step(self, input: Option<u8>) -> (step: Step<u64>)
        ensures
            decoding(self.offered(input), self.max_bits(), false).consumed == self.offered(
                input,
            ).len(),
            match step {
                Step::More(next) => {
                    &&& input is Some
                    &&& decoding(self.offered(input), self.max_bits(), false).result == Err::<
                        int,
                        DecodeError,
                    >(DecodeError::EndOfStream)
                    &&& next.fed() == self.offered(input)
                    &&& next.max_bits() == self.max_bits()
                },
                Step::Done(value) => {
                    &&& decoding(self.offered(input), self.max_bits(), false).result is Ok
                    &&& unsigned_result(decoding(self.offered(input), self.max_bits(), false))
                        == Ok::<u64, DecodeError>(value)
                },
                Step::Failed(error) => {
                    &&& decoding(self.offered(input), self.max_bits(), false).result == Err::<
                        int,
                        DecodeError,
                    >(error)
                    &&& (error == DecodeError::EndOfStream <==> input is None)
                },
            },
    {
        proof {
            use_type_invariant(&self);
            self.lemma_offered(input, false);
            lemma_groups_value_bounds(self.fed@);
        }
        let byte: u8 = match input {
            Some(byte) => byte,
            None => {
                return Step::Failed(DecodeError::EndOfStream);
            },
        };
        if !respects_width(byte, self.budget, false) {
            return Step::Failed(DecodeError::OverflowOrInvalidEncoding);
        }
        let low: u64 = place_above(
            self.low,
            self.shift,
            value_bits(byte),
            Ghost(groups_value(self.fed@)),
        );
        if !has_continuation(byte) {
            return Step::Done(low);
        }
        if self.budget <= 7 {
            return Step::Failed(DecodeError::OverflowOrInvalidEncoding);
        }
        proof {
            lemma_groups_value_push(self.fed@, byte);
            lemma_pow2_next_group(self.fed@.len());
        }
        Step::More(
            Partial {
                low,
                shift: self.shift + 7,
                budget: self.budget - 7,
                fed: Ghost(self.fed@.push(byte)),
            },
        )
    }

    /// Takes in the next byte of a signed integer, or the end of the stream.
    ///
    /// The step is the signed decoding of all bytes offered so far: its
    /// value or its failure, and `More` where those bytes are not yet a whole
    /// integer. Every byte offered counts as consumed.
    pub fn signed_step(self, input: Option<u8>) -> (step: Step<i64>)
        ensures
            decoding(self.offered(input), self.max_bits(), true).consumed == self.offered(
                input,
            ).len(),
            match step {
                Step::More(next) => {
                    &&& input is Some
                    &&& decoding(self.offered(input), self.max_bits(), true).result == Err::<
                        int,
                        DecodeError,
                    >(DecodeError::EndOfStream)
                    &&& next.fed() == self.offered(input)
                    &&& next.max_bits() == self.max_bits()
                },
                Step::Done(value) => {
                    &&& decoding(self.offered(input), self.max_bits(), true).result is Ok
                    &&& signed_result(decoding(self.offered(input), self.max_bits(), true)) == Ok::<
                        i64,
                        DecodeError,
                    >(value)
                },
                Step::Failed(error) => {
                    &&& decoding(self.offered(input), self.max_bits(), true).result == Err::<
                        int,
                        DecodeError,
                    >(error)
                    &&& (error == DecodeError::EndOfStream <==> input is None)
                },
            },
    {
        proof {
            use_type_invariant(&self);
            self.lemma_offered(input, true);
            lemma_groups_value_bounds(self.fed@);
        }
        let byte: u8 = match input {
            Some(byte) => byte,
            None => {
                return Step::Failed(DecodeError::EndOfStream);
            },
        };
        if !respects_width(byte, self.budget, true) {
            return Step::Failed(DecodeError::OverflowOrInvalidEncoding);
        }
        if !has_continuation(byte) {
            let group: u64 = sign_extended_bits(byte);
            let bits: u64 = place_above(
                self.low,
                self.shift,
                group,
                Ghost(groups_value(self.fed@)),
            );
            let ghost low: int = groups_value(self.fed@);
            let ghost weight: int = pow2(self.shift as nat) as int;
            let ghost top: int = sign_extended(byte);
            proof {
                if top < 0 {
                    assert(low + weight * group == 0x1_0000_0000_0000_0000 * weight + (low + weight
                        * top)) by (nonlinear_arith)
                        requires
                            group == top + 0x1_0000_0000_0000_0000,
                    ;
                    lemma_mod_multiples_vanish(
                        weight,
                        low + weight * top,
                        0x1_0000_0000_0000_0000,
                    );
                }
            }
            return Step::Done(as_signed(bits, Ghost(low + weight * top)));
        }
        if self.budget <= 7 {
            return Step::Failed(DecodeError::OverflowOrInvalidEncoding);
        }
        let low: u64 = place_above(
            self.low,
            self.shift,
            value_bits(byte),
            Ghost(groups_value(self.fed@)),
        );
        proof {
            lemma_groups_value_push(self.fed@, byte);
            lemma_pow2_next_group(self.fed@.len());
        }
        Step::More(
            Partial {
                low,
                shift: self.shift + 7,
                budget: self.budget - 7,
                fed: Ghost(self.fed@.push(byte)),
            },
        )
    }
}

} // verus!

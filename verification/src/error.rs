use vstd::prelude::*;

verus! {

/// Why a decode did not produce a value.
#[derive(Clone, Copy, Debug, PartialEq, Eq, Structural)]
pub enum DecodeError {
    /// The source ran dry before a byte with a clear continuation bit was read.
    EndOfStream,
    /// A byte carried bits that the declared width has no room for, or the
    /// group went on after the width was used up.
    OverflowOrInvalidEncoding,
}

} // verus!

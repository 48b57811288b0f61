use vstd::prelude::*;

pub mod offset;
pub mod timestamp;

verus! {

/// The ways a computation in this crate can fail.
///
/// `ParseError`: an offset expression is empty or its numeral portion is not
/// a valid decimal numeral.
/// `OverflowError`: a parsed or computed value does not fit in a signed
/// 64-bit integer.
#[derive(Debug, Clone, Copy, PartialEq, Eq)]
pub enum TsError {
    ParseError,
    OverflowError,
}

} // verus!

use vstd::prelude::*;

use crate::TsError;
use crate::offset::{offset_value, in_i64_range, parse_offset_to_seconds};

verus! {

/// The base epoch value that a run works from: a zero argument is a
/// sentinel asking for the current time, any other value is taken
/// literally. Requesting epoch zero itself is therefore impossible.
pub open spec fn base_of(timestamp: u64, now: u64) -> int {
    if timestamp == 0 {
        now as int
    } else {
        timestamp as int
    }
}

/// Replace the zero sentinel with the caller's reading of the clock.
pub fn resolve_base(timestamp: u64, now: u64) -> (r: u64)
    ensures
        r == base_of(timestamp, now),
{
    if timestamp == 0 {
        now
    } else {
        timestamp
    }
}

/// Add a signed offset to an unsigned base epoch value, as `i64`.
/// Fails instead of wrapping when the base or the sum leaves the
/// signed 64-bit range.
pub fn add_offset(base: u64, offset: i64) -> (r: Result<i64, TsError>)
    ensures
        match r {
            Ok(v) => base <= i64::MAX && v == base + offset,
            Err(e) => e == TsError::OverflowError && (base > i64::MAX || !in_i64_range(
                base + offset,
            )),
        },
{
    if base > i64::MAX as u64 {
        return Err(TsError::OverflowError);
    }
    let b = base as i64;
    if offset >= 0 {
        if b <= i64::MAX - offset {
            Ok(b + offset)
        } else {
            Err(TsError::OverflowError)
        }
    } else {
        // b is non-negative, so the sum cannot go below i64::MIN
        Ok(b + offset)
    }
}

/// A whole run succeeds exactly when the offset expression is well formed,
/// its value fits in `i64`, the base fits in `i64`, and so does their sum.
pub open spec fn run_ok(timestamp: u64, now: u64, expr: Seq<char>) -> bool {
    &&& offset_value(expr) is Some
    &&& in_i64_range(offset_value(expr).unwrap())
    &&& base_of(timestamp, now) <= i64::MAX
    &&& in_i64_range(base_of(timestamp, now) + offset_value(expr).unwrap())
}

/// The whole computation of one run: resolve the base against the given
/// clock reading, parse the offset expression, and add the two.
pub fn compute_result(timestamp: u64, now: u64, offset_expr: &str) -> (r: Result<i64, TsError>)
    ensures
        match r {
            Ok(v) => run_ok(timestamp, now, offset_expr@) && v == base_of(timestamp, now)
                + offset_value(offset_expr@).unwrap(),
            Err(TsError::ParseError) => offset_value(offset_expr@) is None,
            Err(TsError::OverflowError) => offset_value(offset_expr@) is Some && !run_ok(
                timestamp,
                now,
                offset_expr@,
            ),
        },
{
    let off = match parse_offset_to_seconds(offset_expr) {
        Ok(v) => v,
        Err(e) => {
            return Err(e);
        },
    };
    let base = resolve_base(timestamp, now);
    add_offset(base, off)
}

} // verus!

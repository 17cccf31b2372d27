//! Clamped integer arithmetic shared by the timeline modules.

use vstd::prelude::*;

verus! {

/// `x` pulled into `lo..=hi`.
pub open spec fn clamp(x: int, lo: int, hi: int) -> int {
    if x < lo {
        lo
    } else if x > hi {
        hi
    } else {
        x
    }
}

/// `x` pulled into the `i32` range.
pub open spec fn clamped32(x: int) -> int {
    clamp(x, i32::MIN as int, i32::MAX as int)
}

/// `x` pulled into the `i64` range.
pub open spec fn clamped64(x: int) -> int {
    clamp(x, i64::MIN as int, i64::MAX as int)
}

/// The larger of two integers.
pub open spec fn max_int(a: int, b: int) -> int {
    if a >= b {
        a
    } else {
        b
    }
}

/// The smaller of two integers.
pub open spec fn min_int(a: int, b: int) -> int {
    if a <= b {
        a
    } else {
        b
    }
}

/// Distance between two points.
pub open spec fn distance(a: int, b: int) -> int {
    if a >= b {
        a - b
    } else {
        b - a
    }
}

/// `value` clamped to the `i32` range.
pub fn clamp_i32(value: i64) -> (r: i32)
    ensures
        r == clamped32(value as int),
{
    if value < -0x8000_0000 {
        i32::MIN
    } else if value > 0x7fff_ffff {
        i32::MAX
    } else {
        value as i32
    }
}

/// Saturating `a + b`.
pub fn sat_add(a: i32, b: i32) -> (r: i32)
    ensures
        r == clamped32(a + b),
{
    clamp_i32(a as i64 + b as i64)
}

/// Saturating `a - b`.
pub fn sat_sub(a: i32, b: i32) -> (r: i32)
    ensures
        r == clamped32(a - b),
{
    clamp_i32(a as i64 - b as i64)
}

/// The larger of two `i32`s.
pub fn max32(a: i32, b: i32) -> (r: i32)
    ensures
        r == max_int(a as int, b as int),
{
    if a >= b {
        a
    } else {
        b
    }
}

/// The smaller of two `i32`s.
pub fn min32(a: i32, b: i32) -> (r: i32)
    ensures
        r == min_int(a as int, b as int),
{
    if a <= b {
        a
    } else {
        b
    }
}

/// The larger of two `i64`s.
pub fn max64(a: i64, b: i64) -> (r: i64)
    ensures
        r == max_int(a as int, b as int),
{
    if a >= b {
        a
    } else {
        b
    }
}

/// The smaller of two `i64`s.
pub fn min64(a: i64, b: i64) -> (r: i64)
    ensures
        r == min_int(a as int, b as int),
{
    if a <= b {
        a
    } else {
        b
    }
}

} // verus!

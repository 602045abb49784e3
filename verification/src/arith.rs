//! Fixed-point charge arithmetic.
//!
//! Charges, thresholds and fixed amounts are `i64` values; a percentage
//! parameter is a numerator over 100, so `p == 150` stands for one and a half
//! times the charge. Every result is clipped into the `i64` range, so the
//! dynamics are total: no input can make a tick fail.

use vstd::prelude::*;

verus! {

/// `x` clipped into the `i64` range.
pub open spec fn clip64(x: int) -> int {
    if x > i64::MAX as int {
        i64::MAX as int
    } else if x < i64::MIN as int {
        i64::MIN as int
    } else {
        x
    }
}

/// `c * p / 100`, truncated toward zero; `p` is a percentage numerator and
/// never negative.
pub open spec fn scale100(c: int, p: int) -> int {
    if c >= 0 {
        (c * p) / 100
    } else {
        -((-c * p) / 100)
    }
}

/// The drain formula `c - c*p/100 - f` shared by consumption and decay,
/// clipped into the `i64` range.
pub open spec fn drained(c: int, p: int, f: int) -> int {
    clip64(c - scale100(c, p) - f)
}

/// The pulse transform `c*p/100 + f`, clipped into the `i64` range.
pub open spec fn pulse_value(c: int, p: int, f: int) -> int {
    clip64(scale100(c, p) + f)
}

/// `a + b` saturating at `u64::MAX`.
pub open spec fn sat_add_u64(a: int, b: int) -> int {
    if a + b > u64::MAX as int {
        u64::MAX as int
    } else {
        a + b
    }
}

/// `c * p / 100` computed without overflow; the result fits well inside
/// `i128` since `|c| <= 2^63` and `p < 2^32`.
pub fn scaled(c: i64, p: u32) -> (r: i128)
    ensures
        r as int == scale100(c as int, p as int),
        -0x8000_0000_0000_0000_0000_0000 <= r as int <= 0x8000_0000_0000_0000_0000_0000,
{
    let magnitude: u128 = if c >= 0 {
        c as u128
    } else {
        (-(c as i128)) as u128
    };
    assert(magnitude <= 0x8000_0000_0000_0000);
    assert(magnitude * (p as u128) <= 0x8000_0000_0000_0000 * 0xffff_ffff) by (nonlinear_arith)
        requires
            magnitude <= 0x8000_0000_0000_0000,
            p <= 0xffff_ffffu32,
    ;
    let product: u128 = magnitude * (p as u128);
    let quotient: u128 = product / 100;
    if c >= 0 {
        quotient as i128
    } else {
        -(quotient as i128)
    }
}

/// `s` clipped into the `i64` range.
pub fn clip_to_i64(s: i128) -> (r: i64)
    ensures
        r as int == clip64(s as int),
{
    if s > i64::MAX as i128 {
        i64::MAX
    } else if s < i64::MIN as i128 {
        i64::MIN
    } else {
        s as i64
    }
}

/// One application of the drain formula: `c - c*p/100 - f`, clipped.
pub fn drain(c: i64, p: u32, f: u32) -> (r: i64)
    ensures
        r as int == drained(c as int, p as int, f as int),
{
    let s: i128 = (c as i128) - scaled(c, p) - (f as i128);
    clip_to_i64(s)
}

/// The pulse transform: `c*p/100 + f`, clipped.
pub fn pulse_amount(c: i64, p: u32, f: u32) -> (r: i64)
    ensures
        r as int == pulse_value(c as int, p as int, f as int),
{
    let s: i128 = scaled(c, p) + (f as i128);
    clip_to_i64(s)
}

/// `c + t` clipped into the `i64` range; the caller must know that the sum
/// does not leave `i128`, which the bounded pulse accumulation guarantees.
pub fn clip_add_temp(c: i64, t: i128) -> (r: i64)
    requires
        c as int + t as int <= i128::MAX as int,
        i128::MIN as int <= c as int + t as int,
    ensures
        r as int == clip64(c as int + t as int),
{
    let s: i128 = (c as i128) + t;
    clip_to_i64(s)
}

/// `a + b` clipped into the `i64` range.
pub fn clip_add_i64(a: i64, b: i64) -> (r: i64)
    ensures
        r as int == clip64(a as int + b as int),
{
    let s: i128 = (a as i128) + (b as i128);
    clip_to_i64(s)
}

/// `a + b` saturating at `u64::MAX`.
pub fn sat_add(a: u64, b: u64) -> (r: u64)
    ensures
        r as int == sat_add_u64(a as int, b as int),
{
    if a > u64::MAX - b {
        u64::MAX
    } else {
        a + b
    }
}

} // verus!

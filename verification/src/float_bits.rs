//! Ordering of IEEE-754 numbers that are held as their bit patterns.
//!
//! Distances, rulers and recall figures travel through this crate as `u32`
//! (binary32) and `u64` (binary64) patterns. A pattern with the sign bit clear
//! grows with the number it stands for, and one with the sign bit set shrinks,
//! so every comparison is an integer comparison of a signed key.
use vstd::prelude::*;

verus! {

/// Bit pattern of binary32 positive infinity.
pub const F32_INFINITY: u32 = 0x7f80_0000;

/// Bit pattern of binary64 `1.0`.
pub const F64_ONE: u64 = 0x3ff0_0000_0000_0000;

/// The pattern without its sign bit.
pub open spec fn f32_magnitude(b: u32) -> int {
    if b >= 0x8000_0000 {
        b - 0x8000_0000
    } else {
        b as int
    }
}

/// Integer that grows with the number `b` stands for; both zeros map to 0.
pub open spec fn f32_key(b: u32) -> int {
    if b >= 0x8000_0000 {
        -(b - 0x8000_0000)
    } else {
        b as int
    }
}

/// Integer that orders every pattern, the zeros and the not-a-numbers too, by
/// the IEEE total order.
pub open spec fn f32_total_key(b: u32) -> int {
    if b >= 0x8000_0000 {
        -(b - 0x8000_0000) - 1
    } else {
        b as int
    }
}

pub open spec fn f32_nan(b: u32) -> bool {
    f32_magnitude(b) > 0x7f80_0000
}

pub open spec fn f32_finite(b: u32) -> bool {
    f32_magnitude(b) < 0x7f80_0000
}

/// IEEE `a < b`: false as soon as one side is not a number.
pub open spec fn f32_lt(a: u32, b: u32) -> bool {
    !f32_nan(a) && !f32_nan(b) && f32_key(a) < f32_key(b)
}

/// IEEE `a <= b`.
pub open spec fn f32_le(a: u32, b: u32) -> bool {
    !f32_nan(a) && !f32_nan(b) && f32_key(a) <= f32_key(b)
}

pub open spec fn f64_magnitude(b: u64) -> int {
    if b >= 0x8000_0000_0000_0000 {
        b - 0x8000_0000_0000_0000
    } else {
        b as int
    }
}

pub open spec fn f64_key(b: u64) -> int {
    if b >= 0x8000_0000_0000_0000 {
        -(b - 0x8000_0000_0000_0000)
    } else {
        b as int
    }
}

pub open spec fn f64_nan(b: u64) -> bool {
    f64_magnitude(b) > 0x7ff0_0000_0000_0000
}

pub open spec fn f64_finite(b: u64) -> bool {
    f64_magnitude(b) < 0x7ff0_0000_0000_0000
}

/// IEEE `a < b` on binary64 patterns.
pub open spec fn f64_lt(a: u64, b: u64) -> bool {
    !f64_nan(a) && !f64_nan(b) && f64_key(a) < f64_key(b)
}

/// IEEE `a <= b` on binary64 patterns.
pub open spec fn f64_le(a: u64, b: u64) -> bool {
    !f64_nan(a) && !f64_nan(b) && f64_key(a) <= f64_key(b)
}

/// Whether the pattern is not a number.
pub fn is_nan32(b: u32) -> (r: bool)
    ensures
        r == f32_nan(b),
{
    if b >= 0x8000_0000 {
        b - 0x8000_0000 > 0x7f80_0000
    } else {
        b > 0x7f80_0000
    }
}

/// Whether the pattern stands for a finite number.
pub fn is_finite32(b: u32) -> (r: bool)
    ensures
        r == f32_finite(b),
{
    if b >= 0x8000_0000 {
        b - 0x8000_0000 < 0x7f80_0000
    } else {
        b < 0x7f80_0000
    }
}

/// The signed key of a pattern.
fn key32(b: u32) -> (r: i64)
    ensures
        r == f32_key(b),
{
    if b >= 0x8000_0000 {
        -((b - 0x8000_0000) as i64)
    } else {
        b as i64
    }
}

/// `a < b` as the numbers the patterns stand for.
pub fn less32(a: u32, b: u32) -> (r: bool)
    ensures
        r == f32_lt(a, b),
{
    !is_nan32(a) && !is_nan32(b) && key32(a) < key32(b)
}

/// `a <= b` as the numbers the patterns stand for.
pub fn at_most32(a: u32, b: u32) -> (r: bool)
    ensures
        r == f32_le(a, b),
{
    !is_nan32(a) && !is_nan32(b) && key32(a) <= key32(b)
}

/// The key of the IEEE total order.
pub fn total_key32(b: u32) -> (r: i64)
    ensures
        r == f32_total_key(b),
{
    if b >= 0x8000_0000 {
        -((b - 0x8000_0000) as i64) - 1
    } else {
        b as i64
    }
}

/// Whether the binary64 pattern is not a number.
pub fn is_nan64(b: u64) -> (r: bool)
    ensures
        r == f64_nan(b),
{
    if b >= 0x8000_0000_0000_0000 {
        b - 0x8000_0000_0000_0000 > 0x7ff0_0000_0000_0000
    } else {
        b > 0x7ff0_0000_0000_0000
    }
}

/// Whether the binary64 pattern stands for a finite number.
pub fn is_finite64(b: u64) -> (r: bool)
    ensures
        r == f64_finite(b),
{
    if b >= 0x8000_0000_0000_0000 {
        b - 0x8000_0000_0000_0000 < 0x7ff0_0000_0000_0000
    } else {
        b < 0x7ff0_0000_0000_0000
    }
}

fn key64(b: u64) -> (r: i64)
    ensures
        r == f64_key(b),
{
    if b >= 0x8000_0000_0000_0000 {
        -((b - 0x8000_0000_0000_0000) as i64)
    } else {
        b as i64
    }
}

/// `a < b` on binary64 patterns.
pub fn less64(a: u64, b: u64) -> (r: bool)
    ensures
        r == f64_lt(a, b),
{
    !is_nan64(a) && !is_nan64(b) && key64(a) < key64(b)
}

/// `a <= b` on binary64 patterns.
pub fn at_most64(a: u64, b: u64) -> (r: bool)
    ensures
        r == f64_le(a, b),
{
    !is_nan64(a) && !is_nan64(b) && key64(a) <= key64(b)
}

/// The total order agrees with `<` wherever `<` decides.
pub proof fn law_total_order_refines_less(a: u32, b: u32)
    ensures
        f32_lt(a, b) ==> f32_total_key(a) < f32_total_key(b),
{
}

/// The total order tells any two patterns apart.
pub proof fn law_total_order_is_injective(a: u32, b: u32)
    ensures
        f32_total_key(a) == f32_total_key(b) ==> a == b,
{
}

/// Comparison goes by sign and then by magnitude: two numbers with a clear
/// sign bit compare as their patterns do, two with the sign bit set the other
/// way round, and a negative number is below a positive one; the two zeros are
/// equal, and what is not a number compares with nothing.
pub proof fn law_less_goes_by_sign_and_magnitude(a: u32, b: u32)
    ensures
        f32_nan(a) <==> 0x7f80_0000 < a < 0x8000_0000 || a > 0xff80_0000,
        f32_finite(a) <==> a < 0x7f80_0000 || 0x8000_0000 <= a < 0xff80_0000,
        f32_nan(a) || f32_nan(b) ==> !f32_lt(a, b) && !f32_le(a, b),
        !f32_nan(a) && !f32_nan(b) ==> {
            &&& a < 0x8000_0000 && b < 0x8000_0000 ==> (f32_lt(a, b) <==> a < b)
            &&& a >= 0x8000_0000 && b >= 0x8000_0000 ==> (f32_lt(a, b) <==> a > b)
            &&& a >= 0x8000_0000 && b < 0x8000_0000 ==> (f32_lt(a, b) <==> !(a == 0x8000_0000 && b
                == 0))
            &&& a < 0x8000_0000 && b >= 0x8000_0000 ==> !f32_lt(a, b)
            &&& f32_le(a, b) <==> !f32_lt(b, a)
        },
{
}

/// The same of binary64 patterns.
pub proof fn law_less64_goes_by_sign_and_magnitude(a: u64, b: u64)
    ensures
        f64_nan(a) <==> 0x7ff0_0000_0000_0000 < a < 0x8000_0000_0000_0000 || a
            > 0xfff0_0000_0000_0000,
        f64_finite(a) <==> a < 0x7ff0_0000_0000_0000 || 0x8000_0000_0000_0000 <= a
            < 0xfff0_0000_0000_0000,
        f64_nan(a) || f64_nan(b) ==> !f64_lt(a, b) && !f64_le(a, b),
        !f64_nan(a) && !f64_nan(b) ==> {
            &&& a < 0x8000_0000_0000_0000 && b < 0x8000_0000_0000_0000 ==> (f64_lt(a, b) <==> a < b)
            &&& a >= 0x8000_0000_0000_0000 && b >= 0x8000_0000_0000_0000 ==> (f64_lt(a, b) <==> a
                > b)
            &&& a >= 0x8000_0000_0000_0000 && b < 0x8000_0000_0000_0000 ==> (f64_lt(a, b) <==> !(a
                == 0x8000_0000_0000_0000 && b == 0))
            &&& a < 0x8000_0000_0000_0000 && b >= 0x8000_0000_0000_0000 ==> !f64_lt(a, b)
            &&& f64_le(a, b) <==> !f64_lt(b, a)
        },
{
}

/// The total order puts every pattern in its place: those with the sign bit
/// set first, the greatest magnitude foremost, then those with a clear one.
pub proof fn law_total_order_goes_by_sign_and_magnitude(a: u32, b: u32)
    ensures
        a < 0x8000_0000 && b < 0x8000_0000 ==> (f32_total_key(a) < f32_total_key(b) <==> a < b),
        a >= 0x8000_0000 && b >= 0x8000_0000 ==> (f32_total_key(a) < f32_total_key(b) <==> a > b),
        a >= 0x8000_0000 && b < 0x8000_0000 ==> f32_total_key(a) < f32_total_key(b),
{
}

} // verus!

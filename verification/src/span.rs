//! Correctly rounded spans of binary32 numbers, and the 8-bit rulers that are
//! made from them.
use vstd::arithmetic::div_mod::lemma_fundamental_div_mod;
use vstd::arithmetic::div_mod::lemma_fundamental_div_mod_converse;
use vstd::prelude::*;

use crate::float_bits::{
    f32_finite, f32_lt, f32_magnitude, f32_nan, is_finite32, less32, F32_INFINITY,
};
use crate::rounding::{
    f32_of_nat, law_rounding_is_to_the_nearest, lemma_powers, lemma_top_bit, lemma_two_to_positive,
    lemma_two_to_split, round_half_even, top_bit, two_to,
};

verus! {

/// Pattern of negative infinity.
pub const F32_NEG_INFINITY: u32 = 0xff80_0000;

/// Pattern of `1.0`.
pub const F32_ONE: u32 = 0x3f80_0000;

/// The number that the pattern `mag` with a clear sign bit stands for, in
/// units of the smallest positive number.
pub open spec fn units(mag: nat) -> nat {
    if mag < 0x80_0000 {
        mag
    } else {
        (0x80_0000 + mag % 0x80_0000) * two_to((mag / 0x80_0000 - 1) as nat)
    }
}

/// The number that a finite pattern stands for, in the same units.
pub open spec fn f32_value(b: u32) -> int {
    if b >= 0x8000_0000 {
        -(units(f32_magnitude(b) as nat) as int)
    } else {
        units(f32_magnitude(b) as nat) as int
    }
}

/// The pattern of `num / den` units, rounded to the nearest, a tie to even;
/// infinity where it is too large.
pub open spec fn f32_nearest(num: nat, den: nat) -> nat {
    if num / den < 0x100_0000 {
        round_half_even(num, den)
    } else {
        let k = (top_bit(num / den) - 23) as nat;
        let p = k * 0x80_0000 + round_half_even(num, den * two_to(k));
        if p >= 0x7f80_0000 {
            0x7f80_0000
        } else {
            p
        }
    }
}

/// How far `hi` is above `lo`: the rounded difference where it is positive,
/// else 0.
pub open spec fn f32_rise(hi: u32, lo: u32) -> u32 {
    if !f32_lt(lo, hi) {
        0
    } else if !f32_finite(hi) || !f32_finite(lo) {
        F32_INFINITY
    } else {
        f32_nearest((f32_value(hi) - f32_value(lo)) as nat, 1) as u32
    }
}

// ---------------- rounding ----------------

proof fn lemma_two_to_monotone(a: nat, b: nat)
    requires
        a <= b,
    ensures
        two_to(a) <= two_to(b),
    decreases b - a,
{
    if a < b {
        lemma_two_to_monotone(a, (b - 1) as nat);
    }
}

proof fn lemma_top_bit_is(n: nat, t: nat)
    requires
        two_to(t) <= n < 2 * two_to(t),
    ensures
        top_bit(n) == t,
{
    lemma_two_to_positive(t);
    lemma_top_bit(n);
    let u = top_bit(n);
    if u < t {
        lemma_two_to_monotone(u + 1, t);
    } else if t < u {
        lemma_two_to_monotone(t + 1, u);
    }
}

proof fn lemma_top_bit_shift(n: nat, s: nat)
    requires
        n > 0,
    ensures
        top_bit(n * two_to(s)) == top_bit(n) + s,
{
    lemma_top_bit(n);
    let t = top_bit(n);
    lemma_two_to_split(t, s);
    lemma_two_to_positive(s);
    let c = two_to(s);
    assert(two_to(t) * c <= n * c) by (nonlinear_arith)
        requires
            two_to(t) <= n,
            c >= 1,
    ;
    assert(n * c < 2 * (two_to(t) * c)) by (nonlinear_arith)
        requires
            n < 2 * two_to(t),
            c >= 1,
    ;
    lemma_top_bit_is(n * c, t + s);
}

/// Rounding does not see a common factor.
proof fn lemma_round_scaled(n: nat, m: nat, c: nat)
    requires
        m > 0,
        c > 0,
    ensures
        round_half_even(n * c, m * c) == round_half_even(n, m),
{
    let q = n as int / m as int;
    let r = n as int % m as int;
    lemma_fundamental_div_mod(n as int, m as int);
    assert(n as int == m as int * q + r);
    assert(0 <= r < m);
    assert(n * c == q * (m * c) + r * c) by (nonlinear_arith)
        requires
            n as int == m as int * q + r,
    ;
    assert(0 <= r * c && r * c < m * c) by (nonlinear_arith)
        requires
            0 <= r < m,
            c > 0,
    ;
    lemma_fundamental_div_mod_converse((n * c) as int, (m * c) as int, q, r * c);
    assert((2 * r > m) == (2 * (r * c) > m * c)) by (nonlinear_arith)
        requires
            c > 0,
    ;
    assert((2 * r == m) == (2 * (r * c) == m * c)) by (nonlinear_arith)
        requires
            c > 0,
    ;
}

proof fn lemma_round_by_one(n: nat)
    ensures
        round_half_even(n, 1) == n,
        n / 1 == n,
{
    lemma_fundamental_div_mod_converse(n as int, 1, n as int, 0);
}

proof fn lemma_round_exact(q: nat, c: nat)
    requires
        c > 0,
    ensures
        round_half_even(q * c, c) == q,
{
    lemma_round_scaled(q, 1, c);
    lemma_round_by_one(q);
    assert(1 * c == c);
}

/// The pattern that a mantissa `q` with the shift `k` makes.
spec fn packed(k: nat, q: nat) -> nat {
    let p = k * 0x80_0000 + q;
    if p >= 0x7f80_0000 {
        0x7f80_0000
    } else {
        p
    }
}

/// Rounding of a number that is wide enough, shifted left.
proof fn lemma_nearest_shifted(n: nat, s: nat)
    requires
        n >= 0x100_0000,
    ensures
        top_bit(n) >= 24,
        f32_nearest(n * two_to(s), 1) == packed(
            (top_bit(n) + s - 23) as nat,
            round_half_even(n, two_to((top_bit(n) - 23) as nat)),
        ),
{
    lemma_powers();
    lemma_top_bit(n);
    let t = top_bit(n);
    if t < 24 {
        lemma_two_to_monotone(t, 23);
    }
    let c = two_to(s);
    lemma_two_to_positive(s);
    let x = n * c;
    assert(x >= n) by (nonlinear_arith)
        requires
            x == n * c,
            c >= 1,
    ;
    lemma_round_by_one(x);
    lemma_top_bit_shift(n, s);
    let k = (t + s - 23) as nat;
    lemma_two_to_split((t - 23) as nat, s);
    assert((t - 23) as nat + s == k);
    lemma_two_to_positive((t - 23) as nat);
    lemma_round_scaled(n, two_to((t - 23) as nat), c);
    assert(1 * two_to(k) == two_to(k));
}

/// Rounding of a narrow number, shifted left: exact.
proof fn lemma_nearest_exact(n: nat, s: nat)
    requires
        0 < n < 0x100_0000,
    ensures
        n * two_to(s) < 0x100_0000 ==> f32_nearest(n * two_to(s), 1) == n * two_to(s),
        n * two_to(s) >= 0x100_0000 ==> {
            let t = top_bit(n);
            &&& t <= 23
            &&& t + s >= 24
            &&& f32_nearest(n * two_to(s), 1) == packed(
                (t + s - 23) as nat,
                n * two_to((23 - t) as nat),
            )
        },
{
    lemma_powers();
    lemma_top_bit(n);
    let t = top_bit(n);
    let x = n * two_to(s);
    lemma_round_by_one(x);
    if t > 23 {
        lemma_two_to_monotone(24, t);
    }
    if x >= 0x100_0000 {
        lemma_top_bit_shift(n, s);
        lemma_top_bit(x);
        if t + s < 24 {
            lemma_two_to_monotone(t + s, 23);
        }
        let k = (t + s - 23) as nat;
        lemma_two_to_split((23 - t) as nat, k);
        assert((23 - t) as nat + k == s);
        let q = n * two_to((23 - t) as nat);
        assert(x == q * two_to(k)) by (nonlinear_arith)
            requires
                x == n * two_to(s),
                two_to(s) == two_to((23 - t) as nat) * two_to(k),
                q == n * two_to((23 - t) as nat),
        ;
        lemma_two_to_positive(k);
        lemma_round_exact(q, two_to(k));
        assert(1 * two_to(k) == two_to(k));
    }
}

/// A number far below the other does not change it.
proof fn lemma_far_apart(ma: nat, mb: nat, d: nat, s: nat, minus: bool)
    requires
        0x80_0000 <= ma < 0x100_0000,
        mb < 0x100_0000,
        d > 64,
        (d + s) * 0x80_0000 + ma < 0x7f80_0000,
    ensures
        ({
            let n = if minus {
                (ma * two_to(d) - mb) as nat
            } else {
                ma * two_to(d) + mb
            };
            &&& ma * two_to(d) >= mb
            &&& f32_nearest(n * two_to(s), 1) == (d + s) * 0x80_0000 + ma
        }),
{
    lemma_powers();
    let g = two_to(d);
    let h = two_to((d - 1) as nat);
    assert(g == 2 * h);
    lemma_two_to_monotone(30, (d - 1) as nat);
    lemma_two_to_split(d, 23);
    lemma_two_to_split(d, 24);
    assert(h >= 0x4000_0000);
    let a = ma * g;
    assert(0x80_0000 * g <= a && a <= 0xff_ffff * g) by (nonlinear_arith)
        requires
            a == ma * g,
            0x80_0000 <= ma <= 0xff_ffff,
    ;
    let n: nat = if minus {
        (a - mb) as nat
    } else {
        a + mb
    };
    lemma_nearest_shifted(n, s);
    assert(two_to(d + 23) == g * 0x80_0000);
    if minus && ma == 0x80_0000 && mb > 0 {
        lemma_two_to_split((d - 1) as nat, 23);
        assert((d - 1) as nat + 23 == d + 22);
        assert(two_to((d + 22) as nat) == h * 0x80_0000);
        lemma_top_bit_is(n, (d + 22) as nat);
        let q = 0xff_ffffint;
        let r = h - mb;
        assert(n as int == q * h + r) by (nonlinear_arith)
            requires
                n as int == 0x80_0000 * g - mb,
                g == 2 * h,
                q == 0xff_ffff,
                r == h - mb,
        ;
        lemma_fundamental_div_mod_converse(n as int, h as int, q, r);
        assert(round_half_even(n, h) == 0x100_0000);
        assert((d + 22 - 23) as nat == (d - 1) as nat);
        assert((d + 22 + s - 23) as nat == (d + s - 1) as nat);
    } else if minus && mb > 0 {
        assert(0x80_0001 * g <= a) by (nonlinear_arith)
            requires
                a == ma * g,
                0x80_0001 <= ma,
        ;
        lemma_top_bit_is(n, (d + 23) as nat);
        let q = ma - 1;
        let r = g - mb;
        assert(n as int == q * g + r) by (nonlinear_arith)
            requires
                n as int == ma * g - mb,
                q == ma - 1,
                r == g - mb,
        ;
        lemma_fundamental_div_mod_converse(n as int, g as int, q, r);
        assert(round_half_even(n, g) == ma);
    } else {
        lemma_top_bit_is(n, (d + 23) as nat);
        lemma_fundamental_div_mod_converse(n as int, g as int, ma as int, mb as int);
        assert(round_half_even(n, g) == ma);
    }
}

// ---------------- parts of a pattern ----------------

/// Mantissa and shift of a finite magnitude.
fn parts_of(mag: u32) -> (r: (u32, u32))
    requires
        mag < 0x7f80_0000,
    ensures
        units(mag as nat) == r.0 as nat * two_to(r.1 as nat),
        r.0 < 0x100_0000,
        r.1 > 0 ==> r.0 >= 0x80_0000,
        r.1 <= 253,
        mag == r.1 * 0x80_0000 + r.0,
{
    if mag < 0x80_0000 {
        assert(mag as nat * two_to(0) == mag as nat) by {
            assert(two_to(0) == 1);
        }
        (mag, 0)
    } else {
        (0x80_0000 + mag % 0x80_0000, mag / 0x80_0000 - 1)
    }
}

/// A power of two.
fn power(e: u32) -> (r: u128)
    requires
        e <= 100,
    ensures
        r == two_to(e as nat),
{
    let mut p: u128 = 1;
    let mut i: u32 = 0;
    proof {
        lemma_hundred();
    }
    while i < e
        invariant
            i <= e <= 100,
            p == two_to(i as nat),
            two_to(100) == 0x10_0000_0000_0000_0000_0000_0000nat,
        decreases e - i,
    {
        proof {
            lemma_two_to_monotone((i + 1) as nat, 100);
        }
        p = p * 2;
        i = i + 1;
    }
    p
}

proof fn lemma_hundred()
    ensures
        two_to(100) == 0x10_0000_0000_0000_0000_0000_0000nat,
        two_to(90) == 0x400_0000_0000_0000_0000_0000nat,
        two_to(64) == 0x1_0000_0000_0000_0000nat,
{
    lemma_powers();
    assert(two_to(2) == 4) by {
        reveal_with_fuel(two_to, 3);
    }
    assert(two_to(10) == 1024) by {
        reveal_with_fuel(two_to, 11);
    }
    lemma_two_to_split(30, 30);
    lemma_two_to_split(60, 30);
    lemma_two_to_split(90, 10);
    lemma_two_to_split(30, 2);
    lemma_two_to_split(32, 32);
    assert(0x4000_0000nat * 0x4000_0000nat == 0x1000_0000_0000_0000nat) by (nonlinear_arith);
    assert(0x1000_0000_0000_0000nat * 0x4000_0000nat == 0x400_0000_0000_0000_0000_0000nat)
        by (nonlinear_arith);
    assert(0x400_0000_0000_0000_0000_0000nat * 1024 == 0x10_0000_0000_0000_0000_0000_0000nat)
        by (nonlinear_arith);
    assert(0x4000_0000nat * 4 == 0x1_0000_0000nat);
    assert(0x1_0000_0000nat * 0x1_0000_0000nat == 0x1_0000_0000_0000_0000nat)
        by (nonlinear_arith);
}

/// Place of the highest one bit.
fn highest_bit(n: u128) -> (r: u32)
    requires
        0 < n < 0x400_0000_0000_0000_0000_0000,
    ensures
        r == top_bit(n as nat),
        r < 90,
{
    let mut rest: u128 = n;
    let mut t: u32 = 0;
    proof {
        lemma_top_bit(n as nat);
        lemma_hundred();
        if top_bit(n as nat) >= 90 {
            lemma_two_to_monotone(90, top_bit(n as nat));
        }
    }
    while rest >= 2
        invariant
            t + top_bit(rest as nat) == top_bit(n as nat),
            top_bit(n as nat) < 90,
        decreases rest,
    {
        rest = rest / 2;
        t = t + 1;
    }
    t
}

/// `n * 2^s` units, rounded.
fn rounded(n: u128, s: u32) -> (r: u32)
    requires
        0 < n < 0x400_0000_0000_0000_0000_0000,
        s <= 253,
    ensures
        r == f32_nearest(n as nat * two_to(s as nat), 1),
{
    let t: u32 = highest_bit(n);
    proof {
        lemma_powers();
        lemma_hundred();
        lemma_top_bit(n as nat);
        lemma_two_to_positive(s as nat);
        lemma_top_bit_shift(n as nat, s as nat);
        lemma_two_to_split(t as nat, s as nat);
    }
    let ghost x = n as nat * two_to(s as nat);
    if t + s < 24 {
        proof {
            lemma_top_bit(x);
            lemma_two_to_monotone((t + s) as nat, 23);
            lemma_two_to_monotone(t as nat, 23);
            lemma_nearest_exact(n as nat, s as nat);
        }
        let p: u128 = power(s);
        return (n * p) as u32;
    }
    proof {
        lemma_top_bit(x);
        lemma_two_to_monotone(24, (t + s) as nat);
    }
    let k: u32 = t + s - 23;
    let q: u128;
    if t <= 23 {
        proof {
            lemma_two_to_monotone(t as nat, 23);
            lemma_nearest_exact(n as nat, s as nat);
            lemma_two_to_split(t as nat, (23 - t) as nat);
            let u = two_to((23 - t) as nat);
            assert(n as nat * u < 0x100_0000) by (nonlinear_arith)
                requires
                    n < 2 * two_to(t as nat),
                    two_to(t as nat) * u == 0x80_0000,
            ;
        }
        q = n * power(23 - t);
    } else {
        proof {
            lemma_two_to_monotone(24, t as nat);
            lemma_nearest_shifted(n as nat, s as nat);
            lemma_two_to_split((t - 23) as nat, 23);
            lemma_two_to_positive((t - 23) as nat);
        }
        let d: u128 = power(t - 23);
        let floor: u128 = n / d;
        let rem: u128 = n % d;
        assert(floor < 0x100_0000) by (nonlinear_arith)
            requires
                floor == n / d,
                n < 2 * two_to(t as nat),
                two_to(t as nat) == d * 0x80_0000,
                d >= 1,
        ;
        assert(d <= 0x10_0000_0000_0000_0000_0000_0000) by {
            lemma_two_to_monotone((t - 23) as nat, 100);
        }
        q = if 2 * rem > d || (2 * rem == d && floor % 2 == 1) {
            floor + 1
        } else {
            floor
        };
    }
    assert(q <= 0x100_0000);
    let p: u64 = (k as u64) * 0x80_0000 + (q as u64);
    if p >= 0x7f80_0000 {
        F32_INFINITY
    } else {
        p as u32
    }
}

/// The sum or the difference of two finite magnitudes, rounded.
fn combined(a: u32, b: u32, minus: bool) -> (r: u32)
    requires
        b <= a < 0x7f80_0000,
        a > 0,
        minus ==> b < a,
    ensures
        minus ==> units(a as nat) >= units(b as nat),
        r == f32_nearest(
            (if minus {
                units(a as nat) - units(b as nat)
            } else {
                (units(a as nat) + units(b as nat)) as int
            }) as nat,
            1,
        ),
{
    let (ma, sa) = parts_of(a);
    let (mb, sb) = parts_of(b);
    assert(sa >= sb);
    let d: u32 = sa - sb;
    proof {
        lemma_powers();
        lemma_two_to_split(d as nat, sb as nat);
        let g = two_to(d as nat);
        let c = two_to(sb as nat);
        assert(ma as nat * (g * c) == (ma as nat * g) * c) by (nonlinear_arith);
        assert((ma as nat * g) * c + mb as nat * c == (ma as nat * g + mb as nat) * c)
            by (nonlinear_arith);
        assert((ma as nat * g) * c - mb as nat * c == (ma as nat * g - mb) * c)
            by (nonlinear_arith);
        lemma_two_to_positive(d as nat);
        if d > 0 {
            lemma_two_to_monotone(1, d as nat);
            assert(two_to(1) == 2) by {
                reveal_with_fuel(two_to, 2);
            }
            assert(ma as nat * g >= 0x100_0000) by (nonlinear_arith)
                requires
                    ma >= 0x80_0000,
                    g >= 2,
            ;
        } else {
            assert(ma as nat * 1 == ma as nat);
        }
        if minus {
            assert((ma as nat * g - mb) * c >= 0) by (nonlinear_arith)
                requires
                    ma as nat * g >= mb,
            ;
        }
    }
    if d > 64 {
        proof {
            lemma_far_apart(ma as nat, mb as nat, d as nat, sb as nat, minus);
        }
        return a;
    }
    proof {
        lemma_hundred();
        lemma_two_to_monotone(d as nat, 64);
        let g = two_to(d as nat);
        assert(ma as nat * g < 0x100_0000_0000_0000_0000_0000nat) by (nonlinear_arith)
            requires
                ma < 0x100_0000,
                g <= 0x1_0000_0000_0000_0000nat,
        ;
        assert(ma as nat * g > 0) by (nonlinear_arith)
            requires
                ma > 0,
                g >= 1,
        ;
    }
    let wide: u128 = (ma as u128) * power(d);
    let n: u128 = if minus {
        wide - (mb as u128)
    } else {
        wide + (mb as u128)
    };
    rounded(n, sb)
}

/// How far `hi` is above `lo`.
pub fn rise32(hi: u32, lo: u32) -> (r: u32)
    ensures
        r == f32_rise(hi, lo),
{
    if !less32(lo, hi) {
        return 0;
    }
    if !is_finite32(hi) || !is_finite32(lo) {
        return F32_INFINITY;
    }
    if hi < 0x8000_0000 {
        if lo < 0x8000_0000 {
            combined(hi, lo, true)
        } else if hi >= lo - 0x8000_0000 {
            combined(hi, lo - 0x8000_0000, false)
        } else {
            combined(lo - 0x8000_0000, hi, false)
        }
    } else {
        combined(lo - 0x8000_0000, hi - 0x8000_0000, true)
    }
}

// ---------------- rulers ----------------

/// Rounding of a ratio that is wide enough, shifted left.
proof fn lemma_ratio_shifted(x: nat, den: nat, j: nat)
    requires
        den > 0,
        x / den >= 0x100_0000,
    ensures
        top_bit(x / den) >= 24,
        f32_nearest(x * two_to(j), den) == packed(
            (top_bit(x / den) + j - 23) as nat,
            round_half_even(x, den * two_to((top_bit(x / den) - 23) as nat)),
        ),
{
    lemma_powers();
    let f = x / den;
    lemma_top_bit(f);
    let t = top_bit(f);
    if t < 24 {
        lemma_two_to_monotone(t, 23);
    }
    let c = two_to(j);
    lemma_two_to_positive(j);
    let g = (x * c) / den;
    let low = two_to(t);
    assert(low * den <= x && x < 2 * low * den) by (nonlinear_arith)
        requires
            f == x / den,
            low <= f < 2 * low,
            den > 0,
    ;
    assert((low * c) * den <= x * c && x * c < (2 * (low * c)) * den) by (nonlinear_arith)
        requires
            low * den <= x,
            x < 2 * low * den,
            c >= 1,
    ;
    let lc = low * c;
    assert(lc <= g && g < 2 * lc) by (nonlinear_arith)
        requires
            g == (x * c) / den,
            lc * den <= x * c,
            x * c < (2 * lc) * den,
            den > 0,
    ;
    lemma_two_to_split(t, j);
    lemma_top_bit_is(g, t + j);
    lemma_two_to_monotone(24, t);
    assert(lc >= 0x100_0000) by (nonlinear_arith)
        requires
            lc == low * c,
            low >= 0x100_0000,
            c >= 1,
    ;
    let k = (t - 23) as nat;
    lemma_two_to_split(k, j);
    assert(k + j == (t + j - 23) as nat);
    lemma_two_to_positive(k);
    let dk = den * two_to(k);
    assert(dk > 0) by (nonlinear_arith)
        requires
            dk == den * two_to(k),
            den > 0,
            two_to(k) >= 1,
    ;
    lemma_round_scaled(x, dk, c);
    assert(dk * c == den * (two_to(k) * c)) by (nonlinear_arith)
        requires
            dk == den * two_to(k),
    ;
}

fn round_ratio(num: u128, den: u128) -> (r: u128)
    requires
        den > 0,
        den < 0x1_0000_0000_0000_0000_0000_0000_0000,
        num < 0x1_0000_0000_0000_0000_0000_0000_0000,
    ensures
        r == round_half_even(num as nat, den as nat),
{
    let q: u128 = num / den;
    let rem: u128 = num % den;
    assert(q <= num) by (nonlinear_arith)
        requires
            q == num / den,
            den > 0,
    ;
    if 2 * rem > den || (2 * rem == den && q % 2 == 1) {
        q + 1
    } else {
        q
    }
}

/// The `den`-th part of a finite positive number, rounded.
fn part_of(p: u32, den: u32) -> (r: u32)
    requires
        0 < p < 0x7f80_0000,
        0 < den <= 0xffff,
    ensures
        r == f32_nearest(units(p as nat), den as nat),
{
    let (m, s) = parts_of(p);
    let low: u32 = if s <= 40 {
        s
    } else {
        40
    };
    let j: u32 = s - low;
    proof {
        lemma_powers();
        lemma_hundred();
        lemma_two_to_monotone(low as nat, 64);
        lemma_two_to_split(low as nat, j as nat);
        lemma_two_to_positive(low as nat);
        lemma_two_to_split(30, 10);
        assert(two_to(10) == 1024) by {
            reveal_with_fuel(two_to, 11);
        }
        lemma_two_to_monotone(low as nat, 40);
        let g = two_to(low as nat);
        let c = two_to(j as nat);
        assert(m as nat * (g * c) == (m as nat * g) * c) by (nonlinear_arith);
        assert(m as nat * g < 0x1_0000_0000_0000_0000) by (nonlinear_arith)
            requires
                m < 0x100_0000,
                g <= 0x100_0000_0000,
        ;
    }
    let x: u128 = (m as u128) * power(low);
    let q: u128 = x / (den as u128);
    if q < 0x100_0000 {
        proof {
            if j > 0 {
                let g = two_to(40);
                assert(x >= 0x80_0000 * 0x100_0000_0000) by (nonlinear_arith)
                    requires
                        x == m as nat * g,
                        m >= 0x80_0000,
                        g == 0x100_0000_0000,
                ;
                assert(q >= 0x100_0000) by (nonlinear_arith)
                    requires
                        q == x / (den as u128),
                        x >= 0x80_0000 * 0x100_0000_0000,
                        0 < den <= 0xffff,
                ;
            }
            assert(x as nat * two_to(0) == x as nat) by {
                assert(two_to(0) == 1);
            }
            assert(round_half_even(x as nat, den as nat) <= q + 1);
        }
        round_ratio(x, den as u128) as u32
    } else {
        assert(q <= x) by (nonlinear_arith)
            requires
                q == x / (den as u128),
                den > 0,
        ;
        let t: u32 = highest_bit(q);
        proof {
            lemma_ratio_shifted(x as nat, den as nat, j as nat);
            lemma_top_bit(q as nat);
            if t >= 64 {
                lemma_two_to_monotone(64, t as nat);
            }
        }
        let k: u32 = t - 23;
        proof {
            lemma_two_to_monotone(k as nat, 64);
            lemma_two_to_split(k as nat, 23);
            lemma_two_to_positive(k as nat);
            let c = two_to(k as nat);
            assert(den as nat * c <= 0xffff * 0x1_0000_0000_0000_0000) by (nonlinear_arith)
                requires
                    den <= 0xffff,
                    c <= 0x1_0000_0000_0000_0000nat,
            ;
            assert(den as nat * c > 0) by (nonlinear_arith)
                requires
                    den > 0,
                    c > 0,
            ;
        }
        let dk: u128 = (den as u128) * power(k);
        let rounded_q: u128 = round_ratio(x, dk);
        proof {
            let c = two_to(k as nat);
            let f = x as nat / dk as nat;
            assert(f < 0x100_0000) by (nonlinear_arith)
                requires
                    f == x as nat / dk as nat,
                    dk as nat == den as nat * c,
                    q == x / (den as u128),
                    q < 2 * (c * 0x80_0000),
                    den > 0,
                    c > 0,
            ;
            assert(rounded_q <= f + 1);
        }
        let packed_p: u64 = ((k + j) as u64) * 0x80_0000 + (rounded_q as u64);
        if packed_p >= 0x7f80_0000 {
            F32_INFINITY
        } else {
            packed_p as u32
        }
    }
}

/// The ruler entry, scale and offset, of a coordinate with this range: 255
/// steps from the minimum where the span is positive and finite, else unit
/// steps from the minimum, or from 0 where there is no finite one.
pub open spec fn ruler_entry(min: u32, max: u32) -> (u32, u32) {
    let span = f32_rise(max, min);
    if 0 < span < F32_INFINITY {
        (f32_nearest(units(span as nat), 255) as u32, min)
    } else if f32_finite(min) {
        (F32_ONE, min)
    } else {
        (F32_ONE, 0)
    }
}

/// The ruler, scales and offsets, of coordinates with these ranges.
pub fn derive_sq8_quantizer_from_min_max(min: &Vec<u32>, max: &Vec<u32>) -> (r: (
    Vec<u32>,
    Vec<u32>,
))
    requires
        min@.len() == max@.len(),
    ensures
        r.0@.len() == min@.len(),
        r.1@.len() == min@.len(),
        forall|d: int|
            0 <= d < min@.len() ==> (#[trigger] r.0@[d], r.1@[d]) == ruler_entry(min@[d], max@[d]),
{
    let mut scale: Vec<u32> = Vec::new();
    let mut offset: Vec<u32> = Vec::new();
    let mut d: usize = 0;
    while d < min.len()
        invariant
            d <= min@.len(),
            min@.len() == max@.len(),
            scale@.len() == d,
            offset@.len() == d,
            forall|e: int|
                0 <= e < d ==> (#[trigger] scale@[e], offset@[e]) == ruler_entry(min@[e], max@[e]),
        decreases min.len() - d,
    {
        let span: u32 = rise32(max[d], min[d]);
        if 0 < span && span < F32_INFINITY {
            offset.push(min[d]);
            scale.push(part_of(span, 255));
        } else {
            if is_finite32(min[d]) {
                offset.push(min[d]);
            } else {
                offset.push(0);
            }
            scale.push(F32_ONE);
        }
        d = d + 1;
    }
    (scale, offset)
}

/// Least of the first `n` picked rows in coordinate `d`, infinity where none
/// counts.
pub open spec fn least_in(rows: Seq<Vec<u32>>, picks: Seq<usize>, d: int, n: nat) -> u32
    decreases n,
{
    if n == 0 {
        F32_INFINITY
    } else {
        let rest = least_in(rows, picks, d, (n - 1) as nat);
        let v = rows[picks[n - 1] as int]@[d];
        if f32_lt(v, rest) {
            v
        } else {
            rest
        }
    }
}

/// Greatest of the first `n` picked rows in coordinate `d`.
pub open spec fn greatest_in(rows: Seq<Vec<u32>>, picks: Seq<usize>, d: int, n: nat) -> u32
    decreases n,
{
    if n == 0 {
        F32_NEG_INFINITY
    } else {
        let rest = greatest_in(rows, picks, d, (n - 1) as nat);
        let v = rows[picks[n - 1] as int]@[d];
        if f32_lt(rest, v) {
            v
        } else {
            rest
        }
    }
}

/// Widen a range by one row.
pub fn update_min_max(row: &Vec<u32>, min: &mut Vec<u32>, max: &mut Vec<u32>)
    requires
        row@.len() == old(min)@.len(),
        row@.len() == old(max)@.len(),
    ensures
        final(min)@.len() == row@.len(),
        final(max)@.len() == row@.len(),
        forall|d: int|
            0 <= d < row@.len() ==> #[trigger] final(min)@[d] == (if f32_lt(
                row@[d],
                old(min)@[d],
            ) {
                row@[d]
            } else {
                old(min)@[d]
            }),
        forall|d: int|
            0 <= d < row@.len() ==> #[trigger] final(max)@[d] == (if f32_lt(
                old(max)@[d],
                row@[d],
            ) {
                row@[d]
            } else {
                old(max)@[d]
            }),
{
    let ghost lo = min@;
    let ghost hi = max@;
    let mut d: usize = 0;
    while d < row.len()
        invariant
            d <= row@.len(),
            row@.len() == lo.len(),
            row@.len() == hi.len(),
            min@.len() == row@.len(),
            max@.len() == row@.len(),
            forall|e: int|
                0 <= e < d ==> #[trigger] min@[e] == (if f32_lt(row@[e], lo[e]) {
                    row@[e]
                } else {
                    lo[e]
                }),
            forall|e: int|
                0 <= e < d ==> #[trigger] max@[e] == (if f32_lt(hi[e], row@[e]) {
                    row@[e]
                } else {
                    hi[e]
                }),
            forall|e: int| d <= e < row@.len() ==> #[trigger] min@[e] == lo[e],
            forall|e: int| d <= e < row@.len() ==> #[trigger] max@[e] == hi[e],
        decreases row.len() - d,
    {
        if less32(row[d], min[d]) {
            min.set(d, row[d]);
        }
        if less32(max[d], row[d]) {
            max.set(d, row[d]);
        }
        d = d + 1;
    }
}

/// The range of the picked rows in each coordinate: minima, then maxima.
pub fn range_of(rows: &Vec<Vec<u32>>, picks: &Vec<usize>, dim: usize) -> (r: (Vec<u32>, Vec<u32>))
    requires
        forall|i: int| 0 <= i < rows@.len() ==> (#[trigger] rows@[i])@.len() == dim,
        forall|i: int| 0 <= i < picks@.len() ==> #[trigger] picks@[i] < rows@.len(),
    ensures
        r.0@.len() == dim,
        r.1@.len() == dim,
        forall|d: int|
            0 <= d < dim ==> #[trigger] r.0@[d] == least_in(rows@, picks@, d, picks@.len()),
        forall|d: int|
            0 <= d < dim ==> #[trigger] r.1@[d] == greatest_in(rows@, picks@, d, picks@.len()),
{
    let mut min: Vec<u32> = Vec::new();
    let mut max: Vec<u32> = Vec::new();
    let mut d: usize = 0;
    while d < dim
        invariant
            d <= dim,
            min@.len() == d,
            max@.len() == d,
            forall|e: int| 0 <= e < d ==> #[trigger] min@[e] == F32_INFINITY,
            forall|e: int| 0 <= e < d ==> #[trigger] max@[e] == F32_NEG_INFINITY,
        decreases dim - d,
    {
        min.push(F32_INFINITY);
        max.push(F32_NEG_INFINITY);
        d = d + 1;
    }
    let mut i: usize = 0;
    while i < picks.len()
        invariant
            i <= picks@.len(),
            forall|j: int| 0 <= j < rows@.len() ==> (#[trigger] rows@[j])@.len() == dim,
            forall|j: int| 0 <= j < picks@.len() ==> #[trigger] picks@[j] < rows@.len(),
            min@.len() == dim,
            max@.len() == dim,
            forall|e: int|
                0 <= e < dim ==> #[trigger] min@[e] == least_in(rows@, picks@, e, i as nat),
            forall|e: int|
                0 <= e < dim ==> #[trigger] max@[e] == greatest_in(rows@, picks@, e, i as nat),
        decreases picks.len() - i,
    {
        let row: usize = picks[i];
        assert(picks@[i as int] < rows@.len());
        assert(rows@[row as int]@.len() == dim);
        update_min_max(&rows[row], &mut min, &mut max);
        i = i + 1;
    }
    (min, max)
}

/// The ruler entry of a plane that is fitted to its rows, with `levels` steps:
/// from the minimum over the span where that is positive. A coordinate without
/// a span has a unit step, from its minimum where `keep_min` asks for it and
/// there is a finite one, else from 0.
pub open spec fn fitted_entry(min: u32, max: u32, levels: nat, keep_min: bool) -> (u32, u32) {
    let span = f32_rise(max, min);
    if f32_finite(min) && span > 0 {
        (
            if span < F32_INFINITY {
                f32_nearest(units(span as nat), levels) as u32
            } else {
                F32_INFINITY
            },
            min,
        )
    } else if f32_finite(min) && keep_min {
        (F32_ONE, min)
    } else {
        (F32_ONE, 0)
    }
}

/// The ruler, scales and offsets, of a plane fitted to all rows.
pub fn fitted_ruler(min: &Vec<u32>, max: &Vec<u32>, levels: u32, keep_min: bool) -> (r: (
    Vec<u32>,
    Vec<u32>,
))
    requires
        min@.len() == max@.len(),
        0 < levels <= 0xffff,
    ensures
        r.0@.len() == min@.len(),
        r.1@.len() == min@.len(),
        forall|d: int|
            0 <= d < min@.len() ==> (#[trigger] r.0@[d], r.1@[d]) == fitted_entry(
                min@[d],
                max@[d],
                levels as nat,
                keep_min,
            ),
{
    let mut scale: Vec<u32> = Vec::new();
    let mut offset: Vec<u32> = Vec::new();
    let mut d: usize = 0;
    while d < min.len()
        invariant
            d <= min@.len(),
            min@.len() == max@.len(),
            0 < levels <= 0xffff,
            scale@.len() == d,
            offset@.len() == d,
            forall|e: int|
                0 <= e < d ==> (#[trigger] scale@[e], offset@[e]) == fitted_entry(
                    min@[e],
                    max@[e],
                    levels as nat,
                    keep_min,
                ),
        decreases min.len() - d,
    {
        let span: u32 = rise32(max[d], min[d]);
        if is_finite32(min[d]) && span > 0 {
            offset.push(min[d]);
            if span < F32_INFINITY {
                scale.push(part_of(span, levels));
            } else {
                scale.push(F32_INFINITY);
            }
        } else {
            if is_finite32(min[d]) && keep_min {
                offset.push(min[d]);
            } else {
                offset.push(0);
            }
            scale.push(F32_ONE);
        }
        proof {
            lemma_rise_bound(max@[d as int], min@[d as int]);
        }
        d = d + 1;
    }
    (scale, offset)
}

/// A span is at most infinity.
proof fn lemma_rise_bound(hi: u32, lo: u32)
    ensures
        f32_rise(hi, lo) <= F32_INFINITY,
{
    lemma_powers();
    let x = (f32_value(hi) - f32_value(lo)) as nat;
    lemma_round_by_one(x);
}

// ---------------- what rounding means ----------------

/// The pattern `p` stands for `num / den` units rounded to 24 significant
/// bits: its value is `q` steps of `2^k` units, within half a step of the
/// quotient, an even number of steps on a tie. Steps are wider than one unit
/// only where all 24 bits are used.
pub open spec fn is_rounded(num: nat, den: nat, p: nat, q: nat, k: nat) -> bool {
    &&& units(p) == q * two_to(k)
    &&& q <= 0x100_0000
    &&& k == 0 || q >= 0x80_0000
    &&& 2 * (q * (den * two_to(k)) - num) <= den * two_to(k)
    &&& 2 * (num - q * (den * two_to(k))) <= den * two_to(k)
    &&& 2 * (q * (den * two_to(k)) - num) == den * two_to(k) || 2 * (num - q * (den * two_to(k)))
        == den * two_to(k) ==> q % 2 == 0
}

proof fn lemma_units_of(k: nat, q: nat)
    requires
        q <= 0x100_0000,
        k == 0 || q >= 0x80_0000,
    ensures
        units(k * 0x80_0000 + q) == q * two_to(k),
{
    let p = k * 0x80_0000 + q;
    if q < 0x80_0000 {
        assert(q * 1 == q);
    } else if q < 0x100_0000 {
        assert(p as int / 0x80_0000 == k + 1 && p as int % 0x80_0000 == q - 0x80_0000) by {
            lemma_fundamental_div_mod_converse(p as int, 0x80_0000, k as int + 1, q - 0x80_0000);
        }
    } else {
        assert(p as int / 0x80_0000 == k + 2 && p as int % 0x80_0000 == 0) by {
            lemma_fundamental_div_mod_converse(p as int, 0x80_0000, k as int + 2, 0);
        }
        assert(two_to(k + 1) == 2 * two_to(k));
        let c = two_to(k);
        assert(0x80_0000 * (2 * c) == 0x100_0000 * c) by (nonlinear_arith);
    }
}

/// A quotient that is not too large for the format comes out correctly
/// rounded.
pub proof fn law_quotient_is_correctly_rounded(num: nat, den: nat) -> (at: (nat, nat))
    requires
        den > 0,
    ensures
        f32_nearest(num, den) < 0x7f80_0000 ==> is_rounded(
            num,
            den,
            f32_nearest(num, den),
            at.0,
            at.1,
        ),
        f32_nearest(num, den) <= 0x7f80_0000,
{
    let f = num / den;
    lemma_fundamental_div_mod(num as int, den as int);
    assert(num as int == den as int * (f as int) + num as int % den as int);
    if f < 0x100_0000 {
        let q = round_half_even(num, den);
        law_rounding_is_to_the_nearest(num, den);
        assert(den * two_to(0) == den) by {
            assert(two_to(0) == 1);
            assert(den * 1 == den);
        }
        lemma_units_of(0, q);
        (q, 0)
    } else {
        lemma_powers();
        lemma_top_bit(f);
        let t = top_bit(f);
        if t < 24 {
            lemma_two_to_monotone(t, 23);
        }
        let k = (t - 23) as nat;
        let c = two_to(k);
        lemma_two_to_positive(k);
        let d = den * c;
        assert(d > 0) by (nonlinear_arith)
            requires
                den > 0,
                c >= 1,
                d == den * c,
        ;
        lemma_two_to_split(23, k);
        assert(two_to(t) == 0x80_0000 * c);
        let q = round_half_even(num, d);
        law_rounding_is_to_the_nearest(num, d);
        assert(0x80_0000 * d <= num < 0x100_0000 * d) by (nonlinear_arith)
            requires
                d == den * c,
                0x80_0000 * c <= f < 2 * (0x80_0000 * c),
                num as int == den as int * (f as int) + num as int % den as int,
                0 <= num as int % (den as int) < den,
                den > 0,
        ;
        let floor = num as int / d as int;
        lemma_fundamental_div_mod(num as int, d as int);
        assert(0x80_0000 <= floor < 0x100_0000) by (nonlinear_arith)
            requires
                0x80_0000 * d <= num < 0x100_0000 * d,
                num as int == d as int * floor + num as int % d as int,
                0 <= num as int % (d as int) < d,
                d > 0,
        ;
        assert(q == floor || q == floor + 1);
        lemma_units_of(k, q);
        (q, k)
    }
}

/// The rise between two finite numbers is their difference, correctly rounded;
/// there is none from a number to one that is not above it.
pub proof fn law_rise_is_the_rounded_difference(hi: u32, lo: u32) -> (at: (nat, nat))
    ensures
        f32_finite(hi) && f32_finite(lo) && f32_lt(lo, hi) && f32_rise(hi, lo) < 0x7f80_0000
            ==> is_rounded(
            (f32_value(hi) - f32_value(lo)) as nat,
            1,
            f32_rise(hi, lo) as nat,
            at.0,
            at.1,
        ),
        !f32_lt(lo, hi) ==> f32_rise(hi, lo) == 0,
        f32_lt(lo, hi) && !(f32_finite(hi) && f32_finite(lo)) ==> f32_rise(hi, lo) == 0x7f80_0000,
        f32_rise(hi, lo) <= 0x7f80_0000,
{
    law_quotient_is_correctly_rounded((f32_value(hi) - f32_value(lo)) as nat, 1)
}

/// A ruler has 255 steps over a span that is positive and finite, and starts
/// at the minimum; else its step is `1.0`, from the minimum where that is
/// finite and from 0 where it is not.
pub proof fn law_ruler_divides_the_span(min: u32, max: u32) -> (at: (nat, nat))
    ensures
        0 < f32_rise(max, min) < 0x7f80_0000 && f32_nearest(
            units(f32_rise(max, min) as nat),
            255,
        ) < 0x7f80_0000 ==> ruler_entry(min, max).1 == min && is_rounded(
            units(f32_rise(max, min) as nat),
            255,
            ruler_entry(min, max).0 as nat,
            at.0,
            at.1,
        ),
        !(0 < f32_rise(max, min) < 0x7f80_0000) ==> ruler_entry(min, max).0 == 0x3f80_0000
            && ruler_entry(min, max).1 == (if f32_finite(min) {
            min
        } else {
            0
        }),
{
    law_quotient_is_correctly_rounded(units(f32_rise(max, min) as nat), 255)
}

/// A fitted ruler has the given number of steps over a positive span and
/// starts at the minimum; a coordinate without a span has the step `1.0`.
pub proof fn law_fitted_ruler_divides_the_span(
    min: u32,
    max: u32,
    levels: nat,
    keep_min: bool,
) -> (at: (nat, nat))
    requires
        levels > 0,
    ensures
        ({
            let r = fitted_entry(min, max, levels, keep_min);
            let span = f32_rise(max, min);
            &&& f32_finite(min) && span > 0 ==> r.1 == min
            &&& f32_finite(min) && span == 0x7f80_0000 ==> r.0 == 0x7f80_0000
            &&& f32_finite(min) && 0 < span < 0x7f80_0000 && f32_nearest(
                units(span as nat),
                levels,
            ) < 0x7f80_0000 ==> is_rounded(units(span as nat), levels, r.0 as nat, at.0, at.1)
            &&& !f32_finite(min) || span == 0 ==> r.0 == 0x3f80_0000 && r.1 == (if keep_min
                && f32_finite(min) {
                min
            } else {
                0
            })
        }),
{
    lemma_rise_bound(max, min);
    law_quotient_is_correctly_rounded(units(f32_rise(max, min) as nat), levels)
}

/// The range of picked rows is exact: no number among them lies outside it,
/// and each end is one of them, or infinite where there is none.
pub proof fn law_range_is_tight(rows: Seq<Vec<u32>>, picks: Seq<usize>, d: int, n: nat)
    requires
        n <= picks.len(),
    ensures
        forall|i: int|
            0 <= i < n ==> !f32_lt(
                rows[#[trigger] picks[i] as int]@[d],
                least_in(rows, picks, d, n),
            ) && !f32_lt(greatest_in(rows, picks, d, n), rows[picks[i] as int]@[d]),
        least_in(rows, picks, d, n) == 0x7f80_0000 || exists|i: int|
            0 <= i < n && least_in(rows, picks, d, n) == rows[#[trigger] picks[i] as int]@[d],
        greatest_in(rows, picks, d, n) == 0xff80_0000 || exists|i: int|
            0 <= i < n && greatest_in(rows, picks, d, n) == rows[#[trigger] picks[i] as int]@[d],
        !f32_nan(least_in(rows, picks, d, n)),
        !f32_nan(greatest_in(rows, picks, d, n)),
    decreases n,
{
    if n > 0 {
        law_range_is_tight(rows, picks, d, (n - 1) as nat);
        let v = rows[picks[n - 1] as int]@[d];
        assert(v == rows[picks[n - 1] as int]@[d]);
    }
}

/// The pattern of a whole number is that of the number in units, correctly
/// rounded.
pub proof fn law_whole_number_is_correctly_rounded(v: nat)
    requires
        0 < v < 0x1_0000_0000_0000_0000,
    ensures
        f32_of_nat(v) == f32_nearest(v * two_to(149), 1),
        f32_of_nat(0) == 0,
{
    let e = top_bit(v);
    let n = v * two_to(149);
    lemma_top_bit(v);
    lemma_top_bit_shift(v, 149);
    lemma_round_by_one(n);
    lemma_powers();
    lemma_hundred();
    if e >= 64 {
        lemma_two_to_monotone(64, e);
    }
    lemma_two_to_monotone(24, 149);
    assert(n >= 0x100_0000) by (nonlinear_arith)
        requires
            n == v * two_to(149),
            v >= 1,
            two_to(149) >= 0x100_0000,
    ;
    let k = (e + 126) as nat;
    assert(top_bit(n) - 23 == k);
    assert(1 * two_to(k) == two_to(k));
    if e <= 23 {
        let s = (23 - e) as nat;
        lemma_two_to_split(s, k);
        assert(s + k == 149);
        let q = v * two_to(s);
        assert(n == q * two_to(k)) by (nonlinear_arith)
            requires
                n == v * two_to(149),
                two_to(149) == two_to(s) * two_to(k),
                q == v * two_to(s),
        ;
        lemma_two_to_positive(k);
        lemma_round_exact(q, two_to(k));
        assert(q < 0x100_0000) by {
            lemma_two_to_split(e, s);
            assert(e + s == 23);
            lemma_two_to_positive(s);
            assert(v * two_to(s) < 2 * two_to(e) * two_to(s)) by (nonlinear_arith)
                requires
                    v < 2 * two_to(e),
                    two_to(s) >= 1,
            ;
            assert(2 * two_to(e) * two_to(s) == 2 * (two_to(e) * two_to(s))) by (nonlinear_arith);
        }
    } else {
        let s = (e - 23) as nat;
        lemma_two_to_split(s, 149);
        assert(s + 149 == k);
        lemma_two_to_positive(s);
        lemma_two_to_positive(149);
        lemma_round_scaled(v, two_to(s), two_to(149));
        law_rounding_is_to_the_nearest(v, two_to(s));
        lemma_two_to_monotone(24, e);
        lemma_f32_of_nat_below(v);
    }
}

proof fn lemma_f32_of_nat_below(v: nat)
    requires
        0x100_0000 <= v < 0x1_0000_0000_0000_0000,
    ensures
        f32_of_nat(v) < 0x7f80_0000,
{
    let e = top_bit(v);
    lemma_top_bit(v);
    lemma_powers();
    lemma_hundred();
    if e >= 64 {
        lemma_two_to_monotone(64, e);
    }
    if e < 24 {
        lemma_two_to_monotone(e, 23);
    }
    let s = (e - 23) as nat;
    let c = two_to(s);
    lemma_two_to_positive(s);
    lemma_two_to_split(23, s);
    assert(v < 0x100_0000 * c);
    let f = v as int / c as int;
    lemma_fundamental_div_mod(v as int, c as int);
    assert(f < 0x100_0000) by (nonlinear_arith)
        requires
            v < 0x100_0000 * c,
            v as int == c as int * f + v as int % c as int,
            0 <= v as int % (c as int),
            c > 0,
    ;
    assert(round_half_even(v, c) <= f + 1);
}

} // verus!

//! Correctly rounded conversions from integers to IEEE patterns.
use vstd::prelude::*;

verus! {

/// `2` to the power `n`.
pub open spec fn two_to(n: nat) -> nat
    decreases n,
{
    if n == 0 {
        1
    } else {
        2 * two_to((n - 1) as nat)
    }
}

/// `num / den` rounded to the nearest integer, a tie to the even one.
pub open spec fn round_half_even(num: nat, den: nat) -> nat {
    let q = num / den;
    let r = num % den;
    if 2 * r > den || (2 * r == den && q % 2 == 1) {
        q + 1
    } else {
        q
    }
}

/// Place of the highest one bit.
pub open spec fn top_bit(v: nat) -> nat
    decreases v,
{
    if v < 2 {
        0
    } else {
        1 + top_bit(v / 2)
    }
}

/// The binary32 pattern of a natural number below `2^64`: exact where it has
/// at most 24 significant bits, else rounded to the nearest, a tie to even.
pub open spec fn f32_of_nat(v: nat) -> nat {
    if v == 0 {
        0
    } else {
        let e = top_bit(v);
        let m = if e <= 23 {
            v * two_to((23 - e) as nat)
        } else {
            round_half_even(v, two_to((e - 23) as nat))
        };
        ((126 + e) * 0x80_0000 + m) as nat
    }
}

/// The binary32 pattern of `-v`, with zero taken as negative zero.
pub open spec fn f32_of_negated(v: int) -> u32 {
    if v >= 0 {
        (0x8000_0000 + f32_of_nat(v as nat)) as u32
    } else {
        f32_of_nat((-v) as nat) as u32
    }
}

pub proof fn lemma_two_to_positive(n: nat)
    ensures
        two_to(n) >= 1,
    decreases n,
{
    if n > 0 {
        lemma_two_to_positive((n - 1) as nat);
    }
}

pub proof fn lemma_two_to_split(a: nat, b: nat)
    ensures
        two_to(a + b) == two_to(a) * two_to(b),
    decreases a,
{
    if a == 0 {
        assert(1 * two_to(b) == two_to(b));
    } else {
        lemma_two_to_split((a - 1) as nat, b);
        assert((a - 1) as nat + b == (a + b - 1) as nat);
        let x = two_to((a - 1) as nat);
        let y = two_to(b);
        assert(2 * (x * y) == (2 * x) * y) by (nonlinear_arith);
    }
}

pub proof fn lemma_powers()
    ensures
        two_to(23) == 0x80_0000,
        two_to(24) == 0x100_0000,
        two_to(30) == 0x4000_0000,
        two_to(31) == 0x8000_0000,
{
    assert(two_to(7) == 128 && two_to(8) == 256) by {
        reveal_with_fuel(two_to, 9);
    }
    lemma_two_to_split(8, 8);
    lemma_two_to_split(16, 7);
    lemma_two_to_split(16, 8);
    lemma_two_to_split(23, 7);
    lemma_two_to_split(23, 8);
}

pub proof fn lemma_top_bit(v: nat)
    requires
        v > 0,
    ensures
        two_to(top_bit(v)) <= v < 2 * two_to(top_bit(v)),
    decreases v,
{
    if v >= 2 {
        lemma_top_bit(v / 2);
    }
}

/// The pattern of a number below `2^31` is that of a finite number: the sign
/// bit is clear and it stays below the pattern of `2^31 + 1` rounded.
pub proof fn lemma_f32_of_nat_bound(v: nat)
    requires
        v < 0x8000_0000,
    ensures
        f32_of_nat(v) <= 0x4f00_0000,
{
    if v > 0 {
        let e = top_bit(v);
        lemma_top_bit(v);
        assert(e <= 30) by {
            if e >= 31 {
                lemma_two_to_split(31, (e - 31) as nat);
                lemma_two_to_positive((e - 31) as nat);
                lemma_powers();
                assert(two_to(31) * two_to((e - 31) as nat) >= two_to(31)) by (nonlinear_arith)
                    requires
                        two_to((e - 31) as nat) >= 1,
                ;
            }
        }
        lemma_powers();
        if e <= 23 {
            let k = two_to((23 - e) as nat);
            lemma_two_to_split(e, (23 - e) as nat);
            lemma_powers();
            assert(v * k <= 2 * (two_to(e) * k)) by (nonlinear_arith)
                requires
                    v < 2 * two_to(e),
            ;
        } else {
            let d = two_to((e - 23) as nat);
            lemma_two_to_positive((e - 23) as nat);
            lemma_two_to_split((e - 23) as nat, 23);
            lemma_powers();
            assert(v < d * 0x100_0000) by (nonlinear_arith)
                requires
                    v < 2 * two_to(e),
                    two_to(e) == d * 0x80_0000,
            ;
            assert(v / d < 0x100_0000) by (nonlinear_arith)
                requires
                    v < d * 0x100_0000,
                    d >= 1,
            ;
        }
    }
}

/// The exponent of the highest one bit, and that power of two.
fn highest_power(v: u64) -> (r: (u32, u64))
    requires
        0 < v < 0x8000_0000,
    ensures
        r.0 == top_bit(v as nat),
        r.1 == two_to(r.0 as nat),
        r.0 <= 30,
{
    let mut rest: u64 = v;
    let mut e: u32 = 0;
    let mut p: u64 = 1;
    proof {
        lemma_f32_exponent(v as nat);
    }
    while rest >= 2
        invariant
            e + top_bit(rest as nat) == top_bit(v as nat),
            top_bit(v as nat) <= 30,
            p == two_to(e as nat),
            p <= 0x4000_0000,
            e <= 30,
        decreases rest,
    {
        rest = rest / 2;
        proof {
            lemma_two_to_step(e as nat, 30);
        }
        p = p * 2;
        e = e + 1;
    }
    (e, p)
}

proof fn lemma_two_to_step(e: nat, top: nat)
    requires
        e < top <= 30,
    ensures
        two_to(e + 1) == 2 * two_to(e),
        2 * two_to(e) <= 0x4000_0000,
{
    lemma_two_to_split(e + 1, (30 - (e + 1)) as nat);
    lemma_two_to_positive((30 - (e + 1)) as nat);
    lemma_powers();
    let a = two_to(e + 1);
    let b = two_to((30 - (e + 1)) as nat);
    assert(a <= a * b) by (nonlinear_arith)
        requires
            b >= 1,
    ;
}

proof fn lemma_f32_exponent(v: nat)
    requires
        0 < v < 0x8000_0000,
    ensures
        top_bit(v) <= 30,
{
    lemma_top_bit(v);
    let e = top_bit(v);
    if e >= 31 {
        lemma_two_to_split(31, (e - 31) as nat);
        lemma_two_to_positive((e - 31) as nat);
        lemma_powers();
        assert(two_to(31) * two_to((e - 31) as nat) >= two_to(31)) by (nonlinear_arith)
            requires
                two_to((e - 31) as nat) >= 1,
        ;
    }
}

/// The pattern of a number below `2^31`.
fn pattern_of(v: u64) -> (r: u32)
    requires
        v < 0x8000_0000,
    ensures
        r == f32_of_nat(v as nat),
        r <= 0x4f00_0000,
{
    proof {
        lemma_f32_of_nat_bound(v as nat);
    }
    if v == 0 {
        return 0;
    }
    let (e, p) = highest_power(v);
    proof {
        lemma_powers();
    }
    let m: u64;
    if e <= 23 {
        proof {
            lemma_two_to_split(e as nat, (23 - e) as nat);
            lemma_two_to_positive(e as nat);
            lemma_top_bit(v as nat);
        }
        let ghost k = two_to((23 - e) as nat);
        assert(0x80_0000 == p * k);
        assert(0x80_0000u64 / p == k) by (nonlinear_arith)
            requires
                0x80_0000 == p * k,
                p >= 1,
        ;
        let up: u64 = 0x80_0000 / p;
        assert(v * k <= 0x100_0000) by (nonlinear_arith)
            requires
                v < 2 * p,
                0x80_0000 == p * k,
        ;
        m = v * up;
    } else {
        proof {
            lemma_two_to_split((e - 23) as nat, 23);
            lemma_two_to_positive((e - 23) as nat);
        }
        let ghost d0 = two_to((e - 23) as nat);
        assert(p / 0x80_0000 == d0) by (nonlinear_arith)
            requires
                p == d0 * 0x80_0000,
        ;
        let d: u64 = p / 0x80_0000;
        let q: u64 = v / d;
        let rem: u64 = v % d;
        assert(q <= v) by (nonlinear_arith)
            requires
                q == v / d,
                d >= 1,
        ;
        assert(rem < d <= p) by (nonlinear_arith)
            requires
                rem == v % d,
                d >= 1,
                p == d * 0x80_0000,
        ;
        m = if 2 * rem > d || (2 * rem == d && q % 2 == 1) {
            q + 1
        } else {
            q
        };
    }
    ((126 + e as u64) * 0x80_0000 + m) as u32
}

/// The binary32 pattern of `-v`.
pub fn negated_to_f32(v: i32) -> (r: u32)
    requires
        v > i32::MIN,
    ensures
        r == f32_of_negated(v as int),
{
    if v >= 0 {
        0x8000_0000 + pattern_of(v as u64)
    } else {
        pattern_of((-(v as i64)) as u64)
    }
}

/// Rounding to the nearest integer errs by half at most, and on a tie the
/// result is even.
pub proof fn law_rounding_is_to_the_nearest(num: nat, den: nat)
    requires
        den > 0,
    ensures
        2 * (round_half_even(num, den) * den - num) <= den,
        2 * (num - round_half_even(num, den) * den) <= den,
        2 * (round_half_even(num, den) * den - num) == den || 2 * (num - round_half_even(num, den)
            * den) == den ==> round_half_even(num, den) % 2 == 0,
{
    let q = num as int / den as int;
    let r = num as int % den as int;
    vstd::arithmetic::div_mod::lemma_fundamental_div_mod(num as int, den as int);
    assert(den as int * q == q * den as int) by (nonlinear_arith);
    assert((q + 1) * den as int == q * den as int + den) by (nonlinear_arith);
    assert(num == q * den as int + r);
    assert(0 <= r < den);
    assert(q >= 0) by (nonlinear_arith)
        requires
            q == num as int / den as int,
            den > 0,
            num >= 0,
    ;
}

proof fn lemma_rounds_up_with(a: nat, b: nat, den: nat)
    requires
        a <= b,
        den > 0,
    ensures
        round_half_even(a, den) <= round_half_even(b, den),
{
    let qa = a as int / den as int;
    let qb = b as int / den as int;
    vstd::arithmetic::div_mod::lemma_fundamental_div_mod(a as int, den as int);
    vstd::arithmetic::div_mod::lemma_fundamental_div_mod(b as int, den as int);
    vstd::arithmetic::div_mod::lemma_div_is_ordered(a as int, b as int, den as int);
    if qa == qb {
        assert(a as int % den as int <= b as int % den as int);
    }
}

/// A larger number never has a smaller pattern.
pub proof fn law_patterns_grow_with_the_number(a: nat, b: nat)
    requires
        a <= b,
    ensures
        f32_of_nat(a) <= f32_of_nat(b),
{
    if a > 0 {
        lemma_top_bit(a);
        lemma_top_bit(b);
        lemma_mantissa(a);
        lemma_mantissa(b);
        let ea = top_bit(a);
        let eb = top_bit(b);
        if eb < ea {
            lemma_two_to_split((ea - eb - 1) as nat, (eb + 1) as nat);
            lemma_two_to_positive((ea - eb - 1) as nat);
            let x = two_to((ea - eb - 1) as nat);
            let y = two_to((eb + 1) as nat);
            assert(x * y >= y) by (nonlinear_arith)
                requires
                    x >= 1,
            ;
        }
        if ea == eb {
            if ea <= 23 {
                let s = two_to((23 - ea) as nat);
                assert(a * s <= b * s) by (nonlinear_arith)
                    requires
                        a <= b,
                ;
            } else {
                lemma_two_to_positive((ea - 23) as nat);
                lemma_rounds_up_with(a, b, two_to((ea - 23) as nat));
            }
        }
    }
}

/// The significant bits of a number as its pattern holds them.
spec fn mantissa(v: nat) -> nat {
    let e = top_bit(v);
    if e <= 23 {
        v * two_to((23 - e) as nat)
    } else {
        round_half_even(v, two_to((e - 23) as nat))
    }
}

proof fn lemma_mantissa(v: nat)
    requires
        v > 0,
    ensures
        0x80_0000 <= mantissa(v) <= 0x100_0000,
        f32_of_nat(v) == (126 + top_bit(v)) * 0x80_0000 + mantissa(v),
{
    let e = top_bit(v);
    lemma_top_bit(v);
    lemma_powers();
    if e <= 23 {
        let s = (23 - e) as nat;
        let c = two_to(s);
        lemma_two_to_split(e, s);
        lemma_two_to_positive(s);
        assert(two_to(e) * c <= v * c && v * c < (2 * two_to(e)) * c) by (nonlinear_arith)
            requires
                two_to(e) <= v < 2 * two_to(e),
                c >= 1,
        ;
        assert((2 * two_to(e)) * c == 2 * (two_to(e) * c)) by (nonlinear_arith);
    } else {
        let s = (e - 23) as nat;
        let c = two_to(s);
        lemma_two_to_split(23, s);
        lemma_two_to_positive(s);
        assert(0x80_0000 * c <= v < 0x100_0000 * c);
        let f = v as int / c as int;
        vstd::arithmetic::div_mod::lemma_fundamental_div_mod(v as int, c as int);
        assert(0x80_0000 <= f < 0x100_0000) by (nonlinear_arith)
            requires
                0x80_0000 * c <= v < 0x100_0000 * c,
                v as int == c as int * f + v as int % c as int,
                0 <= v as int % (c as int) < c,
                c > 0,
        ;
    }
}

/// A number of up to 24 significant bits is kept apart from any smaller one.
pub proof fn law_small_numbers_are_exact(a: nat, b: nat)
    requires
        a < b,
        b <= 0x100_0000,
    ensures
        f32_of_nat(a) < f32_of_nat(b),
{
    lemma_powers();
    lemma_top_bit(b);
    lemma_mantissa(b);
    if a > 0 {
        lemma_top_bit(a);
        lemma_mantissa(a);
        let ea = top_bit(a);
        let eb = top_bit(b);
        if eb < ea {
            lemma_two_to_split((ea - eb - 1) as nat, (eb + 1) as nat);
            lemma_two_to_positive((ea - eb - 1) as nat);
            let x = two_to((ea - eb - 1) as nat);
            let y = two_to((eb + 1) as nat);
            assert(x * y >= y) by (nonlinear_arith)
                requires
                    x >= 1,
            ;
        }
        if ea > 23 {
            lemma_two_to_split((ea - 24) as nat, 24);
            lemma_two_to_positive((ea - 24) as nat);
            let x = two_to((ea - 24) as nat);
            assert(x * 0x100_0000 >= 0x100_0000) by (nonlinear_arith)
                requires
                    x >= 1,
            ;
        }
        let c = two_to((23 - ea) as nat);
        lemma_two_to_positive((23 - ea) as nat);
        assert(a * c < b * c) by (nonlinear_arith)
            requires
                a < b,
                c >= 1,
        ;
        if ea < eb {
            lemma_two_to_split(ea, (23 - ea) as nat);
            let t = two_to(ea);
            assert(a * c < 0x100_0000) by (nonlinear_arith)
                requires
                    a < 2 * t,
                    t * c == 0x80_0000,
                    c >= 1,
            ;
        }
    }
}

} // verus!

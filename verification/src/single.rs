//! IEEE 754 binary32 values, held as their 32-bit patterns.
//!
//! Elevations and direction components travel through this library as the
//! bit patterns of single-precision numbers. This module gives those patterns
//! a meaning over the integers: the magnitude of a pattern, multiplied by
//! 2^149, is a natural number, so order and rounding can be stated exactly
//! without leaving integer arithmetic.

use vstd::arithmetic::div_mod::lemma_fundamental_div_mod;
use vstd::arithmetic::power2::{
    lemma2_to64, lemma2_to64_rest, lemma_pow2_adds, lemma_pow2_pos,
    lemma_pow2_strictly_increases, lemma_pow2_unfold, pow2,
};
use vstd::prelude::*;

verus! {

/// The sign bit of a pattern.
pub const SIGN: u32 = 0x8000_0000;

/// The pattern of positive infinity: every larger magnitude is a NaN.
pub const INFINITY: u32 = 0x7f80_0000;

/// 2^23: the weight of the implicit leading bit of a normal significand.
pub const HIDDEN: u32 = 0x0080_0000;

/// The pattern of positive zero.
pub const ZERO: u32 = 0;

/// The pattern without its sign bit.
pub open spec fn magnitude(bits: u32) -> int {
    if bits >= SIGN {
        bits - SIGN
    } else {
        bits as int
    }
}

/// The sign bit is set. This holds of negative zero too.
pub open spec fn is_negative(bits: u32) -> bool {
    bits >= SIGN
}

/// The pattern stands for no number.
pub open spec fn is_nan(bits: u32) -> bool {
    magnitude(bits) > INFINITY
}

/// Positive or negative zero.
pub open spec fn is_zero(bits: u32) -> bool {
    magnitude(bits) == 0
}

/// The eight exponent bits, as stored.
pub open spec fn biased_exponent(bits: u32) -> int {
    magnitude(bits) / (HIDDEN as int)
}

/// The twenty-three fraction bits.
pub open spec fn fraction(bits: u32) -> int {
    magnitude(bits) % (HIDDEN as int)
}

/// The integer significand: the fraction, with the implicit bit for all but
/// zeros and subnormals.
pub open spec fn significand(bits: u32) -> int {
    if biased_exponent(bits) == 0 {
        fraction(bits)
    } else {
        fraction(bits) + HIDDEN
    }
}

/// The power of two that weighs the significand, counted from 2^-149, the
/// weight of the last bit of a subnormal.
pub open spec fn scale(bits: u32) -> nat {
    if biased_exponent(bits) == 0 {
        0
    } else {
        (biased_exponent(bits) - 1) as nat
    }
}

/// The magnitude of the number times 2^149. An infinity is given the value
/// that its pattern would have as a finite number, which lies above every
/// finite one.
pub open spec fn scaled_magnitude(bits: u32) -> int {
    significand(bits) * pow2(scale(bits))
}

/// The number times 2^149.
pub open spec fn scaled(bits: u32) -> int {
    if is_negative(bits) {
        -scaled_magnitude(bits)
    } else {
        scaled_magnitude(bits)
    }
}

/// `a > b` as IEEE 754 orders them: false when either is a NaN, and the two
/// zeros are equal.
pub open spec fn greater(a: u32, b: u32) -> bool {
    !is_nan(a) && !is_nan(b) && scaled(a) > scaled(b)
}

/// Among patterns that are no NaN, a larger magnitude pattern is a larger
/// magnitude.
pub proof fn lemma_magnitude_order(a: u32, b: u32)
    requires
        magnitude(a) < magnitude(b) <= INFINITY,
    ensures
        0 <= scaled_magnitude(a) < scaled_magnitude(b),
{
    let ea = biased_exponent(a);
    let eb = biased_exponent(b);
    let sa = significand(a);
    let sb = significand(b);
    let pa = pow2(scale(a)) as int;
    let pb = pow2(scale(b)) as int;
    lemma_pow2_pos(scale(a));
    lemma_pow2_pos(scale(b));
    assert(0 <= sa * pa) by (nonlinear_arith)
        requires
            0 <= sa,
            0 < pa,
    ;
    if ea == eb {
        assert(sa * pa < sb * pa) by (nonlinear_arith)
            requires
                sa < sb,
                0 < pa,
        ;
    } else {
        assert(sb * 1 <= sb * pb) by (nonlinear_arith)
            requires
                0 <= sb,
                1 <= pb,
        ;
        if ea == 0 {
            lemma2_to64();
        } else {
            lemma_pow2_unfold((scale(a) + 1) as nat);
            if scale(a) + 1 < scale(b) {
                lemma_pow2_strictly_increases((scale(a) + 1) as nat, scale(b));
            }
            assert(sa * pa < sb * pb) by (nonlinear_arith)
                requires
                    0 <= sa < 2 * HIDDEN,
                    HIDDEN <= sb,
                    0 < pa,
                    2 * pa <= pb,
            ;
        }
    }
}

/// Only the two zeros have magnitude zero.
pub proof fn lemma_zero_magnitude(a: u32)
    requires
        !is_nan(a),
    ensures
        scaled_magnitude(a) == 0 <==> is_zero(a),
        scaled_magnitude(a) >= 0,
{
    let p = pow2(scale(a)) as int;
    let s = significand(a);
    lemma_pow2_pos(scale(a));
    if s > 0 {
        assert(s * p > 0) by (nonlinear_arith)
            requires
                s > 0,
                p > 0,
        ;
    } else {
        assert(s * p == 0) by (nonlinear_arith)
            requires
                s == 0,
        ;
    }
}

/// Tells a NaN from a number.
pub fn nan(bits: u32) -> (r: bool)
    ensures
        r == is_nan(bits),
{
    if bits >= SIGN {
        bits - SIGN > INFINITY
    } else {
        bits > INFINITY
    }
}

/// Tells whether the pattern is one of the two zeros.
pub fn zero(bits: u32) -> (r: bool)
    ensures
        r == is_zero(bits),
{
    bits == 0 || bits == SIGN
}

/// The comparison `a > b` of the two numbers.
pub fn gt(a: u32, b: u32) -> (r: bool)
    ensures
        r == greater(a, b),
{
    if nan(a) || nan(b) {
        return false;
    }
    let ma: u32 = if a >= SIGN {
        a - SIGN
    } else {
        a
    };
    let mb: u32 = if b >= SIGN {
        b - SIGN
    } else {
        b
    };
    proof {
        lemma_zero_magnitude(a);
        lemma_zero_magnitude(b);
        if magnitude(a) < magnitude(b) {
            lemma_magnitude_order(a, b);
        }
        if magnitude(b) < magnitude(a) {
            lemma_magnitude_order(b, a);
        }
        if magnitude(a) == magnitude(b) {
            assert(scaled_magnitude(a) == scaled_magnitude(b));
        }
    }
    if a < SIGN {
        if b < SIGN {
            ma > mb
        } else {
            ma > 0 || mb > 0
        }
    } else {
        if b < SIGN {
            false
        } else {
            ma < mb
        }
    }
}

/// The magnitude of an integer.
pub open spec fn absolute(n: int) -> int {
    if n < 0 {
        -n
    } else {
        n
    }
}

/// The integer nearest to `num / den`; of two that are equally near, the even
/// one.
pub open spec fn round_half_even(num: int, den: int) -> int
    recommends
        num >= 0,
        den > 0,
{
    let q = num / den;
    let r = num % den;
    if 2 * r < den {
        q
    } else if 2 * r > den {
        q + 1
    } else if q % 2 == 0 {
        q
    } else {
        q + 1
    }
}

/// `num / den` lies in `[2^(23+e), 2^(24+e))`: written with a significand of
/// twenty-four bits, its last bit weighs `2^e`.
pub open spec fn in_binade(num: int, den: int, e: int) -> bool {
    if e >= 0 {
        0x80_0000 * (den * pow2(e as nat)) <= num < 0x100_0000 * (den * pow2(e as nat))
    } else {
        0x80_0000 * den <= num * pow2((-e) as nat) < 0x100_0000 * den
    }
}

/// The `e` for which `num / den` lies in `[2^(23+e), 2^(24+e))`.
pub open spec fn binade(num: int, den: int) -> int
    recommends
        num > 0,
        den > 0,
{
    choose|e: int| in_binade(num, den, e)
}

/// `num / den` in units of `2^e`, rounded to an integer.
pub open spec fn rounded_significand(num: int, den: int, e: int) -> int {
    if e >= 0 {
        round_half_even(num, den * pow2(e as nat))
    } else {
        round_half_even(num * pow2((-e) as nat), den)
    }
}

/// The pattern with the given sign, stored exponent and fraction.
pub open spec fn pack(negative: bool, biased: int, fraction: int) -> u32 {
    ((if negative {
        SIGN as int
    } else {
        0
    }) + biased * 0x80_0000 + fraction) as u32
}

/// The binary32 number nearest to `num / den`, ties going to the even
/// significand, where the quotient is zero or its magnitude lies in the
/// range of the normal numbers.
///
/// The quotient is brought to a significand of twenty-four bits and rounded
/// there. Should that round up to 2^24, the result is the first number of the
/// next binade.
pub open spec fn nearest(num: int, den: int) -> u32
    recommends
        den > 0,
{
    if num == 0 {
        ZERO
    } else {
        let m = absolute(num);
        let e = binade(m, den);
        let s = rounded_significand(m, den, e);
        if s == 0x100_0000 {
            pack(num < 0, e + 151, 0)
        } else {
            pack(num < 0, e + 150, s - 0x80_0000)
        }
    }
}

/// A quotient lies in one binade only.
pub proof fn lemma_binade_unique(num: int, den: int, e1: int, e2: int)
    requires
        den > 0,
        in_binade(num, den, e1),
        in_binade(num, den, e2),
    ensures
        e1 == e2,
{
    if e1 <= e2 {
        lemma_binade_ordered(num, den, e1, e2);
    } else {
        lemma_binade_ordered(num, den, e2, e1);
    }
}

proof fn lemma_binade_ordered(num: int, den: int, lo: int, hi: int)
    requires
        den > 0,
        lo <= hi,
        in_binade(num, den, lo),
        in_binade(num, den, hi),
    ensures
        lo == hi,
{
    lemma2_to64();
    lemma_pow2_pos(if lo >= 0 { lo as nat } else { (-lo) as nat });
    lemma_pow2_pos(if hi >= 0 { hi as nat } else { (-hi) as nat });
    if lo == hi {
    } else if lo >= 0 {
        let pl = pow2(lo as nat) as int;
        let ph = pow2(hi as nat) as int;
        lemma_pow2_unfold((lo + 1) as nat);
        if lo + 1 < hi {
            lemma_pow2_strictly_increases((lo + 1) as nat, hi as nat);
        }
        assert(0x100_0000 * (den * pl) <= 0x80_0000 * (den * ph)) by (nonlinear_arith)
            requires
                den > 0,
                2 * pl <= ph,
        ;
    } else if hi <= 0 {
        let pl = pow2((-lo) as nat) as int;
        let ph = pow2((-hi) as nat) as int;
        lemma_pow2_unfold((-hi + 1) as nat);
        if -hi + 1 < -lo {
            lemma_pow2_strictly_increases((-hi + 1) as nat, (-lo) as nat);
        }
        if hi == 0 {
            assert(den * ph == den && num * ph == num) by (nonlinear_arith)
                requires
                    ph == 1,
            ;
        }
        assert(num * pl >= 2 * (num * ph)) by (nonlinear_arith)
            requires
                num * ph >= 0,
                ph > 0,
                pl >= 2 * ph,
        ;
    } else {
        let pl = pow2((-lo) as nat) as int;
        let ph = pow2(hi as nat) as int;
        lemma_pow2_strictly_increases(0, (-lo) as nat);
        lemma_pow2_strictly_increases(0, hi as nat);
        assert(0x80_0000 * (den * 2) <= 0x80_0000 * (den * ph)) by (nonlinear_arith)
            requires
                den > 0,
                2 <= ph,
        ;
        assert(num * 2 <= num * pl) by (nonlinear_arith)
            requires
                num >= 0,
                2 <= pl,
        ;
    }
}

proof fn lemma_binade_below(num: int, den: int) -> (e: int)
    requires
        0 < num < 0x80_0000 * den,
    ensures
        e < 0,
        in_binade(num, den, e),
    decreases 0x80_0000 * den - num,
{
    lemma2_to64();
    if 2 * num >= 0x80_0000 * den {
        assert(num * pow2(1) == 2 * num) by (nonlinear_arith)
            requires
                pow2(1) == 2,
        ;
        -1
    } else {
        let above = lemma_binade_below(2 * num, den);
        let p = pow2((-above) as nat) as int;
        lemma_pow2_unfold((-above + 1) as nat);
        assert(num * (2 * p) == (2 * num) * p) by (nonlinear_arith);
        above - 1
    }
}

proof fn lemma_binade_above(num: int, den: int) -> (e: int)
    requires
        0 < den,
        0x100_0000 * den <= num,
    ensures
        e > 0,
        in_binade(num, den, e),
    decreases num - den,
{
    lemma2_to64();
    if num < 0x100_0000 * (2 * den) {
        assert(den * pow2(1) == 2 * den) by (nonlinear_arith)
            requires
                pow2(1) == 2,
        ;
        1
    } else {
        let below = lemma_binade_above(num, 2 * den);
        let p = pow2(below as nat) as int;
        lemma_pow2_unfold((below + 1) as nat);
        assert(den * (2 * p) == (2 * den) * p) by (nonlinear_arith);
        below + 1
    }
}

/// Every positive quotient lies in a binade, which `binade` names.
pub proof fn lemma_binade_exists(num: int, den: int) -> (e: int)
    requires
        num > 0,
        den > 0,
    ensures
        in_binade(num, den, e),
        binade(num, den) == e,
{
    let e = if num < 0x80_0000 * den {
        lemma_binade_below(num, den)
    } else if num >= 0x100_0000 * den {
        lemma_binade_above(num, den)
    } else {
        lemma2_to64();
        assert(den * pow2(0) == den) by (nonlinear_arith)
            requires
                pow2(0) == 1,
        ;
        0
    };
    lemma_binade_unique(num, den, e, binade(num, den));
    e
}

/// The quotient of two positive integers below 2^64 lies well within the
/// range of the normal numbers.
pub proof fn lemma_binade_bounds(num: int, den: int, e: int)
    requires
        0 < num < 0x1_0000_0000_0000_0000,
        0 < den < 0x1_0000_0000_0000_0000,
        in_binade(num, den, e),
    ensures
        -88 <= e <= 41,
{
    lemma2_to64();
    lemma2_to64_rest();
    if e < -88 {
        let p = pow2((-e) as nat) as int;
        lemma_pow2_adds(64, 24);
        lemma_pow2_strictly_increases(88, (-e) as nat);
        assert(num * p >= p) by (nonlinear_arith)
            requires
                num >= 1,
                p >= 0,
        ;
    }
    if e > 41 {
        let p = pow2(e as nat) as int;
        lemma_pow2_strictly_increases(41, e as nat);
        assert(0x80_0000 * (den * p) >= 0x80_0000 * p) by (nonlinear_arith)
            requires
                den >= 1,
                p >= 0,
        ;
    }
}

/// The nearest number to a quotient of integers below 2^64 is a number, and
/// it is zero only where the quotient is.
pub proof fn lemma_nearest_is_number(num: int, den: int)
    requires
        -0x1_0000_0000_0000_0000 < num < 0x1_0000_0000_0000_0000,
        0 < den < 0x1_0000_0000_0000_0000,
    ensures
        !is_nan(nearest(num, den)),
        is_zero(nearest(num, den)) <==> num == 0,
{
    if num != 0 {
        let e = lemma_binade_exists(absolute(num), den);
        lemma_binade_bounds(absolute(num), den, e);
        lemma_nearest_is_near(num, den, e);
    }
}

/// Rounding moves a quotient by half a unit at most.
pub proof fn lemma_round_half_even_is_near(num: int, den: int)
    requires
        num >= 0,
        den > 0,
    ensures
        -den <= 2 * (round_half_even(num, den) * den - num) <= den,
        num / den <= round_half_even(num, den) <= num / den + 1,
{
    let q = num / den;
    let r = num % den;
    lemma_fundamental_div_mod(num, den);
    assert(0 <= r < den) by (nonlinear_arith)
        requires
            den > 0,
            r == num % den,
    ;
    assert((q + 1) * den == q * den + den) by (nonlinear_arith);
    assert(q * den == den * q) by (nonlinear_arith);
}

/// What `nearest` gives is a number, has the sign of the quotient, and
/// differs from the quotient by no more than half the weight of its last
/// bit. Both sides of the bound are multiplied by `den` and by 2^149.
///
/// `e` is the binade of the quotient. Its limits are those of the normal
/// numbers.
pub proof fn lemma_nearest_is_near(num: int, den: int, e: int)
    requires
        den > 0,
        num != 0,
        -149 <= e <= 104,
        in_binade(absolute(num), den, e),
    ensures
        !is_nan(nearest(num, den)),
        !is_zero(nearest(num, den)),
        is_negative(nearest(num, den)) == (num < 0),
        -(den * pow2((e + 149) as nat)) <= 2 * (scaled_magnitude(nearest(num, den)) * den
            - absolute(num) * pow2(149)) <= den * pow2((e + 149) as nat),
{
    let m = absolute(num);
    let b = nearest(num, den);
    lemma_binade_unique(m, den, e, binade(m, den));
    let pe = pow2((if e >= 0 { e } else { -e }) as nat) as int;
    let unit = pow2((e + 149) as nat) as int;
    let top = pow2(149) as int;
    lemma_pow2_pos((if e >= 0 { e } else { -e }) as nat);
    lemma_pow2_pos((e + 149) as nat);
    lemma_pow2_pos(149);
    let n = if e >= 0 { m } else { m * pe };
    let d = if e >= 0 { den * pe } else { den };
    assert(d > 0) by (nonlinear_arith)
        requires
            den > 0,
            pe > 0,
            d == den * pe || d == den,
    ;
    assert(n >= 0) by (nonlinear_arith)
        requires
            m > 0,
            pe > 0,
            n == m * pe || n == m,
    ;
    let s = round_half_even(n, d);
    assert(s == rounded_significand(m, den, e));
    lemma_round_half_even_is_near(n, d);
    assert(0x80_0000 <= n / d < 0x100_0000) by (nonlinear_arith)
        requires
            0x80_0000 * d <= n < 0x100_0000 * d,
            d > 0,
    ;
    let mag = (e + 149) * 0x80_0000 + s;
    assert(magnitude(b) == mag);
    if s == 0x100_0000 {
        lemma_pow2_unfold((e + 150) as nat);
        assert(0x80_0000 * (2 * unit) == s * unit) by (nonlinear_arith)
            requires
                s == 0x100_0000,
        ;
    }
    assert(scaled_magnitude(b) == s * unit);
    if e >= 0 {
        lemma_pow2_adds(e as nat, 149);
        assert(2 * (s * unit * den - m * top) == top * (2 * (s * d - n)) && den * unit == top * d)
            by (nonlinear_arith)
            requires
                unit == pe * top,
                d == den * pe,
                n == m,
        ;
        assert(-(top * d) <= top * (2 * (s * d - n)) <= top * d) by (nonlinear_arith)
            requires
                -d <= 2 * (s * d - n) <= d,
                top > 0,
        ;
    } else {
        lemma_pow2_adds((-e) as nat, (e + 149) as nat);
        assert(2 * (s * unit * den - m * top) == unit * (2 * (s * d - n)) && den * unit == unit
            * d) by (nonlinear_arith)
            requires
                top == pe * unit,
                d == den,
                n == m * pe,
        ;
        assert(-(unit * d) <= unit * (2 * (s * d - n)) <= unit * d) by (nonlinear_arith)
            requires
                -d <= 2 * (s * d - n) <= d,
                unit > 0,
        ;
    }
}

/// The binary32 number nearest to `num / den`.
pub fn from_ratio(num: i32, den: u32) -> (bits: u32)
    requires
        den > 0,
    ensures
        bits == nearest(num as int, den as int),
{
    if num == 0 {
        return ZERO;
    }
    let negative = num < 0;
    let m: u64 = if negative {
        (-(num as i64)) as u64
    } else {
        num as u64
    };
    let mut n: u64 = m;
    let mut d: u64 = den as u64;
    let mut e: i32 = 0;
    let ghost mut p: int = 1;
    proof {
        lemma2_to64();
        lemma2_to64_rest();
    }
    if n < d * 0x80_0000 {
        while n < d * 0x80_0000
            invariant
                d == den,
                0 < m,
                -56 <= e <= 0,
                p == pow2((-e) as nat),
                0 < p <= n,
                n == m * p,
                e == 0 ==> n < 0x80_0000 * d,
                e < 0 ==> n < 0x100_0000 * d,
            decreases 0x100_0000 * d - n,
        {
            proof {
                lemma2_to64_rest();
                if e < -55 {
                    lemma_pow2_strictly_increases(55, (-e) as nat);
                }
                lemma_pow2_unfold((-e + 1) as nat);
                assert(m * (2 * p) == 2 * (m * p)) by (nonlinear_arith);
                p = 2 * p;
            }
            n = n * 2;
            e = e - 1;
        }
    } else {
        while n >= d * 0x100_0000
            invariant
                n == m,
                m <= 0x8000_0000,
                0 <= e <= 8,
                p == pow2(e as nat),
                0 < p <= d,
                d == den * p,
                0x80_0000 * d <= n,
            decreases n - d,
        {
            proof {
                lemma2_to64();
                lemma_pow2_unfold((e + 1) as nat);
                assert(den * (2 * p) == 2 * (den * p)) by (nonlinear_arith);
                p = 2 * p;
            }
            d = d * 2;
            e = e + 1;
        }
    }
    assert(m == absolute(num as int));
    assert(in_binade(m as int, den as int, e as int));
    proof {
        lemma_binade_unique(m as int, den as int, e as int, binade(m as int, den as int));
    }
    let q: u64 = n / d;
    let r: u64 = n % d;
    assert(0x80_0000 <= q < 0x100_0000) by (nonlinear_arith)
        requires
            0x80_0000 * d <= n < 0x100_0000 * d,
            d > 0,
            q == n / d,
    ;
    let s: u64 = if 2 * r < d {
        q
    } else if 2 * r > d {
        q + 1
    } else if q % 2 == 0 {
        q
    } else {
        q + 1
    };
    assert(s == rounded_significand(m as int, den as int, e as int));
    let sign: u32 = if negative {
        SIGN
    } else {
        0
    };
    sign + ((e + 149) as u32) * 0x80_0000 + (s as u32)
}

} // verus!

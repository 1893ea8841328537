//! What comparing and rounding scores means for the numbers they stand for.
use crate::rng::{below_of, mixed, next_state, unit_of};
use crate::score::{
    excess, exponent, finite, greater_of, less, less_wide, magnitude, magnitude_wide, nearest_even,
    negative, not_a_number, not_a_number_wide, rounded_count_of, rounded_to, same,
    saturated, scaled_count_of, significand, smaller_wide_of, total_key,
    HALF, INFINITY_WIDE, NEG_INFINITY, ONE, ZERO, ZERO_WIDE,
};
use vstd::arithmetic::div_mod::lemma_fundamental_div_mod;
use vstd::arithmetic::power2::{
    lemma2_to64, lemma2_to64_rest, lemma_pow2_adds, lemma_pow2_pos, lemma_pow2_strictly_increases,
    lemma_pow2_unfold, pow2,
};
use vstd::prelude::*;

verus! {

/// The number that bits below the sign bit stand for, in units of the smallest positive one.
///
/// The lowest bits, as many as `unit` counts, are the fraction; those above say by which power
/// of two it is scaled, and whether a leading one goes before it.
pub open spec fn number_of(bits: nat, unit: nat) -> nat {
    let field = bits / unit;
    let fraction = bits % unit;
    if field == 0 {
        fraction
    } else {
        (unit + fraction) * pow2((field - 1) as nat)
    }
}

/// The single-precision number of `b`, in units of the smallest positive one.
pub open spec fn signed_number(b: u32) -> int {
    if b >= 0x8000_0000 {
        -(number_of((b - 0x8000_0000) as nat, 0x80_0000) as int)
    } else {
        number_of(b as nat, 0x80_0000) as int
    }
}

/// The double-precision number of `b`, in units of the smallest positive one.
pub open spec fn signed_number_wide(b: u64) -> int {
    if b >= 0x8000_0000_0000_0000 {
        -(number_of((b - 0x8000_0000_0000_0000) as nat, 0x10_0000_0000_0000) as int)
    } else {
        number_of(b as nat, 0x10_0000_0000_0000) as int
    }
}

/// A number lies between the powers of two that its bits name.
proof fn lemma_number_bounds(bits: nat, unit: nat)
    requires
        unit > 0,
        bits >= unit,
    ensures
        number_of(bits, unit) >= unit * pow2((bits / unit - 1) as nat),
        number_of(bits, unit) < unit * pow2(bits / unit),
{
    let field = bits / unit;
    let fraction = bits % unit;
    lemma_fundamental_div_mod(bits as int, unit as int);
    assert(field >= 1) by (nonlinear_arith)
        requires
            bits == unit * field + fraction,
            fraction < unit,
            bits >= unit,
    ;
    let scale = pow2((field - 1) as nat);
    lemma_pow2_pos((field - 1) as nat);
    lemma_pow2_unfold(field);
    assert((unit + fraction) * scale >= unit * scale) by (nonlinear_arith)
        requires
            fraction >= 0,
            scale > 0,
    ;
    assert((unit + fraction) * scale < unit * (2 * scale)) by (nonlinear_arith)
        requires
            fraction < unit,
            scale > 0,
    ;
}

/// Greater bits stand for a greater number.
proof fn lemma_number_increases(a: nat, b: nat, unit: nat)
    requires
        unit > 0,
        a < b,
    ensures
        number_of(a, unit) < number_of(b, unit),
{
    lemma_fundamental_div_mod(a as int, unit as int);
    lemma_fundamental_div_mod(b as int, unit as int);
    let x = a / unit;
    let y = b / unit;
    let r = a % unit;
    let s = b % unit;
    assert(x <= y) by (nonlinear_arith)
        requires
            a == unit * x + r,
            b == unit * y + s,
            r < unit,
            s < unit,
            r >= 0,
            a < b,
    ;
    if x == y {
        assert(r < s);
        if x > 0 {
            let scale = pow2((x - 1) as nat);
            lemma_pow2_pos((x - 1) as nat);
            assert((unit + r) * scale < (unit + s) * scale) by (nonlinear_arith)
                requires
                    r < s,
                    scale > 0,
            ;
        }
    } else {
        assert(b >= unit) by (nonlinear_arith)
            requires
                b == unit * y + s,
                y >= 1,
                s >= 0,
                unit > 0,
        ;
        lemma_number_bounds(b, unit);
        let scale = pow2((y - 1) as nat);
        lemma_pow2_pos((y - 1) as nat);
        if x == 0 {
            assert(unit * scale >= unit) by (nonlinear_arith)
                requires
                    scale >= 1,
                    unit > 0,
            ;
        } else {
            assert(a >= unit) by (nonlinear_arith)
                requires
                    a == unit * x + r,
                    x >= 1,
                    r >= 0,
                    unit > 0,
            ;
            lemma_number_bounds(a, unit);
            if x < y - 1 {
                lemma_pow2_strictly_increases(x, (y - 1) as nat);
            }
            assert(unit * pow2(x) <= unit * scale) by (nonlinear_arith)
                requires
                    pow2(x) <= scale,
                    unit > 0,
            ;
        }
    }
}

/// Bits and the numbers they stand for are ordered alike.
proof fn lemma_numbers_compare(a: nat, b: nat, unit: nat)
    requires
        unit > 0,
    ensures
        a < b <==> number_of(a, unit) < number_of(b, unit),
        a == b <==> number_of(a, unit) == number_of(b, unit),
        a == 0 <==> number_of(a, unit) == 0,
{
    if a < b {
        lemma_number_increases(a, b, unit);
    }
    if b < a {
        lemma_number_increases(b, a, unit);
    }
    assert(number_of(0, unit) == 0) by {
        lemma_fundamental_div_mod(0, unit as int);
        vstd::arithmetic::div_mod::lemma_small_mod(0, unit);
        vstd::arithmetic::div_mod::lemma_basic_div(0, unit as int);
    }
    if a > 0 {
        lemma_number_increases(0, a, unit);
    }
}

/// One score is less than another exactly where both are numbers and the number of the one is
/// less than that of the other, and the same exactly where the numbers are equal.
pub proof fn law_scores_compare_as_their_numbers(a: u32, b: u32)
    ensures
        less(a, b) <==> !not_a_number(a) && !not_a_number(b) && signed_number(a) < signed_number(
            b,
        ),
        same(a, b) <==> !not_a_number(a) && !not_a_number(b) && signed_number(a) == signed_number(
            b,
        ),
        not_a_number(a) <==> a % 0x8000_0000 > 0x7f80_0000,
        finite(a) <==> a % 0x8000_0000 < 0x7f80_0000,
{
    let x = magnitude(a) as nat;
    let y = magnitude(b) as nat;
    lemma_numbers_compare(x, y, 0x80_0000);
    lemma_numbers_compare(y, x, 0x80_0000);
}

/// One double-precision score is less than another exactly where both are numbers and the
/// number of the one is less than that of the other.
pub proof fn law_wide_scores_compare_as_their_numbers(a: u64, b: u64)
    ensures
        less_wide(a, b) <==> !not_a_number_wide(a) && !not_a_number_wide(b) && signed_number_wide(
            a,
        ) < signed_number_wide(b),
        not_a_number_wide(a) <==> a % 0x8000_0000_0000_0000 > 0x7ff0_0000_0000_0000,
{
    let x = magnitude_wide(a) as nat;
    let y = magnitude_wide(b) as nat;
    lemma_numbers_compare(x, y, 0x10_0000_0000_0000);
    lemma_numbers_compare(y, x, 0x10_0000_0000_0000);
}

/// The total order puts lesser numbers before greater ones, negative zero before zero, and
/// what is no number before all numbers or after them, by its sign; no two scores share a
/// place.
pub proof fn law_the_total_order_extends_that_of_the_numbers(a: u32, b: u32)
    ensures
        less(a, b) ==> total_key(a) < total_key(b),
        same(a, b) && a >= 0x8000_0000 && b < 0x8000_0000 ==> total_key(a) < total_key(b),
        not_a_number(a) && !not_a_number(b) && a < 0x8000_0000 ==> total_key(b) < total_key(a),
        not_a_number(a) && !not_a_number(b) && a >= 0x8000_0000 ==> total_key(a) < total_key(b),
        total_key(a) == total_key(b) ==> a == b,
        a < b < 0x8000_0000 ==> total_key(a) < total_key(b),
        0x8000_0000 <= a < b ==> total_key(b) < total_key(a),
{
}

/// The greater of two scores is one of them, no number only where neither is one, and less
/// than neither; of two that are the same it is the first.
pub proof fn law_the_greater_is_less_than_neither(a: u32, b: u32)
    ensures
        greater_of(a, b) == a || greater_of(a, b) == b,
        !less(greater_of(a, b), a),
        !less(greater_of(a, b), b),
        not_a_number(greater_of(a, b)) ==> not_a_number(a) && not_a_number(b),
        same(a, b) ==> greater_of(a, b) == a,
{
}

/// The smaller of two scores is one of them, no number only where neither is one, and neither
/// is less; where neither is less than the other it is the first.
pub proof fn law_neither_is_less_than_the_smaller(a: u64, b: u64)
    ensures
        smaller_wide_of(a, b) == a || smaller_wide_of(a, b) == b,
        !less_wide(a, smaller_wide_of(a, b)),
        !less_wide(b, smaller_wide_of(a, b)),
        not_a_number_wide(smaller_wide_of(a, b)) ==> not_a_number_wide(a) && not_a_number_wide(b),
        !less_wide(a, b) && !less_wide(b, a) && !not_a_number_wide(a) ==> smaller_wide_of(a, b)
            == a,
{
}

/// A significand times its power of two is the number, in units of the smallest positive one.
proof fn lemma_decomposed(b: u32)
    requires
        finite(b),
    ensures
        exponent(b) >= -149,
        significand(b) < 0x100_0000,
        number_of(magnitude(b) as nat, 0x80_0000) == significand(b) * pow2(
            (exponent(b) + 149) as nat,
        ),
{
    let field = magnitude(b) / 0x80_0000;
    lemma2_to64();
    if field == 0 {
        assert(exponent(b) + 149 == 0);
        assert(significand(b) * 1 == significand(b));
    } else {
        assert(exponent(b) + 149 == field - 1);
    }
}

/// A number rounds to the nearest count: to its whole part where its fraction is below a half,
/// to one more where it is above, to the even one of the two where it is a half or within a
/// millionth of it, and never to any other. What is beyond every count rounds to the greatest.
///
/// `whole` is the whole part, and `rest` the fraction in units of the smallest positive
/// number, of which one is `2^149`.
pub proof fn law_counts_are_rounded_to_the_nearest(b: u32, whole: nat, rest: nat)
    requires
        !negative(b),
        finite(b),
        signed_number(b) == whole * pow2(149) + rest,
        rest < pow2(149),
    ensures
        10_000_000 * rest < 4_999_989 * pow2(149) ==> rounded_count_of(b) == if whole
            <= usize::MAX {
            whole
        } else {
            usize::MAX as nat
        },
        10_000_000 * rest > 5_000_011 * pow2(149) ==> rounded_count_of(b) == whole + 1,
        4_999_990 * pow2(149) <= 10_000_000 * rest <= 5_000_010 * pow2(149) ==> rounded_count_of(b)
            == if whole % 2 == 0 {
            whole
        } else {
            whole + 1
        },
        rest > 0 ==> rounded_count_of(b) == whole || rounded_count_of(b) == whole + 1,
{
    let s = significand(b);
    let e = exponent(b);
    let one = pow2(149);
    lemma_decomposed(b);
    lemma_pow2_pos(149);
    lemma_pow2_pos((e + 149) as nat);
    let unit = pow2((e + 149) as nat);
    assert(s * unit == whole * one + rest);
    if e >= 0 {
        let scale = pow2(e as nat);
        lemma_pow2_adds(e as nat, 149);
        assert(s * unit == (s * scale) * one) by (nonlinear_arith)
            requires
                unit == scale * one,
        ;
        let n = s * scale;
        assert(n == whole && rest == 0) by (nonlinear_arith)
            requires
                n * one == whole * one + rest,
                0 <= rest < one,
        ;
        assert(s * pow2(e as nat) == whole);
    } else {
        let d = pow2((-e) as nat);
        lemma_pow2_pos((-e) as nat);
        lemma_pow2_adds((-e) as nat, (e + 149) as nat);
        assert(one == d * unit);
        let q = s / d;
        let r = s % d;
        lemma_fundamental_div_mod(s as int, d as int);
        assert(q == whole && rest == r * unit) by {
            assert(s * unit == q * one + r * unit) by (nonlinear_arith)
                requires
                    s == d * q + r,
                    one == d * unit,
            ;
            assert(r * unit < one) by (nonlinear_arith)
                requires
                    r < d,
                    unit > 0,
                    one == d * unit,
            ;
            assert(r * unit >= 0) by (nonlinear_arith)
                requires
                    r >= 0,
                    unit > 0,
            ;
            let small = r * unit;
            assert(q == whole && small == rest) by (nonlinear_arith)
                requires
                    q * one + small == whole * one + rest,
                    0 <= small < one,
                    0 <= rest < one,
            ;
        }
        let a: int = 10_000_000 * r - 4_999_989 * d;
        let z: int = 10_000_000 * r - 5_000_011 * d;
        let low: int = 10_000_000 * r - 4_999_990 * d;
        let high: int = 10_000_000 * r - 5_000_010 * d;
        assert(10_000_000 * rest - 4_999_989 * one == a * unit) by (nonlinear_arith)
            requires
                rest == r * unit,
                one == d * unit,
                a == 10_000_000 * r - 4_999_989 * d,
        ;
        assert(10_000_000 * rest - 5_000_011 * one == z * unit) by (nonlinear_arith)
            requires
                rest == r * unit,
                one == d * unit,
                z == 10_000_000 * r - 5_000_011 * d,
        ;
        assert(10_000_000 * rest - 4_999_990 * one == low * unit) by (nonlinear_arith)
            requires
                rest == r * unit,
                one == d * unit,
                low == 10_000_000 * r - 4_999_990 * d,
        ;
        assert(10_000_000 * rest - 5_000_010 * one == high * unit) by (nonlinear_arith)
            requires
                rest == r * unit,
                one == d * unit,
                high == 10_000_000 * r - 5_000_010 * d,
        ;
        if 10_000_000 * rest < 4_999_989 * one {
            assert(a < 0) by (nonlinear_arith)
                requires
                    a * unit < 0,
                    unit > 0,
            ;
        }
        if 10_000_000 * rest > 5_000_011 * one {
            assert(z > 0) by (nonlinear_arith)
                requires
                    z * unit > 0,
                    unit > 0,
            ;
        }
        if 4_999_990 * one <= 10_000_000 * rest <= 5_000_010 * one {
            assert(low >= 0) by (nonlinear_arith)
                requires
                    low * unit >= 0,
                    unit > 0,
            ;
            assert(high <= 0) by (nonlinear_arith)
                requires
                    high * unit <= 0,
                    unit > 0,
            ;
        }
        let rounded = nearest_even(s, d);
        assert(rounded == whole || rounded == whole + 1);
        assert(rounded <= usize::MAX);
    }
}

/// What is negative or no number counts as nothing, and what is infinite as the greatest
/// count, however it is scaled.
pub proof fn law_what_is_no_count(b: u32, factor: u32)
    requires
        negative(b) || !finite(b),
    ensures
        negative(b) || not_a_number(b) ==> rounded_count_of(b) == 0 && scaled_count_of(b, factor)
            == 0,
        b == 0x7f80_0000 ==> rounded_count_of(b) == usize::MAX && scaled_count_of(b, factor)
            == usize::MAX,
{
}

/// The bits that do not fit are as few as can be.
proof fn lemma_excess(x: nat, bits: nat)
    requires
        bits > 0,
    ensures
        x / pow2(excess(x, bits)) < pow2(bits),
        excess(x, bits) > 0 ==> x / pow2(excess(x, bits)) >= pow2((bits - 1) as nat),
        x < pow2(bits) ==> excess(x, bits) == 0,
    decreases x,
{
    lemma2_to64();
    lemma_pow2_pos(bits);
    if x >= pow2(bits) {
        let half = x / 2;
        let more = excess(half, bits);
        lemma_pow2_unfold(bits);
        lemma_excess(half, bits);
        lemma_pow2_unfold((1 + more) as nat);
        lemma_pow2_pos(more);
        vstd::arithmetic::div_mod::lemma_div_denominator(x as int, 2, pow2(more) as int);
        assert(x / pow2((1 + more) as nat) == half / pow2(more));
        if more == 0 {
            assert(half / 1 == half);
        }
    } else {
        assert(x / 1 == x);
    }
}

/// Rounding to a number of significant bits gives a multiple of a power of two that leaves
/// just that many bits, no farther from the number than half of it, the even one of two as
/// near; a number with no more bits stays as it is.
pub proof fn law_rounding_keeps_the_highest_bits(x: nat, bits: nat)
    requires
        bits > 0,
    ensures
        x < pow2(bits) ==> rounded_to(x, bits) == x,
        x >= pow2(bits) ==> exists|e: nat, m: nat|
            {
                &&& rounded_to(x, bits) == m * #[trigger] pow2(e)
                &&& pow2((bits - 1) as nat) <= m <= pow2(bits)
                &&& 2 * (#[trigger] (m * pow2(e)) - x) <= pow2(e)
                &&& 2 * (x - m * pow2(e)) <= pow2(e)
                &&& 2 * (m * pow2(e) - x) == pow2(e) || 2 * (x - m * pow2(e)) == pow2(e) ==> m % 2
                    == 0
            },
{
    let e = excess(x, bits);
    let unit = pow2(e);
    let lower = x / unit;
    let rest = x % unit;
    lemma_pow2_pos(e);
    lemma_excess(x, bits);
    lemma_fundamental_div_mod(x as int, unit as int);
    assert(lower * unit == unit * lower) by (nonlinear_arith);
    assert((lower + 1) * unit == unit * lower + unit) by (nonlinear_arith);
    if x < pow2(bits) {
        lemma2_to64();
        assert(x / 1 == x);
        assert(x % 1 == 0);
        assert(x * 1 == x);
    } else {
        lemma2_to64();
        if e == 0 {
            assert(x / 1 == x);
        }
        let m = if 2 * rest > unit || (2 * rest == unit && lower % 2 == 1) {
            (lower + 1) as nat
        } else {
            lower
        };
        assert(rounded_to(x, bits) == m * pow2(e));
        assert(pow2((bits - 1) as nat) <= m <= pow2(bits));
        assert(2 * (m * pow2(e) - x) <= pow2(e));
        assert(2 * (x - m * pow2(e)) <= pow2(e));
    }
}

/// The number of steps of a scaled score is the whole part of the product of its number and
/// the factor, where the significand's product has no more than the bits of single precision.
///
/// The product is in units of the smallest positive number, of which one is `2^149`.
pub proof fn law_exact_products_are_cut_to_whole_steps(b: u32, factor: u32)
    requires
        !negative(b),
        finite(b),
        significand(b) * factor < 0x100_0000,
    ensures
        scaled_count_of(b, factor) == saturated(
            (number_of(b as nat, 0x80_0000) * factor as nat) / pow2(149),
        ),
{
    let s = significand(b);
    let e = exponent(b);
    let one = pow2(149);
    let product = (s * factor) as nat;
    lemma2_to64();
    lemma_decomposed(b);
    lemma_pow2_pos(149);
    let unit = pow2((e + 149) as nat);
    lemma_pow2_pos((e + 149) as nat);
    assert(pow2(24) == 0x100_0000);
    assert(s * factor as nat == product);
    law_rounding_keeps_the_highest_bits(product, 24);
    assert(rounded_to(product, 24) == product);
    assert((s * unit) * factor == product * unit) by (nonlinear_arith)
        requires
            product == s * factor,
    ;
    lemma_cut(product, e);
}

/// The number of steps of a scaled score is the whole part of the product of its number and
/// the factor, after the product was rounded to the nearest of single precision: no farther
/// away than a part in `2^24`.
///
/// The product is in units of the smallest positive number, of which one is `2^149`.
pub proof fn law_products_are_rounded_before_they_are_cut(b: u32, factor: u32)
    requires
        !negative(b),
        finite(b),
    ensures
        exists|rounded: nat|
            {
                let exact = number_of(b as nat, 0x80_0000) * factor as nat;
                &&& 0x100_0000 * (rounded - exact) <= exact
                &&& 0x100_0000 * (exact - rounded) <= exact
                &&& scaled_count_of(b, factor) == #[trigger] saturated(rounded / pow2(149))
            },
{
    let s = significand(b);
    let e = exponent(b);
    let one = pow2(149);
    let product = s * factor as nat;
    let kept = rounded_to(product, 24);
    lemma2_to64();
    lemma_decomposed(b);
    lemma_pow2_pos(149);
    let unit = pow2((e + 149) as nat);
    lemma_pow2_pos((e + 149) as nat);
    lemma_rounded_closely(product);
    let exact = number_of(b as nat, 0x80_0000) * factor as nat;
    assert(exact == product * unit) by (nonlinear_arith)
        requires
            exact == (s * unit) * factor,
            product == s * factor,
    ;
    let rounded = kept * unit;
    assert(0x100_0000 * (rounded - exact) <= exact) by (nonlinear_arith)
        requires
            rounded == kept * unit,
            exact == product * unit,
            0x100_0000 * (kept - product) <= product,
            unit > 0,
    ;
    assert(0x100_0000 * (exact - rounded) <= exact) by (nonlinear_arith)
        requires
            rounded == kept * unit,
            exact == product * unit,
            0x100_0000 * (product - kept) <= product,
            unit > 0,
    ;
    lemma_cut(kept, e);
    assert(scaled_count_of(b, factor) == saturated(rounded / one));
}

/// Rounding to the bits of single precision is within a part in `2^24`.
proof fn lemma_rounded_closely(x: nat)
    ensures
        0x100_0000 * (rounded_to(x, 24) - x) <= x,
        0x100_0000 * (x - rounded_to(x, 24)) <= x,
{
    let e = excess(x, 24);
    let unit = pow2(e);
    let lower = x / unit;
    let rest = x % unit;
    lemma2_to64();
    lemma_pow2_pos(e);
    lemma_excess(x, 24);
    lemma_fundamental_div_mod(x as int, unit as int);
    assert(lower * unit == unit * lower) by (nonlinear_arith);
    assert((lower + 1) * unit == unit * lower + unit) by (nonlinear_arith);
    if e == 0 {
        law_rounding_keeps_the_highest_bits(x, 24);
        assert(x / 1 == x);
    } else {
        assert(unit * lower >= 0x80_0000 * unit) by (nonlinear_arith)
            requires
                lower >= 0x80_0000,
                unit > 0,
        ;
    }
}

/// Cutting off what is below one is the same before and after scaling.
proof fn lemma_cut(n: nat, e: int)
    requires
        e >= -149,
    ensures
        ({
            let whole = (n * pow2((e + 149) as nat)) / pow2(149);
            &&& e >= 0 ==> whole == n * pow2(e as nat)
            &&& e < 0 ==> whole == n / pow2((-e) as nat)
        }),
{
    let one = pow2(149);
    let unit = pow2((e + 149) as nat);
    lemma_pow2_pos(149);
    lemma_pow2_pos((e + 149) as nat);
    if e >= 0 {
        let scale = pow2(e as nat);
        lemma_pow2_adds(e as nat, 149);
        assert(n * unit == one * (n * scale)) by (nonlinear_arith)
            requires
                unit == scale * one,
        ;
        vstd::arithmetic::div_mod::lemma_div_multiples_vanish((n * scale) as int, one as int);
    } else {
        let d = pow2((-e) as nat);
        lemma_pow2_pos((-e) as nat);
        lemma_pow2_adds((-e) as nat, (e + 149) as nat);
        assert(unit * d == one) by (nonlinear_arith)
            requires
                one == d * unit,
        ;
        vstd::arithmetic::div_mod::lemma_div_denominator((n * unit) as int, unit as int, d as int);
        vstd::arithmetic::div_mod::lemma_div_multiples_vanish(n as int, unit as int);
        assert(unit * n == n * unit) by (nonlinear_arith);
    }
}

/// Every random number moves the state on by one odd constant, and gives a fraction below one
/// and, for a positive bound, a number below it.
pub proof fn law_random_numbers_stay_in_range(state: u64, n: usize)
    ensures
        next_state(state) == (state + 0x9E37_79B9_7F4A_7C15) % 0x1_0000_0000_0000_0000,
        unit_of(state) == mixed(next_state(state)) / 2048,
        unit_of(state) < 0x20_0000_0000_0000,
        n > 0 ==> below_of(unit_of(state) as nat, n) < n,
        n == 0 ==> below_of(unit_of(state) as nat, n) == 0,
{
}

/// A random number below `n` is the fraction of `n` without its own fraction, or one more where
/// the product is rounded up to a whole number; `n` itself wraps to zero.
pub proof fn law_numbers_below_are_fractions(unit: nat, n: usize)
    requires
        unit < 0x20_0000_0000_0000,
        0 < n < 0x10_0000_0000_0000,
    ensures
        ({
            let whole = (unit * n) / 0x20_0000_0000_0000;
            let number = below_of(unit, n);
            &&& whole < n
            &&& number == whole || number == (whole + 1) % (n as int)
        }),
{
    let all = pow2(53);
    lemma2_to64();
    lemma2_to64_rest();
    assert(all == 0x20_0000_0000_0000);
    let product = unit * n as nat;
    law_rounding_keeps_the_highest_bits(n as nat, 53);
    assert(rounded_to(n as nat, 53) == n);
    law_rounding_keeps_the_highest_bits(product, 53);
    let rounded = rounded_to(product, 53);
    let whole = product / all;
    lemma_fundamental_div_mod(product as int, all as int);
    assert(product < all * n) by (nonlinear_arith)
        requires
            product == unit * n,
            unit < all,
            n > 0,
    ;
    assert(whole < n) by (nonlinear_arith)
        requires
            product < all * n,
            all * whole <= product,
            all > 0,
    ;
    assert(rounded / all == whole || rounded / all == whole + 1) by {
        if product >= all {
            let (e, m) = choose|e: nat, m: nat|
                {
                    &&& rounded == m * #[trigger] pow2(e)
                    &&& pow2(52) <= m <= pow2(53)
                    &&& 2 * (#[trigger] (m * pow2(e)) - product) <= pow2(e)
                    &&& 2 * (product - m * pow2(e)) <= pow2(e)
                    &&& 2 * (m * pow2(e) - product) == pow2(e) || 2 * (product - m * pow2(e))
                        == pow2(e) ==> m % 2 == 0
                };
            let step = pow2(e);
            lemma_pow2_pos(e);
            if e > 53 {
                lemma_pow2_strictly_increases(53, e);
                assert(m * step >= 0x10_0000_0000_0000 * step) by (nonlinear_arith)
                    requires
                        m >= 0x10_0000_0000_0000,
                        step > 0,
                ;
                assert(all * n <= all * 0x10_0000_0000_0000) by (nonlinear_arith)
                    requires
                        n < 0x10_0000_0000_0000,
                        all > 0,
                ;
                lemma_pow2_unfold(e);
                if e > 54 {
                    lemma_pow2_strictly_increases(53, (e - 1) as nat);
                }
                assert(step >= 2 * all);
            }
            assert(e <= 53);
            let steps = pow2((53 - e) as nat);
            lemma_pow2_adds(e, (53 - e) as nat);
            assert(all == step * steps);
            if rounded < all * whole {
                assert(all * whole == (steps * whole) * step) by (nonlinear_arith)
                    requires
                        all == step * steps,
                ;
                let bound = steps * whole;
                assert(bound * step - m * step >= step) by (nonlinear_arith)
                    requires
                        m * step < bound * step,
                        step > 0,
                ;
            }
            if rounded >= all * whole + 2 * all {
                if e < 53 {
                    lemma_pow2_strictly_increases(e, 53);
                }
                assert(step <= all);
            }
            assert(all * whole <= rounded < all * whole + 2 * all);
            let gap = rounded - all * whole;
            vstd::arithmetic::div_mod::lemma_fundamental_div_mod(rounded as int, all as int);
            let q = rounded / all;
            assert(q == whole || q == whole + 1) by (nonlinear_arith)
                requires
                    rounded == all * q + rounded % all,
                    0 <= rounded % all < all,
                    all * whole <= rounded < all * whole + 2 * all,
                    all > 0,
            ;
        }
    }
    let q = rounded / all;
    assert(saturated(q) == q);
    assert(below_of(unit, n) == q as usize % n);
    if q == whole {
        vstd::arithmetic::div_mod::lemma_small_mod(whole, n as nat);
    }
}

/// Zero is no units of the smallest positive number and one is `2^149`; a half is half of one.
/// Negative infinity is less than every other number, and infinity more.
pub proof fn law_constants_are_their_numbers(b: u32, wide: u64)
    ensures
        signed_number(ZERO) == 0,
        signed_number(ONE) == pow2(149),
        2 * signed_number(HALF) == signed_number(ONE),
        signed_number_wide(ZERO_WIDE) == 0,
        !not_a_number(b) && b != NEG_INFINITY ==> less(NEG_INFINITY, b),
        !not_a_number_wide(wide) && wide != INFINITY_WIDE ==> less_wide(wide, INFINITY_WIDE),
{
    lemma2_to64();
    assert(number_of(0x3f80_0000, 0x80_0000) == 0x80_0000 * pow2(126));
    assert(number_of(0x3f00_0000, 0x80_0000) == 0x80_0000 * pow2(125));
    lemma_pow2_adds(23, 126);
    lemma_pow2_unfold(126);
    assert(pow2(23) == 0x80_0000);
}

} // verus!

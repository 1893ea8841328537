//! Scores, held as the bits of IEEE 754 numbers.
//!
//! A `u32` stands for the single-precision number with those bits and a `u64` for the
//! double-precision one. Comparing, classifying and rounding such a number is integer
//! arithmetic on its bits, and is done and proved here; adding and dividing is not, and is
//! asked of an [`Arithmetic`](crate::arithmetic::Arithmetic).
use vstd::arithmetic::power2::{
    lemma_pow2_adds, lemma_pow2_pos, lemma_pow2_strictly_increases, lemma_pow2_unfold, pow2,
};
use vstd::prelude::*;

verus! {

/// The bits of `0.0`.
pub const ZERO: u32 = 0;

/// The bits of `0.5`.
pub const HALF: u32 = 0x3f00_0000;

/// The bits of `1.0`.
pub const ONE: u32 = 0x3f80_0000;

/// The bits of negative infinity.
pub const NEG_INFINITY: u32 = 0xff80_0000;

/// The bits of `0.0` in double precision.
pub const ZERO_WIDE: u64 = 0;

/// The bits of infinity in double precision.
pub const INFINITY_WIDE: u64 = 0x7ff0_0000_0000_0000;

/// Whether the sign bit is set.
pub open spec fn negative(b: u32) -> bool {
    b >= 0x8000_0000
}

/// The bits below the sign bit.
pub open spec fn magnitude(b: u32) -> int {
    if negative(b) {
        b - 0x8000_0000
    } else {
        b as int
    }
}

/// Whether `b` stands for no number.
pub open spec fn not_a_number(b: u32) -> bool {
    magnitude(b) > 0x7f80_0000
}

/// Whether `b` stands for a number that is neither infinite nor missing.
pub open spec fn finite(b: u32) -> bool {
    magnitude(b) < 0x7f80_0000
}

/// Where `b` stands in the IEEE 754 total order.
pub open spec fn total_key(b: u32) -> int {
    if negative(b) {
        -1 - magnitude(b)
    } else {
        magnitude(b)
    }
}

/// Where the number of `b` stands among the numbers; the two zeros share a place.
pub open spec fn number_key(b: u32) -> int {
    if negative(b) {
        -magnitude(b)
    } else {
        magnitude(b)
    }
}

/// `a < b` on the numbers; false where either is not one.
pub open spec fn less(a: u32, b: u32) -> bool {
    !not_a_number(a) && !not_a_number(b) && number_key(a) < number_key(b)
}

/// `a == b` on the numbers; false where either is not one.
pub open spec fn same(a: u32, b: u32) -> bool {
    !not_a_number(a) && !not_a_number(b) && number_key(a) == number_key(b)
}

/// The greater of two numbers; one that is not a number loses, and `a` wins a draw.
pub open spec fn greater_of(a: u32, b: u32) -> u32 {
    if not_a_number(a) || less(a, b) {
        b
    } else {
        a
    }
}

/// The bits without the sign bit.
pub fn magnitude_bits(b: u32) -> (r: u32)
    ensures
        r == magnitude(b),
{
    if b >= 0x8000_0000 {
        b - 0x8000_0000
    } else {
        b
    }
}

/// Whether `b` stands for no number.
pub fn is_not_a_number(b: u32) -> (r: bool)
    ensures
        r == not_a_number(b),
{
    magnitude_bits(b) > 0x7f80_0000
}

/// Whether `b` stands for a number that is neither infinite nor missing.
pub fn is_finite(b: u32) -> (r: bool)
    ensures
        r == finite(b),
{
    magnitude_bits(b) < 0x7f80_0000
}

/// Where `b` stands in the IEEE 754 total order.
pub fn total_order_key(b: u32) -> (r: i64)
    ensures
        r == total_key(b),
{
    if b >= 0x8000_0000 {
        -1 - magnitude_bits(b) as i64
    } else {
        b as i64
    }
}

/// Where the number of `b` stands among the numbers; the two zeros share a place.
pub fn number_order_key(b: u32) -> (r: i64)
    ensures
        r == number_key(b),
{
    if b >= 0x8000_0000 {
        -(magnitude_bits(b) as i64)
    } else {
        b as i64
    }
}

/// `a < b` on the numbers.
pub fn is_less(a: u32, b: u32) -> (r: bool)
    ensures
        r == less(a, b),
{
    !is_not_a_number(a) && !is_not_a_number(b) && number_order_key(a) < number_order_key(b)
}

/// `a == b` on the numbers.
pub fn is_same(a: u32, b: u32) -> (r: bool)
    ensures
        r == same(a, b),
{
    !is_not_a_number(a) && !is_not_a_number(b) && number_order_key(a) == number_order_key(b)
}

/// The greater of two numbers.
pub fn greater(a: u32, b: u32) -> (r: u32)
    ensures
        r == greater_of(a, b),
{
    if is_not_a_number(a) || is_less(a, b) {
        b
    } else {
        a
    }
}

/// The bits of a double-precision number below its sign bit.
pub open spec fn magnitude_wide(b: u64) -> int {
    if b >= 0x8000_0000_0000_0000 {
        b - 0x8000_0000_0000_0000
    } else {
        b as int
    }
}

/// Whether `b` stands for no number in double precision.
pub open spec fn not_a_number_wide(b: u64) -> bool {
    magnitude_wide(b) > 0x7ff0_0000_0000_0000
}

/// Where the number of `b` stands among the double-precision numbers.
pub open spec fn number_key_wide(b: u64) -> int {
    if b >= 0x8000_0000_0000_0000 {
        -magnitude_wide(b)
    } else {
        magnitude_wide(b)
    }
}

/// `a < b` on double-precision numbers; false where either is not one.
pub open spec fn less_wide(a: u64, b: u64) -> bool {
    !not_a_number_wide(a) && !not_a_number_wide(b) && number_key_wide(a) < number_key_wide(b)
}

/// `a < b` on double-precision numbers.
pub fn is_less_wide(a: u64, b: u64) -> (r: bool)
    ensures
        r == less_wide(a, b),
{
    let (a_below, a_key): (u64, i64) = split_sign(a);
    let (b_below, b_key): (u64, i64) = split_sign(b);
    a_below <= 0x7ff0_0000_0000_0000 && b_below <= 0x7ff0_0000_0000_0000 && a_key < b_key
}

/// The magnitude and the place among the numbers of a double-precision number.
fn split_sign(b: u64) -> (r: (u64, i64))
    ensures
        r.0 == magnitude_wide(b),
        r.1 == number_key_wide(b),
{
    if b >= 0x8000_0000_0000_0000 {
        let below: u64 = b - 0x8000_0000_0000_0000;
        (below, -(below as i64))
    } else {
        (b, b as i64)
    }
}

/// The smaller of two double-precision numbers; one that is not a number loses, and `a`
/// wins a draw.
pub open spec fn smaller_wide_of(a: u64, b: u64) -> u64 {
    if not_a_number_wide(a) || less_wide(b, a) {
        b
    } else {
        a
    }
}

/// The smaller of two double-precision numbers.
pub fn smaller_wide(a: u64, b: u64) -> (r: u64)
    ensures
        r == smaller_wide_of(a, b),
{
    let (below, _key): (u64, i64) = split_sign(a);
    if below > 0x7ff0_0000_0000_0000 || is_less_wide(b, a) {
        b
    } else {
        a
    }
}

/// The integer factor of a finite number: the number is `significand * 2^exponent`.
pub open spec fn significand(b: u32) -> nat {
    let field = magnitude(b) / 0x80_0000;
    let fraction = magnitude(b) % 0x80_0000;
    if field == 0 {
        fraction as nat
    } else {
        (0x80_0000 + fraction) as nat
    }
}

/// The power of two of a finite number.
pub open spec fn exponent(b: u32) -> int {
    let field = magnitude(b) / 0x80_0000;
    if field == 0 {
        -149
    } else {
        field - 150
    }
}

/// `n`, or the greatest `usize` where `n` is beyond it.
pub open spec fn saturated(n: nat) -> usize {
    if n <= usize::MAX {
        n as usize
    } else {
        usize::MAX
    }
}

/// The whole number nearest to `numerator / denominator`, where a fraction within about a
/// millionth of one half goes to the even neighbour.
///
/// The two bounds are the single-precision numbers next to `0.5 - 1e-6` and `0.5 + 1e-6`,
/// counted in units of `2^-25`.
pub open spec fn nearest_even(numerator: nat, denominator: nat) -> nat
    recommends
        denominator > 0,
{
    let lower = numerator / denominator;
    let rest = numerator % denominator;
    if rest * 0x200_0000 < 16777182 * denominator {
        lower
    } else if rest * 0x200_0000 > 16777250 * denominator {
        lower + 1
    } else if lower % 2 == 0 {
        lower
    } else {
        lower + 1
    }
}

/// The count that the number `b` rounds to: the nearest whole number, ties to even, nothing
/// for what is negative or not a number, and the greatest `usize` for what is beyond it.
pub open spec fn rounded_count_of(b: u32) -> usize {
    if negative(b) || not_a_number(b) {
        0
    } else if !finite(b) {
        usize::MAX
    } else if exponent(b) >= 0 {
        saturated(significand(b) * pow2(exponent(b) as nat))
    } else {
        saturated(nearest_even(significand(b), pow2((-exponent(b)) as nat)))
    }
}

/// The significand and the exponent of a finite number.
pub fn decompose(b: u32) -> (r: (u32, i32))
    requires
        finite(b),
    ensures
        r.0 == significand(b),
        r.1 == exponent(b),
        r.0 < 0x100_0000,
        -149 <= r.1 <= 104,
        r.1 >= 0 ==> r.0 >= 0x80_0000,
{
    let below: u32 = magnitude_bits(b);
    let field: u32 = below / 0x80_0000;
    let fraction: u32 = below % 0x80_0000;
    if field == 0 {
        (fraction, -149)
    } else {
        (0x80_0000 + fraction, field as i32 - 150)
    }
}

/// `n * 2^shift`, or the greatest `usize` where that is beyond it.
fn shifted(n: usize, shift: u32) -> (r: usize)
    ensures
        r == saturated(n as nat * pow2(shift as nat)),
{
    let mut value: usize = n;
    let mut done: u32 = 0;
    proof {
        vstd::arithmetic::power2::lemma2_to64();
        assert(n * pow2(0) == n) by (nonlinear_arith)
            requires
                pow2(0) == 1,
        ;
    }
    while done < shift
        invariant
            done <= shift,
            value == n * pow2(done as nat),
        decreases shift - done,
    {
        proof {
            lemma_pow2_unfold((done + 1) as nat);
            assert(n * pow2((done + 1) as nat) == 2 * (n * pow2(done as nat))) by (nonlinear_arith)
                requires
                    pow2((done + 1) as nat) == 2 * pow2(done as nat),
            ;
        }
        if value > usize::MAX / 2 {
            proof {
                lemma_pow2_adds((done + 1) as nat, (shift - done - 1) as nat);
                lemma_pow2_pos((shift - done - 1) as nat);
                assert(n * pow2(shift as nat) >= n * pow2((done + 1) as nat)) by (nonlinear_arith)
                    requires
                        pow2(shift as nat) == pow2((done + 1) as nat) * pow2(
                            (shift - done - 1) as nat,
                        ),
                        pow2((shift - done - 1) as nat) >= 1,
                        n >= 0,
                ;
            }
            return usize::MAX;
        }
        value = value * 2;
        done = done + 1;
    }
    value
}

/// `2^shift` for a small shift.
fn power(shift: u32) -> (r: u64)
    requires
        shift < 63,
    ensures
        r == pow2(shift as nat),
        r >= 1,
{
    let mut value: u64 = 1;
    let mut done: u32 = 0;
    proof {
        vstd::arithmetic::power2::lemma2_to64();
    }
    while done < shift
        invariant
            done <= shift < 63,
            value == pow2(done as nat),
            value >= 1,
        decreases shift - done,
    {
        proof {
            lemma_pow2_unfold((done + 1) as nat);
            vstd::arithmetic::power2::lemma2_to64();
            vstd::arithmetic::power2::lemma2_to64_rest();
            lemma_pow2_strictly_increases(done as nat, 63);
        }
        value = value * 2;
        done = done + 1;
    }
    value
}

/// The count that the number `b` rounds to.
pub fn rounded_count(b: u32) -> (r: usize)
    ensures
        r == rounded_count_of(b),
{
    if b >= 0x8000_0000 || is_not_a_number(b) {
        return 0;
    }
    if !is_finite(b) {
        return usize::MAX;
    }
    let (whole, power_of_two): (u32, i32) = decompose(b);
    if power_of_two >= 0 {
        return shifted(whole as usize, power_of_two as u32);
    }
    let shift: u32 = (-power_of_two) as u32;
    if shift >= 26 {
        proof {
            vstd::arithmetic::power2::lemma2_to64();
            if shift > 26 {
                lemma_pow2_strictly_increases(26, shift as nat);
            }
            let denominator = pow2(shift as nat);
            assert(pow2(26) == 0x400_0000);
            assert(whole < denominator);
            vstd::arithmetic::div_mod::lemma_small_mod(whole as nat, denominator);
            vstd::arithmetic::div_mod::lemma_basic_div(whole as int, denominator as int);
            assert(nearest_even(whole as nat, denominator) == 0);
        }
        return 0;
    }
    let denominator: u64 = power(shift);
    proof {
        vstd::arithmetic::power2::lemma2_to64();
        lemma_pow2_strictly_increases(shift as nat, 26);
        assert(pow2(26) == 0x400_0000);
    }
    let lower: u64 = whole as u64 / denominator;
    let rest: u64 = whole as u64 % denominator;
    proof {
        assert(lower <= whole) by (nonlinear_arith)
            requires
                lower == whole as int / denominator as int,
                denominator >= 1,
        ;
    }
    if rest * 0x200_0000 < 16777182 * denominator {
        lower as usize
    } else if rest * 0x200_0000 > 16777250 * denominator {
        (lower + 1) as usize
    } else if lower % 2 == 0 {
        lower as usize
    } else {
        (lower + 1) as usize
    }
}

/// How many of the lowest bits of `x` do not fit beside `bits` higher ones.
pub open spec fn excess(x: nat, bits: nat) -> nat
    decreases x,
{
    if x < pow2(bits) || x == 0 {
        0
    } else {
        1 + excess(x / 2, bits)
    }
}

/// `x` rounded to `bits` significant bits, ties to even.
pub open spec fn rounded_to(x: nat, bits: nat) -> nat {
    let unit = pow2(excess(x, bits));
    let lower = x / unit;
    let rest = x % unit;
    if 2 * rest > unit || (2 * rest == unit && lower % 2 == 1) {
        (lower + 1) * unit
    } else {
        lower * unit
    }
}

/// Rounding at most doubles a number.
pub proof fn lemma_rounded_bound(x: nat, bits: nat)
    requires
        bits > 0,
    ensures
        rounded_to(x, bits) <= 2 * x,
{
    let unit = pow2(excess(x, bits));
    lemma_pow2_pos(excess(x, bits));
    if x > 0 {
        lemma_excess_bound(x, bits);
        vstd::arithmetic::div_mod::lemma_fundamental_div_mod(x as int, unit as int);
        assert((x / unit + 1) * unit <= x + unit) by (nonlinear_arith)
            requires
                unit * (x / unit) <= x,
        ;
        assert((x / unit) * unit <= x) by (nonlinear_arith)
            requires
                unit * (x / unit) <= x,
        ;
    } else {
        lemma_pow2_pos(bits);
        vstd::arithmetic::power2::lemma2_to64();
        assert(unit == 1);
    }
}

/// The bits that do not fit are worth no more than the number.
proof fn lemma_excess_bound(x: nat, bits: nat)
    requires
        x > 0,
        bits > 0,
    ensures
        pow2(excess(x, bits)) <= x,
    decreases x,
{
    vstd::arithmetic::power2::lemma2_to64();
    if bits > 1 {
        lemma_pow2_strictly_increases(1, bits);
    }
    if x >= pow2(bits) {
        lemma_excess_bound(x / 2, bits);
        lemma_pow2_unfold((1 + excess(x / 2, bits)) as nat);
    }
}

/// `x` rounded to `bits` significant bits, ties to even.
pub fn round_to(x: u128, bits: u32) -> (r: u128)
    requires
        0 < bits < 63,
        x <= 0x400_0000_0000_0000_0000_0000_0000_0000,
    ensures
        r == rounded_to(x as nat, bits as nat),
{
    let limit: u128 = power(bits) as u128;
    let mut lower: u128 = x;
    let mut unit: u128 = 1;
    let ghost mut shift: nat = 0;
    proof {
        vstd::arithmetic::power2::lemma2_to64();
        if bits > 1 {
            lemma_pow2_strictly_increases(1, bits as nat);
        }
    }
    while lower >= limit
        invariant
            limit == pow2(bits as nat),
            limit >= 2,
            x <= 0x400_0000_0000_0000_0000_0000_0000_0000,
            unit == pow2(shift),
            unit >= 1,
            lower == x / unit,
            unit * lower <= x,
            shift + excess(lower as nat, bits as nat) == excess(x as nat, bits as nat),
        decreases lower,
    {
        proof {
            lemma_pow2_unfold((shift + 1) as nat);
            vstd::arithmetic::div_mod::lemma_div_denominator(x as int, unit as int, 2);
            assert(unit <= x) by (nonlinear_arith)
                requires
                    unit * lower <= x,
                    lower >= 1,
                    unit >= 1,
            ;
            assert((unit * 2) * (lower as int / 2) <= x) by (nonlinear_arith)
                requires
                    unit * lower <= x,
                    unit >= 1,
                    2 * (lower as int / 2) <= lower,
            ;
            shift = shift + 1;
        }
        lower = lower / 2;
        unit = unit * 2;
    }
    let rest: u128 = x % unit;
    proof {
        assert(lower * unit <= x) by (nonlinear_arith)
            requires
                unit * lower <= x,
        ;
        assert(unit <= x || unit == 1) by {
            if x > 0 {
                lemma_excess_bound(x as nat, bits as nat);
            } else {
                assert(excess(0, bits as nat) == 0);
            }
        }
        assert((lower + 1) * unit == lower * unit + unit) by (nonlinear_arith);
    }
    if 2 * rest > unit || (2 * rest == unit && lower % 2 == 1) {
        (lower + 1) * unit
    } else {
        lower * unit
    }
}

/// The number of whole steps in the positive number `b` times `factor`, as single precision
/// computes it: the product rounded to 24 significant bits, without its fraction; nothing for
/// what is negative or not a number, and the greatest `usize` for what is beyond it.
pub open spec fn scaled_count_of(b: u32, factor: u32) -> usize {
    if negative(b) || not_a_number(b) {
        0
    } else if !finite(b) {
        usize::MAX
    } else {
        let product = rounded_to(significand(b) * factor as nat, 24);
        if exponent(b) >= 0 {
            saturated(product * pow2(exponent(b) as nat))
        } else {
            saturated(product / pow2((-exponent(b)) as nat))
        }
    }
}

/// The number of whole steps in the positive number `b` times `factor`.
pub fn scaled_count(b: u32, factor: u32) -> (r: usize)
    ensures
        r == scaled_count_of(b, factor),
{
    if b >= 0x8000_0000 || is_not_a_number(b) {
        return 0;
    }
    if !is_finite(b) {
        return usize::MAX;
    }
    let (whole, power_of_two): (u32, i32) = decompose(b);
    proof {
        assert(whole * factor <= 0x100_0000 * 0x1_0000_0000) by (nonlinear_arith)
            requires
                whole < 0x100_0000,
                factor <= 0xffff_ffff,
        ;
        lemma_rounded_bound((whole * factor) as nat, 24);
    }
    let product: u128 = round_to((whole as u128) * (factor as u128), 24);
    if power_of_two >= 0 {
        if product > usize::MAX as u128 {
            proof {
                lemma_pow2_pos(power_of_two as nat);
                assert(product * pow2(power_of_two as nat) >= product) by (nonlinear_arith)
                    requires
                        pow2(power_of_two as nat) >= 1,
                        product >= 0,
                ;
            }
            return usize::MAX;
        }
        return shifted(product as usize, power_of_two as u32);
    }
    let shift: u32 = (-power_of_two) as u32;
    if shift >= 60 {
        proof {
            vstd::arithmetic::power2::lemma2_to64_rest();
            if shift > 60 {
                lemma_pow2_strictly_increases(60, shift as nat);
            }
            vstd::arithmetic::div_mod::lemma_basic_div(product as int, pow2(shift as nat) as int);
        }
        return 0;
    }
    let steps: u128 = product / (power(shift) as u128);
    if steps > usize::MAX as u128 {
        usize::MAX
    } else {
        steps as usize
    }
}

} // verus!

//! Sampling derived from one uniform random source.
//!
//! A uniform sample is a 24-bit numerator `k`, standing for the fraction
//! `k / 2^24` of the half-open unit interval. As a number in binary32
//! encoding the fraction is exact. The integer samplers scale it as
//! arithmetic in that encoding does, rounding each step to twenty-four
//! significant bits, and state the integer that comes of it.

use crate::rounding::{
    excess, lemma_excess, lemma_excess_of_shifted, lemma_no_number_between,
    lemma_rounded_is_fixed, lemma_rounded_is_rounded, round24, round_int, rounded_size,
};
use crate::scalar::{Scalar, ONE_BITS};
use vstd::arithmetic::div_mod::lemma_fundamental_div_mod;
use vstd::arithmetic::power2::{lemma2_to64, lemma_pow2_adds, lemma_pow2_pos, lemma_pow2_unfold, pow2};
use vstd::prelude::*;

verus! {

/// The denominator of a uniform sample: `2^24`.
pub const SAMPLE_SCALE: u32 = 0x100_0000;

/// The quotient `n / d` rounded toward zero, for a positive divisor.
pub open spec fn truncated_quotient(n: int, d: int) -> int {
    if n >= 0 {
        n / d
    } else {
        -((-n) / d)
    }
}

/// What `min + (max - min) * u` comes to for the uniform sample
/// `u = bits / 2^24`, computed in binary32 and cut off at its fraction: the
/// bounds are rounded to the encoding, then their difference, then its
/// product with the sample, then the sum with the lower bound, and the sum
/// is rounded toward zero.
pub open spec fn binary32_in_range(min: int, max: int, bits: int) -> int {
    let low = round24(min);
    let high = round24(max);
    let span = round24(high - low);
    let part = round24(span * bits);
    let sum = round24(low * SAMPLE_SCALE + part);
    truncated_quotient(sum, SAMPLE_SCALE as int)
}

/// `n`, or the nearer end of the range from `low` to `high` where it lies
/// outside.
pub open spec fn clamped(n: int, low: int, high: int) -> int {
    if n < low {
        low
    } else if n > high {
        high
    } else {
        n
    }
}

/// The integer that the sample `bits / 2^24` gives between `min` and `max`,
/// as far as thirty-two bits with a sign hold it.
pub open spec fn int_in_range(min: int, max: int, bits: int) -> int {
    clamped(binary32_in_range(min, max, bits), i32::MIN as int, i32::MAX as int)
}

/// The index that the sample `bits / 2^24` gives between `min` and `max`,
/// as far as the machine's word holds it.
pub open spec fn usize_in_range(min: int, max: int, bits: int) -> int {
    clamped(binary32_in_range(min, max, bits), 0, usize::MAX as int)
}

/// Draws 32 random bits from `rand::random::<u32>()`, the thread-local
/// generator of the `rand` crate. Nothing is claimed of the value drawn. The
/// generator gives up, and the program with it, where the operating system
/// has no seed for it.
#[verifier::external_body]
fn random_word() -> (word: u32) {
    rand::random::<u32>()
}

/// Draws the numerator of a uniform sample of `[0, 1)`: the 24 high bits of
/// a random word.
pub fn get_rand_bits() -> (bits: u32)
    ensures
        bits < SAMPLE_SCALE,
{
    let word: u32 = random_word();
    sample_bits_of(word)
}

/// The numerator of the uniform sample that a random word gives: its 24
/// high bits, which is the word divided by 256.
pub fn sample_bits_of(word: u32) -> (bits: u32)
    ensures
        bits == word / 256,
        bits < SAMPLE_SCALE,
{
    let bits: u32 = word >> 8;
    assert(word >> 8 == word / 256 && word >> 8 < 0x100_0000u32) by (bit_vector);
    bits
}

/// The uniform sample `bits / 2^24` as a number in binary32 encoding. The
/// encoding holds twenty-four bits, so the number is exact: its value, the
/// number times `2^149`, is `bits` times `2^125`.
pub fn sample_scalar(bits: u32) -> (sample: Scalar)
    requires
        bits < SAMPLE_SCALE,
    ensures
        !sample.is_nan(),
        !sample.is_negative(),
        sample.value() == bits * pow2(125),
        0 <= sample.value() < pow2(149),
{
    proof {
        lemma2_to64();
        lemma_pow2_pos(125);
        lemma_pow2_adds(24, 125);
        assert(0 <= bits * pow2(125) < 0x100_0000 * pow2(125)) by (nonlinear_arith)
            requires
                0 <= bits < 0x100_0000,
                pow2(125) > 0,
        ;
    }
    if bits == 0 {
        assert(0 * pow2(125) == 0) by (nonlinear_arith);
        return Scalar { bits: 0 };
    }
    // Move the leading bit of the sample to the place of the hidden bit,
    // and lower the exponent by as much.
    let mut mantissa: u32 = bits;
    let mut exponent: u32 = 126;
    while mantissa < 0x80_0000
        invariant
            0 < mantissa < 0x100_0000,
            103 <= exponent <= 126,
            mantissa >= pow2((126 - exponent) as nat),
            mantissa * pow2((exponent - 1) as nat) == bits * pow2(125),
        decreases exponent,
    {
        proof {
            lemma2_to64();
            lemma_pow2_unfold((126 - exponent + 1) as nat);
            lemma_pow2_unfold((exponent - 1) as nat);
            // A leading bit below the hidden bit leaves room to lower the
            // exponent.
            assert(exponent > 103) by {
                if exponent == 103 {
                    assert(pow2(23) == 0x80_0000);
                }
            }
            let below = pow2((exponent - 2) as nat) as int;
            assert((2 * mantissa) * below == mantissa * (2 * below)) by (nonlinear_arith);
        }
        mantissa = mantissa * 2;
        exponent = exponent - 1;
    }
    let sample = Scalar { bits: exponent * 0x80_0000 + (mantissa - 0x80_0000) };
    proof {
        assert(sample.magnitude() == sample.bits);
        assert(sample.bits / 0x80_0000 == exponent);
        assert(sample.bits % 0x80_0000 == mantissa - 0x80_0000);
    }
    sample
}

/// Draws a uniform sample of `[0, 1)` as a number in binary32 encoding.
pub fn get_rand() -> (sample: Scalar)
    ensures
        !sample.is_nan(),
        !sample.is_negative(),
        0 <= sample.value() < pow2(149),
        exists|bits: int| 0 <= bits < SAMPLE_SCALE && sample.value() == #[trigger] (bits * pow2(125)),
{
    let bits: u32 = get_rand_bits();
    sample_scalar(bits)
}

/// Whether a point drawn from the cube around the unit sphere is kept as a
/// point of the sphere: it is where the square of its norm is below one.
pub fn in_unit_sphere(norm_squared: Scalar) -> (inside: bool)
    ensures
        inside == norm_squared.is_below(Scalar { bits: ONE_BITS }),
{
    norm_squared.less_than(&Scalar { bits: ONE_BITS })
}

/// Whether a point drawn from the square around the unit disk is kept as a
/// point of the disk: it is unless the square of its norm is one or more.
pub fn in_unit_disk(norm_squared: Scalar) -> (inside: bool)
    ensures
        inside == !(Scalar { bits: ONE_BITS }).is_at_most(norm_squared),
{
    !(Scalar { bits: ONE_BITS }).at_most(&norm_squared)
}

/// Scales the uniform sample `bits / 2^24` into the span between two bounds
/// as binary32 arithmetic does, and drops the fraction.
fn scale_in_binary32(min: i128, max: i128, bits: u32) -> (value: i128)
    requires
        -0x1_0000_0000_0000_0000 <= min <= 0x1_0000_0000_0000_0000,
        -0x1_0000_0000_0000_0000 <= max <= 0x1_0000_0000_0000_0000,
        bits < SAMPLE_SCALE,
    ensures
        value == binary32_in_range(min as int, max as int, bits as int),
{
    let low: i128 = round_int(min);
    let high: i128 = round_int(max);
    let span: i128 = round_int(high - low);
    assert(-0x8_0000_0000_0000_0000 * 0x100_0000 <= span * bits <= 0x8_0000_0000_0000_0000
        * 0x100_0000) by (nonlinear_arith)
        requires
            -0x8_0000_0000_0000_0000 <= span <= 0x8_0000_0000_0000_0000,
            0 <= bits < 0x100_0000,
    ;
    let part: i128 = round_int(span * (bits as i128));
    let sum: i128 = round_int(low * 0x100_0000 + part);
    if sum >= 0 {
        sum / 0x100_0000
    } else {
        -((-sum) / 0x100_0000)
    }
}

/// Scales the uniform sample `bits / 2^24` into the span between `min` and
/// `max` as binary32 arithmetic does, and drops the fraction, rounding
/// toward zero.
pub fn int_from_bits(min: i32, max: i32, bits: u32) -> (value: i32)
    requires
        bits < SAMPLE_SCALE,
    ensures
        value == int_in_range(min as int, max as int, bits as int),
        min == 0 && 0 < max ==> 0 <= value < max,
        0 <= min <= max <= SAMPLE_SCALE ==> min <= value <= max,
{
    let value: i128 = scale_in_binary32(min as i128, max as i128, bits);
    proof {
        if min == 0 && 0 < max {
            lemma_sample_below(max as int, bits as int);
        }
        if 0 <= min <= max <= SAMPLE_SCALE {
            lemma_sample_between(min as int, max as int, bits as int);
        }
    }
    if value < i32::MIN as i128 {
        i32::MIN
    } else if value > i32::MAX as i128 {
        i32::MAX
    } else {
        value as i32
    }
}

/// Scales the uniform sample `bits / 2^24` into the span between `min` and
/// `max` as binary32 arithmetic does, and drops the fraction.
pub fn usize_from_bits(min: usize, max: usize, bits: u32) -> (value: usize)
    requires
        bits < SAMPLE_SCALE,
    ensures
        value == usize_in_range(min as int, max as int, bits as int),
        min == 0 && 0 < max ==> value < max,
        min <= max <= SAMPLE_SCALE ==> min <= value <= max,
{
    let value: i128 = scale_in_binary32(min as i128, max as i128, bits);
    proof {
        if min == 0 && 0 < max {
            lemma_sample_below(max as int, bits as int);
        }
        if min <= max <= SAMPLE_SCALE {
            lemma_sample_between(min as int, max as int, bits as int);
        }
    }
    if value < 0 {
        0
    } else if value > usize::MAX as i128 {
        usize::MAX
    } else {
        value as usize
    }
}

/// Draws a random integer between `min` and `max`: what
/// `min + (max - min) * u` comes to in binary32 for a uniform sample `u` of
/// `[0, 1)`, without its fraction.
pub fn get_rand_int_range(min: i32, max: i32) -> (value: i32)
    ensures
        exists|bits: int|
            0 <= bits < SAMPLE_SCALE && value == #[trigger] int_in_range(
                min as int,
                max as int,
                bits,
            ),
        min == 0 && 0 < max ==> 0 <= value < max,
        0 <= min <= max <= SAMPLE_SCALE ==> min <= value <= max,
{
    let bits: u32 = get_rand_bits();
    int_from_bits(min, max, bits)
}

/// Draws a random index between `min` and `max`: what
/// `min + (max - min) * u` comes to in binary32 for a uniform sample `u` of
/// `[0, 1)`, without its fraction.
pub fn get_rand_usize_range(min: usize, max: usize) -> (value: usize)
    ensures
        exists|bits: int|
            0 <= bits < SAMPLE_SCALE && value == #[trigger] usize_in_range(
                min as int,
                max as int,
                bits,
            ),
        min == 0 && 0 < max ==> value < max,
        min <= max <= SAMPLE_SCALE ==> min <= value <= max,
{
    let bits: u32 = get_rand_bits();
    usize_from_bits(min, max, bits)
}

/// The product of a span and a sample rounds to less than the span itself:
/// the sample is below one.
pub proof fn lemma_rounded_product_below(max: int, bits: int)
    requires
        0 < max,
        0 <= bits < SAMPLE_SCALE,
    ensures
        0 <= max * bits,
        rounded_size((max * bits) as nat) < max * SAMPLE_SCALE,
{
    lemma2_to64();
    assert(0 <= max * bits <= max * 0x100_0000 - max) by (nonlinear_arith)
        requires
            0 < max,
            0 <= bits <= 0x100_0000 - 1,
    ;
    let n = (max * bits) as nat;
    let e = excess(n);
    let unit = pow2(e) as int;
    let q = n as int / unit;
    let r = n as int % unit;
    lemma_excess(n);
    lemma_pow2_pos(e);
    lemma_fundamental_div_mod(n as int, unit);
    assert(q * unit == unit * q) by (nonlinear_arith);
    assert((q + 1) * unit == unit * q + unit) by (nonlinear_arith);
    if e > 0 {
        assert(unit < 2 * max) by (nonlinear_arith)
            requires
                unit * q <= n,
                q >= 0x80_0000,
                n <= max * 0x100_0000 - max,
                max > 0,
                unit > 0,
        ;
    }
}

/// With a lower bound of zero the sample scales to less than the upper
/// bound, whatever that is: the index of an entry of a list of that length.
pub proof fn lemma_sample_below(max: int, bits: int)
    requires
        0 < max,
        0 <= bits < SAMPLE_SCALE,
    ensures
        0 <= binary32_in_range(0, max, bits) < max,
{
    lemma2_to64();
    lemma_excess_of_shifted(0, 0);
    assert(0 * pow2(0) == 0) by (nonlinear_arith);
    assert(round24(0) == 0);
    // The bound as the encoding holds it: a step below or above it.
    let e = excess(max as nat);
    let unit = pow2(e) as int;
    let steps = max / unit;
    let rest = max % unit;
    let high = rounded_size(max as nat) as int;
    lemma_excess(max as nat);
    lemma_pow2_pos(e);
    lemma_fundamental_div_mod(max, unit);
    assert(steps * unit == unit * steps) by (nonlinear_arith);
    assert((steps + 1) * unit == unit * steps + unit) by (nonlinear_arith);
    assert(steps >= 1) by (nonlinear_arith)
        requires
            max == unit * steps + rest,
            0 <= rest < unit,
            max > 0,
            e > 0 ==> steps >= 0x80_0000,
            e == 0 ==> unit == 1,
    ;
    assert(high > 0) by (nonlinear_arith)
        requires
            high >= unit * steps,
            steps >= 1,
            unit > 0,
    ;
    lemma_rounded_is_fixed(max as nat);
    assert(round24(high - 0) == high);
    // The part of it that the sample takes.
    lemma_rounded_product_below(high, bits);
    let part = rounded_size((high * bits) as nat) as int;
    lemma_rounded_is_fixed((high * bits) as nat);
    lemma_rounded_is_rounded((high * bits) as nat);
    assert(round24(high * bits) == part);
    assert(0 * SAMPLE_SCALE + part == part);
    assert(round24(part) == part);
    let value = part / 0x100_0000;
    assert(binary32_in_range(0, max, bits) == value);
    assert(value < high);
    if high > max {
        // The bound was rounded up by less than a step, and the part is no
        // more than the step below.
        assert(high == unit * steps + unit);
        assert(e > 0);
        assert(rest > 0);
        let wide = pow2(e + 24) as int;
        lemma_pow2_adds(e, 24);
        assert(wide == unit * 0x100_0000);
        assert(steps * wide == (unit * steps) * 0x100_0000) by (nonlinear_arith)
            requires
                wide == unit * 0x100_0000,
        ;
        assert((steps + 1) * wide == high * 0x100_0000) by (nonlinear_arith)
            requires
                wide == unit * 0x100_0000,
                high == unit * steps + unit,
        ;
        if part > steps * wide {
            lemma_no_number_between(part as nat, steps as nat, e + 24);
        }
        assert(part <= (unit * steps) * 0x100_0000);
        assert(value <= unit * steps);
    }
}

/// Between bounds of at most twenty-four bits the sample scales to an
/// integer that is neither below the lower nor above the upper bound.
pub proof fn lemma_sample_between(min: int, max: int, bits: int)
    requires
        0 <= min <= max <= SAMPLE_SCALE,
        0 <= bits < SAMPLE_SCALE,
    ensures
        min <= binary32_in_range(min, max, bits) <= max,
{
    lemma2_to64();
    lemma_bound_is_exact(min);
    lemma_bound_is_exact(max);
    let span = max - min;
    lemma_bound_is_exact(span);
    // The part of the span that the sample takes lies below the span.
    let part = round24(span * bits);
    if span > 0 {
        lemma_rounded_product_below(span, bits);
    } else {
        assert(span * bits == 0) by (nonlinear_arith)
            requires
                span == 0,
        ;
        lemma_bound_is_exact(0);
    }
    assert(0 <= part <= span * 0x100_0000);
    let low = min * 0x100_0000;
    let high = max * 0x100_0000;
    assert(high == low + span * 0x100_0000);
    let sum = (low + part) as nat;
    // The sum drops at most twenty-four bits, of which the bounds have
    // none.
    let e = excess(sum);
    let unit = pow2(e) as int;
    let q = sum as int / unit;
    let r = sum as int % unit;
    lemma_excess(sum);
    lemma_pow2_pos(e);
    lemma_fundamental_div_mod(sum as int, unit);
    assert(q * unit == unit * q) by (nonlinear_arith);
    assert((q + 1) * unit == unit * q + unit) by (nonlinear_arith);
    if e > 0 {
        assert(unit <= 0x200_0000) by (nonlinear_arith)
            requires
                unit * q <= sum,
                q >= 0x80_0000,
                sum <= 0x100_0000 * 0x100_0000,
                unit > 0,
        ;
        if e > 25 {
            vstd::arithmetic::power2::lemma_pow2_strictly_increases(25, e);
        }
        assert(e <= 25);
    }
    if e <= 24 {
        let rest = pow2((24 - e) as nat) as int;
        lemma_pow2_adds(e, (24 - e) as nat);
        lemma_pow2_pos((24 - e) as nat);
        assert(0x100_0000 == unit * rest);
        let steps_low = min * rest;
        let steps_high = max * rest;
        assert(low == unit * steps_low && high == unit * steps_high) by (nonlinear_arith)
            requires
                low == min * 0x100_0000,
                high == max * 0x100_0000,
                0x100_0000 == unit * rest,
                steps_low == min * rest,
                steps_high == max * rest,
        ;
        assert(steps_low <= q) by (nonlinear_arith)
            requires
                unit * steps_low <= unit * q + r,
                0 <= r < unit,
        ;
        assert(r > 0 ==> q + 1 <= steps_high) by (nonlinear_arith)
            requires
                unit * q + r <= unit * steps_high,
                0 <= r < unit,
        ;
        assert(unit * steps_low <= unit * q) by (nonlinear_arith)
            requires
                steps_low <= q,
                unit > 0,
        ;
        assert(r > 0 ==> unit * q + unit <= unit * steps_high) by (nonlinear_arith)
            requires
                r > 0 ==> q + 1 <= steps_high,
                unit > 0,
        ;
        assert(low <= rounded_size(sum) <= high);
    } else {
        // Twenty-five bits are dropped of the largest sum only, which is
        // the upper bound itself.
        assert(sum >= 0x1_0000_0000_0000) by (nonlinear_arith)
            requires
                unit * q <= sum,
                q >= 0x80_0000,
                unit == 0x200_0000,
        ;
        assert(sum == high);
        assert(r == 0 && q == 0x80_0000) by (nonlinear_arith)
            requires
                sum == unit * q + r,
                sum == 0x1_0000_0000_0000,
                unit == 0x200_0000,
                0 <= r < unit,
        ;
        assert(rounded_size(sum) == high);
    }
    let rounded = rounded_size(sum) as int;
    assert(round24(low + part) == rounded);
    assert(min <= rounded / 0x100_0000 <= max);
}

/// A bound of at most `2^24` is a number of the encoding.
pub proof fn lemma_bound_is_exact(bound: int)
    requires
        0 <= bound <= SAMPLE_SCALE,
    ensures
        round24(bound) == bound,
{
    lemma2_to64();
    if bound < 0x100_0000 {
        lemma_excess_of_shifted(bound as nat, 0);
        assert(bound * pow2(0) == bound) by (nonlinear_arith)
            requires
                pow2(0) == 1,
        ;
    } else {
        lemma_excess_of_shifted(0x80_0000, 1);
        assert(0x80_0000 * pow2(1) == 0x100_0000) by (nonlinear_arith)
            requires
                pow2(1) == 2,
        ;
    }
}

} // verus!

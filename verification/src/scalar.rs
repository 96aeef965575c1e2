//! Numbers in binary32 encoding.
//!
//! A coordinate or a colour reaches this crate as the 32-bit pattern that
//! encodes it: a sign bit, eight bits of exponent and twenty-three bits of
//! fraction. Arithmetic that rounds is left to the caller. Comparing such
//! numbers, choosing between them, changing their sign and taking their
//! integer part need none, and are exact.
//!
//! The model of a pattern is its value: the encoded number times `2^149`,
//! which is an integer for every number that the encoding holds.

use vstd::arithmetic::div_mod::{
    lemma_div_by_multiple, lemma_div_is_ordered, lemma_fundamental_div_mod_converse,
};
use vstd::arithmetic::power2::{
    lemma2_to64, lemma_pow2_adds, lemma_pow2_pos, lemma_pow2_strictly_increases, lemma_pow2_unfold,
    pow2,
};
use vstd::prelude::*;

verus! {

/// The pattern of positive infinity: every exponent bit set, no fraction.
pub const INFINITY_BITS: u32 = 0x7f80_0000;

/// The pattern of one.
pub const ONE_BITS: u32 = 0x3f80_0000;

/// The pattern of positive zero.
pub const ZERO_BITS: u32 = 0;

/// A number in binary32 encoding, or a pattern that encodes none.
#[derive(Clone, Copy, Debug, PartialEq, Eq, Structural)]
pub struct Scalar {
    pub bits: u32,
}

/// The number that a pattern without sign encodes, times `2^149`: the
/// fraction alone where the exponent is zero, else the fraction with its
/// hidden bit, shifted by the exponent. Infinity counts as the number that
/// the next exponent would begin with.
pub open spec fn scaled_magnitude(magnitude: int) -> int {
    let exponent = magnitude / 0x80_0000;
    let fraction = magnitude % 0x80_0000;
    if exponent == 0 {
        fraction
    } else {
        (0x80_0000 + fraction) * pow2((exponent - 1) as nat)
    }
}

impl Scalar {
    /// The pattern without its sign bit.
    pub open spec fn magnitude(self) -> int {
        self.bits as int % 0x8000_0000
    }

    /// Whether the sign bit is set.
    pub open spec fn is_negative(self) -> bool {
        self.bits >= 0x8000_0000
    }

    /// Whether the pattern encodes no number: every exponent bit set and a
    /// fraction that is not zero.
    pub open spec fn is_nan(self) -> bool {
        self.magnitude() > INFINITY_BITS
    }

    /// The encoded number, times `2^149`.
    pub open spec fn value(self) -> int {
        if self.is_negative() {
            -scaled_magnitude(self.magnitude())
        } else {
            scaled_magnitude(self.magnitude())
        }
    }

    /// The sort key: the magnitude, negated under a sign bit.
    pub open spec fn key(self) -> int {
        if self.is_negative() {
            -self.magnitude()
        } else {
            self.magnitude()
        }
    }

    /// Whether the number is smaller than `other`. Nothing is smaller or
    /// larger than a pattern that is no number.
    pub open spec fn is_below(self, other: Scalar) -> bool {
        !self.is_nan() && !other.is_nan() && self.value() < other.value()
    }

    /// Whether the number is `other` or smaller.
    pub open spec fn is_at_most(self, other: Scalar) -> bool {
        !self.is_nan() && !other.is_nan() && self.value() <= other.value()
    }

    /// Whether the number lies below `low` or above `high`.
    pub open spec fn is_outside(self, low: Scalar, high: Scalar) -> bool {
        self.is_below(low) || high.is_below(self)
    }

    /// The number with the opposite sign: the pattern with its sign bit
    /// changed.
    pub open spec fn negation(self) -> Scalar {
        Scalar {
            bits: if self.bits >= 0x8000_0000 {
                (self.bits - 0x8000_0000) as u32
            } else {
                (self.bits + 0x8000_0000) as u32
            },
        }
    }

    /// Twice the number, as the encoding holds it: the number with its
    /// exponent raised by one, infinity where that is beyond the largest
    /// exponent, and a pattern that is no number unchanged.
    pub open spec fn double(self) -> Scalar {
        if self.is_nan() || self.magnitude() == INFINITY_BITS {
            self
        } else if self.magnitude() < 0x80_0000 {
            Scalar { bits: (self.bits + self.magnitude()) as u32 }
        } else if self.magnitude() < 0x7f00_0000 {
            Scalar { bits: (self.bits + 0x80_0000) as u32 }
        } else {
            Scalar { bits: (self.bits - self.magnitude() + INFINITY_BITS) as u32 }
        }
    }

    /// The smaller of two numbers. A pattern that is no number loses to the
    /// other one; of equal numbers the first is taken.
    pub open spec fn lesser(self, other: Scalar) -> Scalar {
        if other.is_nan() {
            self
        } else if self.is_nan() {
            other
        } else if other.value() < self.value() {
            other
        } else {
            self
        }
    }

    /// The larger of two numbers. A pattern that is no number loses to the
    /// other one; of equal numbers the first is taken.
    pub open spec fn greater(self, other: Scalar) -> Scalar {
        if other.is_nan() {
            self
        } else if self.is_nan() {
            other
        } else if other.value() > self.value() {
            other
        } else {
            self
        }
    }

    /// The sample as it enters an average: a pattern that is no number
    /// counts as zero, positive infinity as one, anything else as itself.
    pub open spec fn sanitised(self) -> Scalar {
        if self.is_nan() {
            Scalar { bits: ZERO_BITS }
        } else if self.bits == INFINITY_BITS {
            Scalar { bits: ONE_BITS }
        } else {
            self
        }
    }

    /// The greatest integer that is not above the number.
    pub open spec fn floor(self) -> int {
        self.value() / (pow2(149) as int)
    }

    /// The floor of the number as far as thirty-two bits hold it: an integer
    /// beyond either end becomes that end, and a pattern that is no number
    /// zero.
    pub open spec fn floor_in_range(self) -> int {
        if self.is_nan() {
            0
        } else if self.floor() < i32::MIN {
            i32::MIN as int
        } else if self.floor() > i32::MAX {
            i32::MAX as int
        } else {
            self.floor()
        }
    }

    /// The number with the given pattern.
    pub fn from_bits(bits: u32) -> (scalar: Self)
        ensures
            scalar.bits == bits,
    {
        Scalar { bits }
    }

    /// The pattern of the number.
    pub fn to_bits(&self) -> (bits: u32)
        ensures
            bits == self.bits,
    {
        self.bits
    }

    /// Whether the pattern encodes no number.
    pub fn is_not_a_number(&self) -> (nan: bool)
        ensures
            nan == self.is_nan(),
    {
        let magnitude: u32 = self.bits % 0x8000_0000;
        magnitude > INFINITY_BITS
    }

    /// The sort key of the number, or nothing where the pattern encodes
    /// none. Keys compare as the numbers do.
    pub fn order_key(&self) -> (key: Option<i64>)
        ensures
            key == if self.is_nan() {
                None
            } else {
                Some(self.key() as i64)
            },
            key matches Some(k) ==> -(INFINITY_BITS as int) <= k <= INFINITY_BITS,
    {
        let negative: bool = self.bits >= 0x8000_0000;
        let magnitude: u32 = self.bits % 0x8000_0000;
        if magnitude > INFINITY_BITS {
            None
        } else if negative {
            Some(-(magnitude as i64))
        } else {
            Some(magnitude as i64)
        }
    }

    /// Whether the number is smaller than `other`.
    pub fn less_than(&self, other: &Scalar) -> (less: bool)
        ensures
            less == self.is_below(*other),
    {
        proof {
            if !self.is_nan() && !other.is_nan() {
                lemma_keys_order(*self, *other);
            }
        }
        match (self.order_key(), other.order_key()) {
            (Some(a), Some(b)) => a < b,
            _ => false,
        }
    }

    /// Whether the number is `other` or smaller.
    pub fn at_most(&self, other: &Scalar) -> (within: bool)
        ensures
            within == self.is_at_most(*other),
    {
        proof {
            if !self.is_nan() && !other.is_nan() {
                lemma_keys_order(*self, *other);
                lemma_keys_order(*other, *self);
            }
        }
        match (self.order_key(), other.order_key()) {
            (Some(a), Some(b)) => a <= b,
            _ => false,
        }
    }

    /// Whether the number lies below `low` or above `high`.
    pub fn outside(&self, low: &Scalar, high: &Scalar) -> (out: bool)
        ensures
            out == self.is_outside(*low, *high),
    {
        self.less_than(low) || high.less_than(self)
    }

    /// The number with the opposite sign.
    pub fn negated(self) -> (opposite: Scalar)
        ensures
            opposite == self.negation(),
    {
        if self.bits >= 0x8000_0000 {
            Scalar { bits: self.bits - 0x8000_0000 }
        } else {
            Scalar { bits: self.bits + 0x8000_0000 }
        }
    }

    /// Twice the number.
    pub fn twice(self) -> (doubled: Scalar)
        ensures
            doubled == self.double(),
    {
        let magnitude: u32 = self.bits % 0x8000_0000;
        if magnitude >= INFINITY_BITS {
            self
        } else if magnitude < 0x80_0000 {
            Scalar { bits: self.bits + magnitude }
        } else if magnitude < 0x7f00_0000 {
            Scalar { bits: self.bits + 0x80_0000 }
        } else {
            Scalar { bits: self.bits - magnitude + INFINITY_BITS }
        }
    }

    /// The smaller of the number and `other`.
    pub fn min(self, other: Scalar) -> (least: Scalar)
        ensures
            least == self.lesser(other),
    {
        if other.less_than(&self) {
            other
        } else if self.is_not_a_number() && !other.is_not_a_number() {
            other
        } else {
            self
        }
    }

    /// The larger of the number and `other`.
    pub fn max(self, other: Scalar) -> (most: Scalar)
        ensures
            most == self.greater(other),
    {
        if self.less_than(&other) {
            other
        } else if self.is_not_a_number() && !other.is_not_a_number() {
            other
        } else {
            self
        }
    }

    /// The sample as it enters an average.
    pub fn sanitise(self) -> (clean: Scalar)
        ensures
            clean == self.sanitised(),
            !clean.is_nan(),
            clean.bits != INFINITY_BITS,
    {
        if self.is_not_a_number() {
            Scalar { bits: ZERO_BITS }
        } else if self.bits == INFINITY_BITS {
            Scalar { bits: ONE_BITS }
        } else {
            self
        }
    }

    /// The greatest integer that is not above the number, as far as
    /// thirty-two bits hold it.
    pub fn floor_to_i32(&self) -> (cell: i32)
        ensures
            cell == self.floor_in_range(),
    {
        let negative: bool = self.bits >= 0x8000_0000;
        let magnitude: u32 = self.bits % 0x8000_0000;
        if magnitude > INFINITY_BITS {
            return 0;
        }
        let exponent: u32 = magnitude / 0x80_0000;
        let fraction: u32 = magnitude % 0x80_0000;
        let ghost unit = pow2(149) as int;
        let ghost size = scaled_magnitude(magnitude as int);
        proof {
            lemma2_to64();
            lemma_pow2_pos(149);
        }
        if exponent == 0 {
            // Less than one in size: zero, or the integer below.
            proof {
                lemma_pow2_strictly_increases(23, 149);
                assert(size == fraction);
                if negative && fraction > 0 {
                    lemma_fundamental_div_mod_converse(-size, unit, -1, unit - size);
                } else {
                    lemma_fundamental_div_mod_converse(size, unit, 0, size);
                }
            }
            return if negative && fraction > 0 {
                -1
            } else {
                0
            };
        }
        let mantissa: u64 = 0x80_0000 + fraction as u64;
        let ghost scale = pow2((exponent - 1) as nat) as int;
        proof {
            lemma_pow2_pos((exponent - 1) as nat);
            assert(size == mantissa * scale);
        }
        if exponent >= 158 {
            // At least 2^31 in size.
            proof {
                lemma_pow2_adds(23, 157);
                lemma_pow2_adds(31, 149);
                if exponent > 158 {
                    lemma_pow2_strictly_increases(157, (exponent - 1) as nat);
                }
                assert(0x80_0000 * pow2(157) <= mantissa * scale) by (nonlinear_arith)
                    requires
                        0x80_0000 <= mantissa,
                        pow2(157) <= scale,
                        0 < pow2(157),
                ;
                let bound = 0x8000_0000 * unit;
                assert(bound == pow2(180));
                lemma_div_by_multiple(0x8000_0000, unit);
                if negative {
                    assert((-0x8000_0000) * unit + 0 == -bound) by (nonlinear_arith)
                        requires
                            bound == 0x8000_0000 * unit,
                    ;
                    lemma_fundamental_div_mod_converse(-bound, unit, -0x8000_0000, 0);
                    lemma_div_is_ordered(-size, -bound, unit);
                } else {
                    lemma_div_is_ordered(bound, size, unit);
                }
            }
            return if negative {
                i32::MIN
            } else {
                i32::MAX
            };
        }
        if exponent >= 150 {
            // A whole number: the mantissa with zeros behind it.
            let mut whole: u64 = mantissa;
            let mut i: u32 = 0;
            while i < exponent - 150
                invariant
                    150 <= exponent < 158,
                    i <= exponent - 150,
                    mantissa < 0x100_0000,
                    whole == mantissa * pow2(i as nat),
                    whole < 0x100_0000 * pow2(i as nat),
                decreases exponent - 150 - i,
            {
                proof {
                    lemma2_to64();
                    lemma_pow2_unfold((i + 1) as nat);
                    lemma_pow2_pos(i as nat);
                    lemma_pow2_strictly_increases(i as nat, 7);
                    assert(mantissa * (2 * pow2(i as nat)) == 2 * (mantissa * pow2(i as nat)))
                        by (nonlinear_arith);
                    assert(whole < 0x100_0000 * 128) by (nonlinear_arith)
                        requires
                            whole < 0x100_0000 * pow2(i as nat),
                            pow2(i as nat) <= 128,
                    ;
                }
                whole = whole * 2;
                i = i + 1;
            }
            proof {
                let zeros = (exponent - 150) as nat;
                lemma_pow2_adds(zeros, 149);
                if zeros < 7 {
                    lemma_pow2_strictly_increases(zeros, 7);
                }
                assert(size == whole * unit) by (nonlinear_arith)
                    requires
                        size == mantissa * scale,
                        scale == pow2(zeros) * unit,
                        whole == mantissa * pow2(zeros),
                ;
                assert(whole < 0x8000_0000) by (nonlinear_arith)
                    requires
                        whole < 0x100_0000 * pow2(zeros),
                        pow2(zeros) <= 128,
                ;
                if negative {
                    assert(-size == (-whole) * unit + 0) by (nonlinear_arith)
                        requires
                            size == whole * unit,
                    ;
                    lemma_fundamental_div_mod_converse(-size, unit, -(whole as int), 0);
                } else {
                    lemma_fundamental_div_mod_converse(size, unit, whole as int, 0);
                }
            }
            return if negative {
                -(whole as i32)
            } else {
                whole as i32
            };
        }
        // A number with a fraction: the mantissa without its last bits.
        let shift: u32 = 150 - exponent;
        let (whole, exact) = shift_down(mantissa, shift);
        proof {
            let step = pow2(shift as nat) as int;
            let rest = mantissa as int % step;
            lemma_pow2_pos(shift as nat);
            lemma_pow2_adds(shift as nat, (exponent - 1) as nat);
            assert(unit == step * scale);
            vstd::arithmetic::div_mod::lemma_fundamental_div_mod(mantissa as int, step);
            assert(0 <= rest < step);
            assert(whole <= mantissa) by (nonlinear_arith)
                requires
                    mantissa == step * whole + rest,
                    rest >= 0,
                    step >= 1,
                    whole >= 0,
            ;
            let left = rest * scale;
            assert(size == whole * unit + left && 0 <= left < unit) by (nonlinear_arith)
                requires
                    size == mantissa * scale,
                    mantissa == step * whole + rest,
                    unit == step * scale,
                    0 <= rest < step,
                    scale > 0,
                    left == rest * scale,
            ;
            assert(left == 0 <==> rest == 0) by (nonlinear_arith)
                requires
                    left == rest * scale,
                    scale > 0,
                    rest >= 0,
            ;
            if negative {
                if exact {
                    assert(-size == (-whole) * unit + 0) by (nonlinear_arith)
                        requires
                            size == whole * unit + left,
                            left == 0,
                    ;
                    lemma_fundamental_div_mod_converse(-size, unit, -(whole as int), 0);
                } else {
                    assert(-size == (-whole - 1) * unit + (unit - left)) by (nonlinear_arith)
                        requires
                            size == whole * unit + left,
                    ;
                    lemma_fundamental_div_mod_converse(
                        -size,
                        unit,
                        -(whole as int) - 1,
                        unit - left,
                    );
                }
            } else {
                lemma_fundamental_div_mod_converse(size, unit, whole as int, left);
            }
        }
        if !negative {
            whole as i32
        } else if exact {
            -(whole as i32)
        } else {
            -(whole as i32) - 1
        }
    }
}

/// `n` without its last `shift` bits, and whether those bits were all zero:
/// the quotient of `n` by `2^shift`, and whether it leaves no remainder.
pub fn shift_down(n: u64, shift: u32) -> (result: (u64, bool))
    ensures
        result.0 == n as int / pow2(shift as nat) as int,
        result.1 == (n as int % pow2(shift as nat) as int == 0),
{
    let mut units: u64 = n;
    let mut exact: bool = true;
    let mut i: u32 = 0;
    let ghost mut rest: int = 0;
    proof {
        lemma2_to64();
    }
    while i < shift && units > 0
        invariant
            i <= shift,
            n == units * pow2(i as nat) + rest,
            0 <= rest < pow2(i as nat),
            exact == (rest == 0),
        decreases shift - i,
    {
        let bit: u64 = units % 2;
        proof {
            let step = pow2(i as nat) as int;
            lemma_pow2_pos(i as nat);
            lemma_pow2_unfold((i + 1) as nat);
            let half = units as int / 2;
            assert(n == half * (2 * step) + (rest + bit * step)) by (nonlinear_arith)
                requires
                    n == units * step + rest,
                    units == 2 * half + bit,
            ;
            assert(0 <= rest + bit * step < 2 * step) by (nonlinear_arith)
                requires
                    0 <= rest < step,
                    0 <= bit <= 1,
            ;
            assert(rest + bit * step == 0 <==> rest == 0 && bit == 0) by (nonlinear_arith)
                requires
                    0 <= rest,
                    0 <= bit,
                    step > 0,
            ;
            rest = rest + bit * step;
        }
        exact = exact && bit == 0;
        units = units / 2;
        i = i + 1;
    }
    proof {
        if i < shift {
            lemma_pow2_strictly_increases(i as nat, shift as nat);
            assert(units * pow2(shift as nat) == 0) by (nonlinear_arith)
                requires
                    units == 0,
            ;
        }
        lemma_pow2_pos(shift as nat);
        lemma_fundamental_div_mod_converse(
            n as int,
            pow2(shift as nat) as int,
            units as int,
            rest,
        );
    }
    (units, exact)
}

/// Three numbers, one along each axis: a point, a direction, or a corner
/// of a box.
#[derive(Clone, Copy, Debug, PartialEq, Eq, Structural)]
pub struct Vec3 {
    pub x: Scalar,
    pub y: Scalar,
    pub z: Scalar,
}

impl Vec3 {
    /// The coordinate along `axis`.
    pub open spec fn at(self, axis: int) -> Scalar {
        if axis == 0 {
            self.x
        } else if axis == 1 {
            self.y
        } else {
            self.z
        }
    }

    /// Whether every coordinate is a number.
    pub open spec fn is_numeric(self) -> bool {
        !self.x.is_nan() && !self.y.is_nan() && !self.z.is_nan()
    }

    /// The smaller coordinate along each axis.
    pub open spec fn lesser(self, other: Vec3) -> Vec3 {
        Vec3 {
            x: self.x.lesser(other.x),
            y: self.y.lesser(other.y),
            z: self.z.lesser(other.z),
        }
    }

    /// The larger coordinate along each axis.
    pub open spec fn greater(self, other: Vec3) -> Vec3 {
        Vec3 {
            x: self.x.greater(other.x),
            y: self.y.greater(other.y),
            z: self.z.greater(other.z),
        }
    }

    /// The opposite direction.
    pub open spec fn negation(self) -> Vec3 {
        Vec3 { x: self.x.negation(), y: self.y.negation(), z: self.z.negation() }
    }

    /// Returns the opposite direction.
    pub fn negated(self) -> (opposite: Self)
        ensures
            opposite == self.negation(),
    {
        Vec3 { x: self.x.negated(), y: self.y.negated(), z: self.z.negated() }
    }

    /// The triple with the given coordinates.
    pub fn new(x: Scalar, y: Scalar, z: Scalar) -> (triple: Self)
        ensures
            triple == (Vec3 { x, y, z }),
    {
        Vec3 { x, y, z }
    }

    /// Returns the coordinate along `axis`.
    pub fn get(&self, axis: usize) -> (coordinate: Scalar)
        requires
            axis < 3,
        ensures
            coordinate == self.at(axis as int),
    {
        if axis == 0 {
            self.x
        } else if axis == 1 {
            self.y
        } else {
            self.z
        }
    }
}

/// A larger magnitude encodes a larger number.
pub proof fn lemma_magnitudes_increase(small: int, large: int)
    requires
        0 <= small < large <= INFINITY_BITS,
    ensures
        0 <= scaled_magnitude(small) < scaled_magnitude(large),
{
    let e1 = small / 0x80_0000;
    let f1 = small % 0x80_0000;
    let e2 = large / 0x80_0000;
    let f2 = large % 0x80_0000;
    assert(e1 <= e2);
    if e1 == e2 {
        assert(f1 < f2);
        if e1 > 0 {
            let p = pow2((e1 - 1) as nat) as int;
            lemma_pow2_pos((e1 - 1) as nat);
            assert((0x80_0000 + f1) * p < (0x80_0000 + f2) * p) by (nonlinear_arith)
                requires
                    0 <= f1 < f2,
                    p > 0,
            ;
            assert(0 <= (0x80_0000 + f1) * p) by (nonlinear_arith)
                requires
                    0 <= f1,
                    p > 0,
            ;
        }
    } else {
        // The smaller exponent ends before the larger one begins.
        let q = pow2((e2 - 1) as nat) as int;
        lemma_pow2_pos((e2 - 1) as nat);
        assert(0x80_0000 * q <= (0x80_0000 + f2) * q) by (nonlinear_arith)
            requires
                0 <= f2,
                q > 0,
        ;
        if e1 == 0 {
            assert(0x80_0000 * 1 <= 0x80_0000 * q) by (nonlinear_arith)
                requires
                    q >= 1,
            ;
        } else {
            let p = pow2((e1 - 1) as nat) as int;
            lemma_pow2_pos((e1 - 1) as nat);
            lemma_pow2_unfold(e1 as nat);
            if e1 < e2 - 1 {
                lemma_pow2_strictly_increases(e1 as nat, (e2 - 1) as nat);
            }
            assert(2 * p <= q);
            assert((0x80_0000 + f1) * p < 0x80_0000 * (2 * p)) by (nonlinear_arith)
                requires
                    0 <= f1 < 0x80_0000,
                    p > 0,
            ;
            assert(0x80_0000 * (2 * p) <= 0x80_0000 * q) by (nonlinear_arith)
                requires
                    2 * p <= q,
            ;
            assert(0 <= (0x80_0000 + f1) * p) by (nonlinear_arith)
                requires
                    0 <= f1,
                    p > 0,
            ;
        }
    }
}

/// Keys compare as the encoded numbers do: a smaller number has a smaller
/// key, and equal numbers, the two zeros among them, have equal keys.
pub proof fn lemma_keys_order(a: Scalar, b: Scalar)
    requires
        !a.is_nan(),
        !b.is_nan(),
    ensures
        a.key() < b.key() <==> a.value() < b.value(),
        a.key() == b.key() <==> a.value() == b.value(),
{
    let ma = a.magnitude();
    let mb = b.magnitude();
    assert(scaled_magnitude(0) == 0);
    if ma > 0 {
        lemma_magnitudes_increase(0, ma);
    }
    if mb > 0 {
        lemma_magnitudes_increase(0, mb);
    }
    if ma < mb {
        lemma_magnitudes_increase(ma, mb);
    } else if mb < ma {
        lemma_magnitudes_increase(mb, ma);
    }
}

/// The smaller of two numbers is one of them and no larger than either;
/// the larger is one of them and no smaller than either.
pub proof fn lemma_lesser_and_greater(a: Scalar, b: Scalar)
    requires
        !a.is_nan(),
        !b.is_nan(),
    ensures
        a.lesser(b) == a || a.lesser(b) == b,
        a.greater(b) == a || a.greater(b) == b,
        a.lesser(b).value() <= a.value() && a.lesser(b).value() <= b.value(),
        a.greater(b).value() >= a.value() && a.greater(b).value() >= b.value(),
        a.lesser(b).value() == b.lesser(a).value(),
        a.greater(b).value() == b.greater(a).value(),
        !a.lesser(b).is_nan() && !a.greater(b).is_nan(),
{
}

/// Changing the sign twice gives the number back, and changing it once
/// gives the opposite number: what was below zero lies above, as far from it.
pub proof fn lemma_negation(a: Scalar)
    ensures
        a.negation().negation() == a,
        a.negation().is_nan() == a.is_nan(),
        a.negation().value() == -a.value(),
        a.negation().magnitude() == a.magnitude(),
{
}

/// Doubling is exact: twice a number whose double the encoding holds has
/// twice its value, and the double of any other number is infinity.
pub proof fn lemma_double(a: Scalar)
    requires
        !a.is_nan(),
    ensures
        !a.double().is_nan(),
        a.double().is_negative() == a.is_negative(),
        a.magnitude() < 0x7f00_0000 ==> a.double().value() == 2 * a.value(),
        a.magnitude() >= 0x7f00_0000 ==> a.double().magnitude() == INFINITY_BITS,
{
    let m = a.magnitude();
    let d = a.double();
    if m < 0x80_0000 {
        // Without an exponent: the fraction doubles, and where it reaches
        // the hidden bit the exponent becomes one, which scales by one.
        lemma2_to64();
        assert(d.magnitude() == 2 * m);
        assert(scaled_magnitude(m) == m);
        if 2 * m >= 0x80_0000 {
            let kept = 0x80_0000 + (2 * m) % 0x80_0000;
            assert(kept == 2 * m);
            assert(kept * pow2(0) == kept) by (nonlinear_arith)
                requires
                    pow2(0) == 1,
            ;
            assert(scaled_magnitude(2 * m) == 2 * m);
        } else {
            assert(scaled_magnitude(2 * m) == 2 * m);
        }
    } else if m < 0x7f00_0000 {
        let exponent = m / 0x80_0000;
        let fraction = m % 0x80_0000;
        let below = pow2((exponent - 1) as nat) as int;
        lemma_pow2_unfold(exponent as nat);
        assert(d.magnitude() == m + 0x80_0000);
        assert((m + 0x80_0000) / 0x80_0000 == exponent + 1);
        assert((m + 0x80_0000) % 0x80_0000 == fraction);
        assert(scaled_magnitude(m) == (0x80_0000 + fraction) * below);
        assert(scaled_magnitude(m + 0x80_0000) == (0x80_0000 + fraction) * pow2(exponent as nat));
        assert((0x80_0000 + fraction) * (2 * below) == 2 * ((0x80_0000 + fraction) * below))
            by (nonlinear_arith);
    }
}

/// Every number lies between the two infinities, so that positive infinity
/// gives way to it as the smaller and negative infinity as the larger.
pub proof fn lemma_infinities(a: Scalar)
    requires
        !a.is_nan(),
    ensures
        (Scalar { bits: 0xff80_0000 }).value() <= a.value() <= (Scalar { bits: INFINITY_BITS }).value(),
        (Scalar { bits: INFINITY_BITS }).lesser(a).value() == a.value(),
        (Scalar { bits: 0xff80_0000 }).greater(a).value() == a.value(),
        !(Scalar { bits: INFINITY_BITS }).lesser(a).is_nan(),
        !(Scalar { bits: 0xff80_0000 }).greater(a).is_nan(),
{
    if a.magnitude() < INFINITY_BITS {
        lemma_magnitudes_increase(a.magnitude(), INFINITY_BITS as int);
    }
    if a.magnitude() > 0 {
        lemma_magnitudes_increase(0, a.magnitude());
    }
}

/// A sanitised sample is a finite number or negative infinity, and a sample
/// that is one already stays as it is.
pub proof fn lemma_sanitised_is_a_number(sample: Scalar)
    ensures
        !sample.sanitised().is_nan(),
        sample.sanitised().bits != INFINITY_BITS,
        sample.sanitised().sanitised() == sample.sanitised(),
        !sample.is_nan() && sample.bits != INFINITY_BITS ==> sample.sanitised() == sample,
{
}

} // verus!

//! Binary floating-point numbers held as their bit patterns.
//!
//! A [`Scalar`] is an IEEE 754 binary32 number and a [`Wide`] a binary64
//! number. What can be decided on the pattern alone is decided here: whether a
//! number is finite, how two numbers compare, what clamping gives. Rounded
//! arithmetic comes from the host, through [`crate::arithmetic::Arithmetic`].

use vstd::arithmetic::power2::pow2;
use vstd::prelude::*;

verus! {

/// The sign bit of a binary32 pattern.
pub const SIGN_BIT: u32 = 0x8000_0000;

/// The pattern of positive infinity; larger magnitudes are NaN.
pub const INFINITY_BITS: u32 = 0x7f80_0000;

/// The pattern of `1`.
pub const ONE_BITS: u32 = 0x3f80_0000;

/// The pattern of `4`.
pub const FOUR_BITS: u32 = 0x4080_0000;

/// The pattern of `1/2`.
pub const HALF_BITS: u32 = 0x3f00_0000;

/// The sign bit of a binary64 pattern.
pub const WIDE_SIGN_BIT: u64 = 0x8000_0000_0000_0000;

/// The binary64 pattern of positive infinity; larger magnitudes are NaN.
pub const WIDE_INFINITY_BITS: u64 = 0x7ff0_0000_0000_0000;

/// The binary64 pattern of `1`.
pub const WIDE_ONE_BITS: u64 = 0x3ff0_0000_0000_0000;

/// A binary32 number, as its bit pattern. Two of them are equal as numbers: the
/// zeros of both signs are, and NaN equals nothing.
#[derive(Clone, Copy, Debug)]
pub struct Scalar {
    pub bits: u32,
}

/// A binary64 number, as its bit pattern. Equality is that of numbers, as for
/// [`Scalar`].
#[derive(Clone, Copy, Debug)]
pub struct Wide {
    pub bits: u64,
}

impl PartialEq for Scalar {
    fn eq(&self, other: &Self) -> (r: bool) {
        !self.is_nan() && !other.is_nan() && self.rank() == other.rank()
    }
}

impl vstd::std_specs::cmp::PartialEqSpecImpl for Scalar {
    open spec fn obeys_eq_spec() -> bool {
        true
    }

    open spec fn eq_spec(&self, other: &Self) -> bool {
        !self.nan() && !other.nan() && self.ordinal() == other.ordinal()
    }
}

impl PartialEq for Wide {
    fn eq(&self, other: &Self) -> (r: bool) {
        !self.is_nan() && !other.is_nan() && self.rank() == other.rank()
    }
}

impl vstd::std_specs::cmp::PartialEqSpecImpl for Wide {
    open spec fn obeys_eq_spec() -> bool {
        true
    }

    open spec fn eq_spec(&self, other: &Self) -> bool {
        !self.nan() && !other.nan() && self.ordinal() == other.ordinal()
    }
}

/// The number with the given pattern.
pub open spec fn scalar(bits: u32) -> Scalar {
    Scalar { bits }
}

/// The wide number with the given pattern.
pub open spec fn wide(bits: u64) -> Wide {
    Wide { bits }
}

impl Scalar {
    /// The number with the given bit pattern.
    pub fn from_bits(bits: u32) -> (r: Scalar)
        ensures
            r == scalar(bits),
    {
        Scalar { bits }
    }

    /// Whether the sign bit is set.
    pub open spec fn negative(self) -> bool {
        self.bits >= SIGN_BIT
    }

    /// The pattern without its sign bit.
    pub open spec fn magnitude(self) -> int {
        if self.negative() {
            self.bits - SIGN_BIT
        } else {
            self.bits as int
        }
    }

    /// Neither infinite nor NaN.
    pub open spec fn finite(self) -> bool {
        self.magnitude() < INFINITY_BITS
    }

    /// Not a number.
    pub open spec fn nan(self) -> bool {
        self.magnitude() > INFINITY_BITS
    }

    /// Position on the number line: among numbers that are not NaN, `a` is
    /// below `b` exactly when its ordinal is smaller. The two zeros share one.
    pub open spec fn ordinal(self) -> int {
        if self.negative() {
            -self.magnitude()
        } else {
            self.magnitude()
        }
    }

    /// `self < other` as numbers; false where either is NaN.
    pub open spec fn below(self, other: Scalar) -> bool {
        &&& !self.nan()
        &&& !other.nan()
        &&& self.ordinal() < other.ordinal()
    }

    /// A number at least zero: a negative zero and infinity included, NaN not.
    pub open spec fn nonnegative(self) -> bool {
        !self.nan() && self.ordinal() >= 0
    }

    /// Finite and at least one.
    pub open spec fn finite_from_one(self) -> bool {
        self.finite() && self.ordinal() >= ONE_BITS
    }

    /// Finite and at least zero (a negative zero included).
    pub open spec fn finite_nonnegative(self) -> bool {
        self.finite() && self.ordinal() >= 0
    }

    /// In the closed interval from `-1` to `1`.
    pub open spec fn unit_bounded(self) -> bool {
        self.magnitude() <= ONE_BITS
    }

    /// The number with its sign flipped.
    pub open spec fn negated(self) -> Scalar {
        if self.negative() {
            scalar((self.bits - SIGN_BIT) as u32)
        } else {
            scalar((self.bits + SIGN_BIT) as u32)
        }
    }

    /// The larger of two numbers; where one is NaN, the other.
    pub open spec fn larger(self, other: Scalar) -> Scalar {
        if self.nan() || self.below(other) {
            other
        } else {
            self
        }
    }

    /// `self` moved into the closed interval from `0` to `1`; NaN stays NaN.
    pub open spec fn clamped_to_unit(self) -> Scalar {
        if self.below(scalar(0)) {
            scalar(0)
        } else if scalar(ONE_BITS).below(self) {
            scalar(ONE_BITS)
        } else {
            self
        }
    }

    /// Whether the number is neither infinite nor NaN.
    pub fn is_finite(self) -> (r: bool)
        ensures
            r == self.finite(),
    {
        if self.bits >= SIGN_BIT {
            self.bits - SIGN_BIT < INFINITY_BITS
        } else {
            self.bits < INFINITY_BITS
        }
    }

    /// Whether the number is NaN.
    pub fn is_nan(self) -> (r: bool)
        ensures
            r == self.nan(),
    {
        if self.bits >= SIGN_BIT {
            self.bits - SIGN_BIT > INFINITY_BITS
        } else {
            self.bits > INFINITY_BITS
        }
    }

    /// The position on the number line.
    pub fn rank(self) -> (r: i64)
        ensures
            r == self.ordinal(),
    {
        if self.bits >= SIGN_BIT {
            -((self.bits - SIGN_BIT) as i64)
        } else {
            self.bits as i64
        }
    }

    /// `self < other` as numbers.
    pub fn is_below(self, other: Scalar) -> (r: bool)
        ensures
            r == self.below(other),
    {
        !self.is_nan() && !other.is_nan() && self.rank() < other.rank()
    }

    /// The number with its sign flipped.
    pub fn negate(self) -> (r: Scalar)
        ensures
            r == self.negated(),
    {
        if self.bits >= SIGN_BIT {
            Scalar { bits: self.bits - SIGN_BIT }
        } else {
            Scalar { bits: self.bits + SIGN_BIT }
        }
    }

    /// The larger of two numbers; where one is NaN, the other.
    pub fn max(self, other: Scalar) -> (r: Scalar)
        ensures
            r == self.larger(other),
    {
        if self.is_nan() || self.is_below(other) {
            other
        } else {
            self
        }
    }

    /// `self` moved into the closed interval from `0` to `1`.
    pub fn clamp_to_unit(self) -> (r: Scalar)
        ensures
            r == self.clamped_to_unit(),
    {
        let zero = Scalar { bits: 0 };
        let one = Scalar { bits: ONE_BITS };
        if self.is_below(zero) {
            zero
        } else if one.is_below(self) {
            one
        } else {
            self
        }
    }
}

/// The value of a non-negative finite binary64 pattern, in units of the
/// smallest subnormal: `2^-1074`.
pub open spec fn wide_value(bits: u64) -> nat {
    let exponent = (bits / 0x10_0000_0000_0000) as nat;
    let fraction = (bits % 0x10_0000_0000_0000) as nat;
    if exponent == 0 {
        fraction
    } else {
        (0x10_0000_0000_0000 + fraction) * pow2((exponent - 1) as nat)
    }
}

impl Wide {
    /// The wide number with the given bit pattern.
    pub fn from_bits(bits: u64) -> (r: Wide)
        ensures
            r == wide(bits),
    {
        Wide { bits }
    }

    /// Whether the sign bit is set.
    pub open spec fn negative(self) -> bool {
        self.bits >= WIDE_SIGN_BIT
    }

    /// The pattern without its sign bit.
    pub open spec fn magnitude(self) -> int {
        if self.negative() {
            self.bits - WIDE_SIGN_BIT
        } else {
            self.bits as int
        }
    }

    /// Neither infinite nor NaN.
    pub open spec fn finite(self) -> bool {
        self.magnitude() < WIDE_INFINITY_BITS
    }

    /// Not a number.
    pub open spec fn nan(self) -> bool {
        self.magnitude() > WIDE_INFINITY_BITS
    }

    /// Equal to zero, of either sign.
    pub open spec fn zero(self) -> bool {
        self.magnitude() == 0
    }

    /// Finite and above zero.
    pub open spec fn finite_positive(self) -> bool {
        0 < self.bits < WIDE_INFINITY_BITS
    }

    /// A number at least zero: a negative zero and infinity included, NaN not.
    pub open spec fn nonnegative(self) -> bool {
        !self.nan() && self.ordinal() >= 0
    }

    /// Position on the number line, as [`Scalar::ordinal`].
    pub open spec fn ordinal(self) -> int {
        if self.negative() {
            -self.magnitude()
        } else {
            self.magnitude()
        }
    }

    /// `self < other` as numbers; false where either is NaN.
    pub open spec fn below(self, other: Wide) -> bool {
        &&& !self.nan()
        &&& !other.nan()
        &&& self.ordinal() < other.ordinal()
    }

    /// `self` moved into the closed interval from `0` to `1`; NaN stays NaN.
    pub open spec fn clamped_to_unit(self) -> Wide {
        if self.below(wide(0)) {
            wide(0)
        } else if wide(WIDE_ONE_BITS).below(self) {
            wide(WIDE_ONE_BITS)
        } else {
            self
        }
    }

    /// Whether the number is NaN.
    pub fn is_nan(self) -> (r: bool)
        ensures
            r == self.nan(),
    {
        if self.bits >= WIDE_SIGN_BIT {
            self.bits - WIDE_SIGN_BIT > WIDE_INFINITY_BITS
        } else {
            self.bits > WIDE_INFINITY_BITS
        }
    }

    /// Whether the number is zero, of either sign.
    pub fn is_zero(self) -> (r: bool)
        ensures
            r == self.zero(),
    {
        self.bits == 0 || self.bits == WIDE_SIGN_BIT
    }

    /// Whether the number is finite and above zero.
    pub fn is_finite_positive(self) -> (r: bool)
        ensures
            r == self.finite_positive(),
    {
        0 < self.bits && self.bits < WIDE_INFINITY_BITS
    }

    /// The position on the number line.
    pub fn rank(self) -> (r: i64)
        ensures
            r == self.ordinal(),
    {
        if self.bits >= WIDE_SIGN_BIT {
            -((self.bits - WIDE_SIGN_BIT) as i64)
        } else {
            self.bits as i64
        }
    }

    /// `self < other` as numbers.
    pub fn is_below(self, other: Wide) -> (r: bool)
        ensures
            r == self.below(other),
    {
        !self.is_nan() && !other.is_nan() && self.rank() < other.rank()
    }

    /// `self` moved into the closed interval from `0` to `1`.
    pub fn clamp_to_unit(self) -> (r: Wide)
        ensures
            r == self.clamped_to_unit(),
    {
        let zero = Wide { bits: 0 };
        let one = Wide { bits: WIDE_ONE_BITS };
        if self.is_below(zero) {
            zero
        } else if one.is_below(self) {
            one
        } else {
            self
        }
    }
}

/// The value of a finite binary32 magnitude, in units of the smallest
/// subnormal: `2^-149`.
pub open spec fn magnitude_value(magnitude: nat) -> nat {
    let exponent = magnitude / 0x80_0000;
    let fraction = magnitude % 0x80_0000;
    if exponent == 0 {
        fraction
    } else {
        (0x80_0000 + fraction) * pow2((exponent - 1) as nat)
    }
}

impl Scalar {
    /// The value of a finite number, in units of `2^-149`.
    pub open spec fn value(self) -> int {
        if self.bits >= 0x8000_0000 {
            -(magnitude_value((self.bits - 0x8000_0000) as nat) as int)
        } else {
            magnitude_value(self.bits as nat) as int
        }
    }
}

impl Wide {
    /// The value of a finite number, in units of `2^-1074`.
    pub open spec fn value(self) -> int {
        if self.bits >= 0x8000_0000_0000_0000 {
            -(wide_value((self.bits - 0x8000_0000_0000_0000) as u64) as int)
        } else {
            wide_value(self.bits) as int
        }
    }
}

/// The next magnitude has a larger value.
proof fn lemma_next_magnitude(m: nat)
    ensures
        magnitude_value(m) < magnitude_value(m + 1),
{
    let unit = 0x80_0000nat;
    let exponent = m / unit;
    let fraction = m % unit;
    if exponent > 0 {
        vstd::arithmetic::power2::lemma_pow2_pos((exponent - 1) as nat);
    }
    if fraction + 1 < unit {
        assert((m + 1) / unit == exponent && (m + 1) % unit == fraction + 1);
        if exponent > 0 {
            let p = pow2((exponent - 1) as nat);
            assert((unit + fraction) * p < (unit + (fraction + 1)) * p) by (nonlinear_arith)
                requires
                    p > 0,
            ;
            assert(magnitude_value(m + 1) == (unit + (fraction + 1)) * p);
        }
    } else {
        assert((m + 1) / unit == exponent + 1 && (m + 1) % unit == 0);
        vstd::arithmetic::power2::lemma2_to64();
        if exponent == 0 {
            assert(magnitude_value(m + 1) == unit * pow2(0));
        } else {
            let p = pow2((exponent - 1) as nat);
            vstd::arithmetic::power2::lemma_pow2_unfold(exponent);
            assert((unit + fraction) * p < unit * (2 * p)) by (nonlinear_arith)
                requires
                    p > 0,
                    fraction < unit,
            ;
            assert(magnitude_value(m + 1) == unit * (2 * p));
        }
    }
}

/// A larger magnitude has a larger value.
proof fn lemma_magnitude_order(a: nat, b: nat)
    requires
        a < b,
    ensures
        magnitude_value(a) < magnitude_value(b),
    decreases b - a,
{
    lemma_next_magnitude(a);
    if a + 1 < b {
        lemma_magnitude_order(a + 1, b);
    }
}

/// The next wide magnitude has a larger value.
proof fn lemma_next_wide(m: u64)
    requires
        m < u64::MAX,
    ensures
        wide_value(m) < wide_value((m + 1) as u64),
{
    let unit = 0x10_0000_0000_0000u64;
    let exponent = (m / unit) as nat;
    let fraction = (m % unit) as nat;
    let n = (m + 1) as u64;
    if exponent > 0 {
        vstd::arithmetic::power2::lemma_pow2_pos((exponent - 1) as nat);
    }
    if fraction + 1 < unit {
        assert(n / unit == exponent && n % unit == fraction + 1);
        if exponent > 0 {
            let p = pow2((exponent - 1) as nat);
            assert((0x10_0000_0000_0000 + fraction) * p < (0x10_0000_0000_0000 + (fraction + 1)) * p)
                by (nonlinear_arith)
                requires
                    p > 0,
            ;
            assert(wide_value(n) == (0x10_0000_0000_0000 + (fraction + 1)) * p);
        }
    } else {
        assert(n / unit == exponent + 1 && n % unit == 0);
        vstd::arithmetic::power2::lemma2_to64();
        if exponent == 0 {
            assert(wide_value(n) == 0x10_0000_0000_0000 * pow2(0));
        } else {
            let p = pow2((exponent - 1) as nat);
            vstd::arithmetic::power2::lemma_pow2_unfold(exponent);
            assert((0x10_0000_0000_0000 + fraction) * p < 0x10_0000_0000_0000 * (2 * p))
                by (nonlinear_arith)
                requires
                    p > 0,
                    fraction < 0x10_0000_0000_0000,
            ;
            assert(wide_value(n) == 0x10_0000_0000_0000 * (2 * p));
        }
    }
}

/// A larger wide magnitude has a larger value.
proof fn lemma_wide_order(a: u64, b: u64)
    requires
        a < b,
    ensures
        wide_value(a) < wide_value(b),
    decreases b - a,
{
    lemma_next_wide(a);
    if a + 1 < b {
        lemma_wide_order((a + 1) as u64, b);
    }
}

/// A pattern is a sign bit, eight bits of exponent and a fraction. With all bits
/// of the exponent set it is an infinity where the fraction is zero and NaN
/// where it is not; any other pattern is finite.
pub proof fn law_fields(a: Scalar)
    ensures
        a.negative() <==> a.bits / 0x8000_0000 == 1,
        a.finite() <==> (a.bits / 0x80_0000) % 256 != 255,
        a.nan() <==> (a.bits / 0x80_0000) % 256 == 255 && a.bits % 0x80_0000 != 0,
{
}

/// The same of wide patterns, with eleven bits of exponent.
pub proof fn law_wide_fields(a: Wide)
    ensures
        a.negative() <==> a.bits / 0x8000_0000_0000_0000 == 1,
        a.finite() <==> (a.bits / 0x10_0000_0000_0000) % 2048 != 2047,
        a.nan() <==> (a.bits / 0x10_0000_0000_0000) % 2048 == 2047 && a.bits
            % 0x10_0000_0000_0000 != 0,
        a.zero() <==> a.bits % 0x8000_0000_0000_0000 == 0,
{
}

/// Finite numbers are in order as their values are; an infinity is beyond them
/// all, and NaN is in no order.
pub proof fn law_order_is_numeric(a: Scalar, b: Scalar)
    ensures
        a.finite() && b.finite() ==> (a.below(b) <==> a.value() < b.value()),
        a.finite() && b.bits == 0x7f80_0000 ==> a.below(b) && !b.below(a),
        a.finite() && b.bits == 0xff80_0000 ==> b.below(a) && !a.below(b),
        a.nan() || b.nan() ==> !a.below(b),
{
    let zero = magnitude_value(0);
    let ma = a.magnitude() as nat;
    let mb = b.magnitude() as nat;
    if 0 < ma {
        lemma_magnitude_order(0, ma);
    }
    if 0 < mb {
        lemma_magnitude_order(0, mb);
    }
    if ma < mb {
        lemma_magnitude_order(ma, mb);
    } else if mb < ma {
        lemma_magnitude_order(mb, ma);
    }
}

/// The same of wide numbers.
pub proof fn law_wide_order_is_numeric(a: Wide, b: Wide)
    ensures
        a.finite() && b.finite() ==> (a.below(b) <==> a.value() < b.value()),
        a.finite() && b.bits == 0x7ff0_0000_0000_0000 ==> a.below(b) && !b.below(a),
        a.finite() && b.bits == 0xfff0_0000_0000_0000 ==> b.below(a) && !a.below(b),
        a.nan() || b.nan() ==> !a.below(b),
{
    let zero = wide_value(0);
    let ma = a.magnitude() as u64;
    let mb = b.magnitude() as u64;
    if 0 < ma {
        lemma_wide_order(0, ma);
    }
    if 0 < mb {
        lemma_wide_order(0, mb);
    }
    if ma < mb {
        lemma_wide_order(ma, mb);
    } else if mb < ma {
        lemma_wide_order(mb, ma);
    }
}

/// The named patterns have the values they are named after.
pub proof fn law_named_values()
    ensures
        scalar(0).value() == 0,
        scalar(ONE_BITS).value() == pow2(149),
        scalar(FOUR_BITS).value() == 4 * pow2(149),
        2 * scalar(HALF_BITS).value() == pow2(149),
        wide(0).value() == 0,
        wide(WIDE_ONE_BITS).value() == pow2(1074),
{
    vstd::arithmetic::power2::lemma2_to64();
    vstd::arithmetic::power2::lemma2_to64_rest();
    vstd::arithmetic::power2::lemma_pow2_adds(23, 126);
    vstd::arithmetic::power2::lemma_pow2_adds(23, 125);
    vstd::arithmetic::power2::lemma_pow2_adds(23, 128);
    vstd::arithmetic::power2::lemma_pow2_adds(149, 2);
    vstd::arithmetic::power2::lemma_pow2_adds(148, 1);
    vstd::arithmetic::power2::lemma_pow2_adds(52, 1022);
    assert(0x3f80_0000nat / 0x80_0000 == 127 && 0x3f80_0000nat % 0x80_0000 == 0);
    assert(0x4080_0000nat / 0x80_0000 == 129 && 0x4080_0000nat % 0x80_0000 == 0);
    assert(0x3f00_0000nat / 0x80_0000 == 126 && 0x3f00_0000nat % 0x80_0000 == 0);
    assert(pow2(149) == 0x80_0000 * pow2(126));
    assert(0x3ff0_0000_0000_0000u64 / 0x10_0000_0000_0000 == 1023);
    assert(0x3ff0_0000_0000_0000u64 % 0x10_0000_0000_0000 == 0);
    assert(pow2(1074) == 0x10_0000_0000_0000 * pow2(1022));
}

/// Negation flips the value; the larger of two numbers has the larger value,
/// and where one is NaN it is the other.
pub proof fn law_negation_and_maximum(a: Scalar, b: Scalar)
    ensures
        a.finite() ==> a.negated().finite() && a.negated().value() == -a.value(),
        a.bits < 0x8000_0000 ==> a.negated().bits == a.bits + 0x8000_0000,
        a.negated().negated() == a,
        a.larger(b) == a || a.larger(b) == b,
        a.finite() && b.finite() ==> a.larger(b).value() >= a.value() && a.larger(b).value()
            >= b.value(),
        !a.nan() || !b.nan() ==> !a.larger(b).nan(),
        !a.nan() && !b.nan() ==> !a.larger(b).below(a) && !a.larger(b).below(b),
{
    law_order_is_numeric(a, b);
    law_order_is_numeric(b, a);
}

/// Clamping moves a number into the interval from `0` to `1` and no further: one
/// inside stays, one below becomes zero and one above becomes one.
pub proof fn law_clamping(a: Scalar)
    requires
        !a.nan(),
    ensures
        a.clamped_to_unit().finite(),
        0 <= a.clamped_to_unit().value() <= pow2(149),
        a.finite() && 0 <= a.value() <= pow2(149) ==> a.clamped_to_unit() == a,
        a.negative() && (a.finite() ==> a.value() < 0) ==> a.clamped_to_unit().value() == 0,
        !a.negative() && (a.finite() ==> a.value() > pow2(149)) ==> a.clamped_to_unit().value()
            == pow2(149),
{
    law_named_values();
    law_order_is_numeric(a, scalar(0));
    law_order_is_numeric(scalar(ONE_BITS), a);
    if !a.finite() {
        law_order_is_numeric(scalar(0), a);
    }
}

/// The same of wide numbers.
pub proof fn law_wide_clamping(a: Wide)
    requires
        !a.nan(),
    ensures
        a.clamped_to_unit().finite(),
        0 <= a.clamped_to_unit().value() <= pow2(1074),
        a.finite() && 0 <= a.value() <= pow2(1074) ==> a.clamped_to_unit() == a,
        a.negative() && (a.finite() ==> a.value() < 0) ==> a.clamped_to_unit().value() == 0,
        !a.negative() && (a.finite() ==> a.value() > pow2(1074)) ==> a.clamped_to_unit().value()
            == pow2(1074),
{
    law_named_values();
    law_wide_order_is_numeric(a, wide(0));
    law_wide_order_is_numeric(wide(WIDE_ONE_BITS), a);
    if !a.finite() {
        law_wide_order_is_numeric(wide(0), a);
    }
}

/// What is bounded lies in the interval from `-1` to `1`, and what is finite and
/// not negative has such a value.
pub proof fn law_bounds_are_numeric(a: Scalar, b: Wide)
    ensures
        a.unit_bounded() <==> a.finite() && -pow2(149) <= a.value() <= pow2(149),
        a.finite_nonnegative() <==> a.finite() && a.value() >= 0,
        a.finite_from_one() <==> a.finite() && a.value() >= pow2(149),
        b.finite_positive() <==> b.finite() && b.value() > 0,
{
    law_named_values();
    let one = scalar(ONE_BITS);
    law_order_is_numeric(one, a);
    law_order_is_numeric(a, one);
    law_order_is_numeric(a, one.negated());
    law_negation_and_maximum(one, one);
    law_order_is_numeric(a, scalar(0));
    law_wide_order_is_numeric(wide(0), b);
    law_wide_order_is_numeric(b, wide(0));
}

/// Equality is that of values: of finite numbers, where they are the same; NaN
/// equals nothing.
pub proof fn law_equality_is_numeric(a: Scalar, b: Scalar)
    ensures
        a.finite() && b.finite() ==> (vstd::std_specs::cmp::PartialEqSpec::eq_spec(&a, &b)
            <==> a.value() == b.value()),
        a.nan() || b.nan() ==> !vstd::std_specs::cmp::PartialEqSpec::eq_spec(&a, &b),
        a.bits == b.bits && !a.nan() ==> vstd::std_specs::cmp::PartialEqSpec::eq_spec(&a, &b),
{
    law_order_is_numeric(a, b);
    law_order_is_numeric(b, a);
}

/// The same of wide numbers.
pub proof fn law_wide_equality_is_numeric(a: Wide, b: Wide)
    ensures
        a.finite() && b.finite() ==> (vstd::std_specs::cmp::PartialEqSpec::eq_spec(&a, &b)
            <==> a.value() == b.value()),
        a.nan() || b.nan() ==> !vstd::std_specs::cmp::PartialEqSpec::eq_spec(&a, &b),
        a.bits == b.bits && !a.nan() ==> vstd::std_specs::cmp::PartialEqSpec::eq_spec(&a, &b),
{
    law_wide_order_is_numeric(a, b);
    law_wide_order_is_numeric(b, a);
}

/// Clamping leaves NaN as it is.
pub proof fn law_clamping_keeps_nan(a: Scalar, b: Wide)
    ensures
        a.nan() ==> a.clamped_to_unit() == a,
        b.nan() ==> b.clamped_to_unit() == b,
{
}

} // verus!

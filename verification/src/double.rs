//! IEEE 754 numbers as bit patterns.
//!
//! Every field value, gain and limit travels through this crate as the pattern
//! of the number it stands for. What is decided about a number - whether it is
//! finite, which of two is larger, where it sorts, which single-precision
//! number it rounds to - is decided on the pattern, exactly.
use vstd::arithmetic::power2::*;
use vstd::bits::*;
use vstd::prelude::*;

verus! {

/// The pattern of positive infinity, in double precision.
pub const INFINITE: u64 = 0x7ff0_0000_0000_0000;

/// The sign bit of a double-precision pattern.
pub const SIGN: u64 = 0x8000_0000_0000_0000;

/// The pattern of positive infinity, in single precision.
pub const SINGLE_INFINITE: u32 = 0x7f80_0000;

/// The sign bit of a single-precision pattern.
pub const SINGLE_SIGN: u32 = 0x8000_0000;

/// A double-precision number, held as its bit pattern.
#[derive(Clone, Copy, Debug, PartialEq, Eq, Structural)]
pub struct Double {
    pub bits: u64,
}

/// A single-precision number, held as its bit pattern.
#[derive(Clone, Copy, Debug, PartialEq, Eq, Structural)]
pub struct Single {
    pub bits: u32,
}

/// What the magnitude pattern `pattern` counts, in units of `2^-1074`: the
/// fraction alone below the normal range, and the fraction behind its implied
/// leading one, shifted by the exponent, inside it.
pub open spec fn double_units(pattern: nat) -> nat {
    let exponent = pattern / 0x10_0000_0000_0000;
    let fraction = pattern % 0x10_0000_0000_0000;
    if exponent == 0 {
        fraction
    } else {
        (0x10_0000_0000_0000 + fraction) * pow2((exponent - 1) as nat)
    }
}

/// The single-precision counterpart of [`double_units`], in units of `2^-149`.
pub open spec fn single_units(pattern: nat) -> nat {
    let exponent = pattern / 0x80_0000;
    let fraction = pattern % 0x80_0000;
    if exponent == 0 {
        fraction
    } else {
        (0x80_0000 + fraction) * pow2((exponent - 1) as nat)
    }
}

/// How many units of `2^-1074` go into one of `2^-149`.
pub open spec fn units_per_single() -> nat {
    pow2(925)
}

/// That `result` is the single-precision magnitude nearest to `units` units of
/// `2^-1074`, with a tie going to the even pattern. The pattern of infinity
/// takes part as the number one step above the largest finite one.
pub open spec fn is_nearest_single(units: nat, result: nat) -> bool {
    let even = result % 2 == 0;
    let here = single_units(result) * units_per_single();
    &&& result <= SINGLE_INFINITE
    &&& result > 0 ==> {
        let below = single_units((result - 1) as nat) * units_per_single();
        below + here < 2 * units || (even && below + here == 2 * units)
    }
    &&& result < SINGLE_INFINITE ==> {
        let above = single_units(result + 1) * units_per_single();
        2 * units < here + above || (even && 2 * units == here + above)
    }
}

impl Double {
    /// The pattern without its sign bit.
    pub open spec fn magnitude(self) -> nat {
        if self.bits >= SIGN {
            (self.bits - SIGN) as nat
        } else {
            self.bits as nat
        }
    }

    pub open spec fn negative(self) -> bool {
        self.bits >= SIGN
    }

    pub open spec fn nan(self) -> bool {
        self.magnitude() > INFINITE
    }

    pub open spec fn finite(self) -> bool {
        self.magnitude() < INFINITE
    }

    /// The number itself, in units of `2^-1074`, of which every finite
    /// double-precision number is a whole count.
    pub open spec fn units(self) -> int {
        if self.negative() {
            -(double_units(self.magnitude()) as int)
        } else {
            double_units(self.magnitude()) as int
        }
    }

    /// Where the number stands among the numbers, with both zeros at 0.
    pub open spec fn rank(self) -> int {
        if self.negative() {
            -(self.magnitude() as int)
        } else {
            self.magnitude() as int
        }
    }

    /// Where the pattern stands in the total order: negative NaNs first, then
    /// the numbers in order with -0 below +0, then positive NaNs.
    pub open spec fn total_rank(self) -> int {
        if self.negative() {
            -(self.magnitude() as int) - 1
        } else {
            self.magnitude() as int
        }
    }

    /// `<` on numbers: never true of a NaN.
    pub open spec fn less(self, other: Double) -> bool {
        !self.nan() && !other.nan() && self.rank() < other.rank()
    }

    /// `<=` on numbers: never true of a NaN.
    pub open spec fn at_most(self, other: Double) -> bool {
        !self.nan() && !other.nan() && self.rank() <= other.rank()
    }

    /// `==` on numbers: never true of a NaN, true of the two zeros.
    pub open spec fn equals(self, other: Double) -> bool {
        !self.nan() && !other.nan() && self.rank() == other.rank()
    }

    /// The number with the opposite sign.
    pub open spec fn negated(self) -> Double {
        if self.bits >= SIGN {
            Double { bits: (self.bits - SIGN) as u64 }
        } else {
            Double { bits: (self.bits + SIGN) as u64 }
        }
    }

    /// The number held between `low` and `high`; a NaN passes through.
    pub open spec fn clamped(self, low: Double, high: Double) -> Double {
        if self.less(low) {
            low
        } else if high.less(self) {
            high
        } else {
            self
        }
    }

    /// That `result` is this number in single precision.
    pub open spec fn narrows_to(self, result: Single) -> bool {
        &&& result.negative() == self.negative()
        &&& self.nan() ==> result.nan()
        &&& !self.nan() ==> is_nearest_single(double_units(self.magnitude()), result.magnitude())
    }

    pub fn from_bits(bits: u64) -> (result: Double)
        ensures
            result.bits == bits,
    {
        Double { bits }
    }

    pub fn to_bits(self) -> (result: u64)
        ensures
            result == self.bits,
    {
        self.bits
    }

    /// Positive zero.
    pub fn zero() -> (result: Double)
        ensures
            result.bits == 0,
            result.finite(),
            result.rank() == 0,
    {
        Double { bits: 0 }
    }

    pub(crate) fn magnitude_bits(self) -> (result: u64)
        ensures
            result == self.magnitude(),
            result < SIGN,
    {
        if self.bits >= SIGN {
            self.bits - SIGN
        } else {
            self.bits
        }
    }

    pub fn is_nan(self) -> (result: bool)
        ensures
            result == self.nan(),
    {
        self.magnitude_bits() > INFINITE
    }

    pub fn is_finite(self) -> (result: bool)
        ensures
            result == self.finite(),
    {
        self.magnitude_bits() < INFINITE
    }

    pub fn lt(self, other: Double) -> (result: bool)
        ensures
            result == self.less(other),
    {
        if self.is_nan() || other.is_nan() {
            return false;
        }
        let left: u64 = self.magnitude_bits();
        let right: u64 = other.magnitude_bits();
        if self.bits >= SIGN {
            if other.bits >= SIGN {
                right < left
            } else {
                left != 0 || right != 0
            }
        } else if other.bits >= SIGN {
            false
        } else {
            left < right
        }
    }

    pub fn le(self, other: Double) -> (result: bool)
        ensures
            result == self.at_most(other),
    {
        !self.is_nan() && !other.is_nan() && !other.lt(self)
    }

    /// Numeric equality, in which the two zeros are one and a NaN is nothing.
    pub fn same(self, other: Double) -> (result: bool)
        ensures
            result == self.equals(other),
    {
        self.le(other) && other.le(self)
    }

    /// Whether `self` stands no later than `other` in the total order.
    pub fn total_le(self, other: Double) -> (result: bool)
        ensures
            result == (self.total_rank() <= other.total_rank()),
    {
        if self.bits >= SIGN {
            other.bits < SIGN || other.bits <= self.bits
        } else {
            other.bits < SIGN && self.bits <= other.bits
        }
    }

    pub fn neg(self) -> (result: Double)
        ensures
            result == self.negated(),
    {
        if self.bits >= SIGN {
            Double { bits: self.bits - SIGN }
        } else {
            Double { bits: self.bits + SIGN }
        }
    }

    /// The number without its sign.
    pub open spec fn absolute(self) -> Double {
        Double { bits: self.magnitude() as u64 }
    }

    pub fn abs(self) -> (result: Double)
        ensures
            result == self.absolute(),
    {
        Double { bits: self.magnitude_bits() }
    }

    /// The smaller of two numbers; a NaN gives way to the other side.
    pub fn min(self, other: Double) -> (result: Double)
        ensures
            result == (if self.nan() || other.less(self) {
                other
            } else {
                self
            }),
    {
        if self.is_nan() || other.lt(self) {
            other
        } else {
            self
        }
    }

    /// The larger of two numbers; a NaN gives way to the other side.
    pub fn max(self, other: Double) -> (result: Double)
        ensures
            result == (if self.nan() || self.less(other) {
                other
            } else {
                self
            }),
    {
        if self.is_nan() || self.lt(other) {
            other
        } else {
            self
        }
    }

    pub fn clamp(self, low: Double, high: Double) -> (result: Double)
        requires
            low.at_most(high),
        ensures
            result == self.clamped(low, high),
            !self.nan() ==> low.at_most(result) && result.at_most(high),
            self.nan() ==> result.nan(),
    {
        if self.lt(low) {
            low
        } else if high.lt(self) {
            high
        } else {
            self
        }
    }

    /// The single-precision number nearest to this one, with ties going to the
    /// even pattern; past the single-precision range it is an infinity, and a
    /// NaN stays a NaN.
    pub fn narrow(self) -> (result: Single)
        ensures
            self.narrows_to(result),
    {
        let magnitude: u64 = self.magnitude_bits();
        let narrowed: u32 = if magnitude > INFINITE {
            0x7fc0_0000
        } else {
            narrow_magnitude(magnitude)
        };
        if self.bits >= SIGN {
            Single { bits: narrowed + SINGLE_SIGN }
        } else {
            Single { bits: narrowed }
        }
    }
}

impl Single {
    /// The pattern without its sign bit.
    pub open spec fn magnitude(self) -> nat {
        if self.bits >= SINGLE_SIGN {
            (self.bits - SINGLE_SIGN) as nat
        } else {
            self.bits as nat
        }
    }

    pub open spec fn negative(self) -> bool {
        self.bits >= SINGLE_SIGN
    }

    pub open spec fn nan(self) -> bool {
        self.magnitude() > SINGLE_INFINITE
    }

    pub open spec fn finite(self) -> bool {
        self.magnitude() < SINGLE_INFINITE
    }

    /// The same number in double precision.
    pub open spec fn widened(self) -> Double {
        if self.negative() {
            Double { bits: (widened_pattern(self.magnitude()) + SIGN) as u64 }
        } else {
            Double { bits: widened_pattern(self.magnitude()) as u64 }
        }
    }

    pub fn from_bits(bits: u32) -> (result: Single)
        ensures
            result.bits == bits,
    {
        Single { bits }
    }

    /// The same number in double precision.
    pub fn widen(self) -> (result: Double)
        ensures
            result == self.widened(),
    {
        proof {
            lemma_widened_bound(self.magnitude());
        }
        if self.bits >= SINGLE_SIGN {
            Double { bits: widen_magnitude(self.bits - SINGLE_SIGN) + SIGN }
        } else {
            Double { bits: widen_magnitude(self.bits) }
        }
    }
}

/// `significand` moved up to where its leading one stands at bit 52, and by how
/// many places it moved.
pub open spec fn lifted(significand: nat) -> (nat, nat)
    decreases 0x20_0000_0000_0000 - significand,
{
    if significand == 0 || significand >= 0x10_0000_0000_0000 {
        (significand, 0)
    } else {
        let (full, places) = lifted(2 * significand);
        (full, places + 1)
    }
}

/// The double-precision pattern for a single-precision one: infinities and NaNs
/// keep theirs, normal numbers move to the wider exponent, and a number below
/// the normal range becomes a normal one.
pub open spec fn widened_pattern(pattern: nat) -> nat {
    let exponent = pattern / 0x80_0000;
    let fraction = pattern % 0x80_0000;
    if exponent >= 255 {
        INFINITE as nat + fraction * 0x2000_0000
    } else if exponent > 0 {
        (exponent + 896) * 0x10_0000_0000_0000 + fraction * 0x2000_0000
    } else if fraction == 0 {
        0
    } else {
        let (full, places) = lifted(fraction);
        ((926 - places) * 0x10_0000_0000_0000 + (full - 0x10_0000_0000_0000)) as nat
    }
}

/// Where the leading one ends up, and by how far it moved.
pub proof fn lemma_lifted(significand: nat)
    requires
        0 < significand < 0x20_0000_0000_0000,
    ensures
        0x10_0000_0000_0000 <= lifted(significand).0 < 0x20_0000_0000_0000,
        lifted(significand).0 == significand * pow2(lifted(significand).1),
        lifted(significand).1 <= 52,
        pow2(lifted(significand).1) <= 0x10_0000_0000_0000,
    decreases 0x20_0000_0000_0000 - significand,
{
    lemma2_to64();
    lemma2_to64_rest();
    if significand < 0x10_0000_0000_0000 {
        lemma_lifted(2 * significand);
        let places = lifted(2 * significand).1;
        lemma_pow2_unfold(places + 1);
        let scale = pow2(places + 1);
        assert(significand * scale == (2 * significand) * pow2(places)) by (nonlinear_arith)
            requires
                scale == 2 * pow2(places),
        ;
        assert(scale < 0x20_0000_0000_0000) by (nonlinear_arith)
            requires
                significand * scale < 0x20_0000_0000_0000,
                significand > 0,
        ;
        if places + 1 > 52 {
            lemma_pow2_strictly_increases(52, places + 1);
            lemma_pow2_unfold(53);
            if places + 1 > 53 {
                lemma_pow2_strictly_increases(53, places + 1);
            }
            assert(false);
        }
        if places + 1 < 52 {
            lemma_pow2_strictly_increases(places + 1, 52);
        }
    } else {
        assert(significand * pow2(0) == significand) by (nonlinear_arith)
            requires
                pow2(0) == 1,
        ;
    }
}

proof fn lemma_widened_bound(pattern: nat)
    requires
        pattern < SINGLE_SIGN,
    ensures
        widened_pattern(pattern) < SIGN,
{
    let exponent = pattern / 0x80_0000;
    let fraction = pattern % 0x80_0000;
    assert(exponent <= 255);
    if exponent == 0 && fraction > 0 {
        lemma_lifted(fraction);
    }
}

/// Widening changes nothing about a finite number.
pub proof fn law_widening_is_exact(number: Single)
    requires
        number.finite(),
    ensures
        number.widened().negative() == number.negative(),
        number.widened().finite(),
        double_units(number.widened().magnitude()) == single_units(number.magnitude())
            * units_per_single(),
{
    let pattern = number.magnitude();
    lemma_widened_bound(pattern);
    let exponent = pattern / 0x80_0000;
    let fraction = pattern % 0x80_0000;
    let wide = widened_pattern(pattern);
    assert(number.widened().magnitude() == wide);
    if exponent > 0 {
        law_short_fractions_are_exact(exponent + 896, fraction);
        assert(exponent * 0x80_0000 + fraction == pattern);
    } else if fraction > 0 {
        lemma_lifted(fraction);
        let (full, places) = lifted(fraction);
        assert(wide / 0x10_0000_0000_0000 == 926 - places);
        assert(wide % 0x10_0000_0000_0000 == full - 0x10_0000_0000_0000);
        lemma_pow2_adds(places, (925 - places) as nat);
        let up = pow2(places);
        let rest = pow2((925 - places) as nat);
        assert(fraction * up * rest == fraction * (up * rest)) by (nonlinear_arith);
    } else {
        assert(0 * units_per_single() == 0);
    }
}

fn widen_magnitude(pattern: u32) -> (result: u64)
    requires
        pattern < SINGLE_SIGN,
    ensures
        result == widened_pattern(pattern as nat),
{
    let exponent: u64 = pattern as u64 / 0x80_0000;
    let fraction: u64 = pattern as u64 % 0x80_0000;
    if exponent >= 255 {
        return INFINITE + fraction * 0x2000_0000;
    }
    if exponent > 0 {
        return (exponent + 896) * 0x10_0000_0000_0000 + fraction * 0x2000_0000;
    }
    if fraction == 0 {
        return 0;
    }
    let mut full: u64 = fraction;
    let mut places: u64 = 0;
    proof {
        lemma_lifted(fraction as nat);
    }
    while full < 0x10_0000_0000_0000
        invariant
            0 < full < 0x20_0000_0000_0000,
            lifted(fraction as nat).0 == lifted(full as nat).0,
            lifted(fraction as nat).1 == places + lifted(full as nat).1,
            lifted(fraction as nat).1 <= 52,
        decreases 0x20_0000_0000_0000 - full,
    {
        full = full * 2;
        places = places + 1;
    }
    (926 - places) * 0x10_0000_0000_0000 + (full - 0x10_0000_0000_0000)
}

fn narrow_magnitude(magnitude: u64) -> (result: u32)
    requires
        magnitude <= INFINITE,
    ensures
        is_nearest_single(double_units(magnitude as nat), result as nat),
{
    let exponent: u64 = magnitude / 0x10_0000_0000_0000;
    let fraction: u64 = magnitude % 0x10_0000_0000_0000;
    if exponent >= 1151 {
        proof {
            lemma_narrow_huge(exponent as nat, fraction as nat);
        }
        return SINGLE_INFINITE;
    }
    if exponent <= 871 {
        proof {
            lemma_narrow_tiny(exponent as nat, fraction as nat);
        }
        return 0;
    }
    let ghost part = pow2((exponent - 1) as nat);
    let pattern: u64;
    let rest: u64;
    let parts: u64;
    if exponent >= 897 {
        pattern = (exponent - 896) * 0x80_0000 + fraction / 0x2000_0000;
        rest = fraction % 0x2000_0000;
        parts = 0x2000_0000;
        proof {
            lemma_narrow_normal(exponent as nat, fraction as nat);
        }
    } else {
        let full: u64 = 0x10_0000_0000_0000 + fraction;
        let dropped: u64 = 926 - exponent;
        proof {
            lemma_u64_pow2_no_overflow(dropped as nat);
            lemma_u64_shl_is_mul(1, dropped);
            lemma_narrow_subnormal(exponent as nat, fraction as nat);
        }
        parts = 1u64 << dropped;
        pattern = full / parts;
        rest = full % parts;
    }
    assert(parts <= 0x40_0000_0000_0000) by {
        lemma2_to64_rest();
        if exponent < 897 && exponent > 872 {
            lemma_pow2_strictly_increases((926 - exponent) as nat, 54);
        }
    }
    let rounded: u64 = if 2 * rest > parts || (2 * rest == parts && pattern % 2 == 1) {
        pattern + 1
    } else {
        pattern
    };
    proof {
        lemma_rounding(
            double_units(magnitude as nat),
            pattern as nat,
            rest as nat,
            parts as nat,
            part,
            rounded as nat,
        );
    }
    rounded as u32
}

/// The scale grows strictly with the pattern.
proof fn lemma_double_units_step(pattern: nat)
    ensures
        double_units(pattern) < double_units(pattern + 1),
{
    let half: nat = 0x10_0000_0000_0000;
    let exponent = pattern / half;
    let fraction = pattern % half;
    lemma2_to64();
    if exponent > 0 {
        let scale = pow2((exponent - 1) as nat);
        lemma_pow2_pos((exponent - 1) as nat);
        assert((half + fraction + 1) * scale == (half + fraction) * scale + scale)
            by (nonlinear_arith);
        if fraction + 1 < half {
            assert((pattern + 1) / half == exponent);
            assert((pattern + 1) % half == fraction + 1);
        } else {
            assert((pattern + 1) / half == exponent + 1);
            assert((pattern + 1) % half == 0);
            lemma_pow2_unfold(exponent);
            assert((half + half) * scale == half * (2 * scale)) by (nonlinear_arith);
            assert((half + 0) * pow2(exponent) == half * pow2(exponent));
        }
    } else {
        if fraction + 1 == half {
            assert((pattern + 1) / half == 1);
            assert((pattern + 1) % half == 0);
            assert(half * pow2(0) == half);
        }
    }
}

/// A larger pattern stands for a larger magnitude.
pub proof fn law_larger_patterns_are_larger(left: nat, right: nat)
    requires
        left < right,
    ensures
        double_units(left) < double_units(right),
    decreases right - left,
{
    lemma_double_units_step(left);
    if left + 1 < right {
        law_larger_patterns_are_larger(left + 1, right);
    }
}

/// Comparing two finite patterns compares the numbers they stand for.
pub proof fn law_rank_is_the_order_of_the_numbers(left: Double, right: Double)
    requires
        left.finite(),
        right.finite(),
    ensures
        left.less(right) <==> left.units() < right.units(),
        left.equals(right) <==> left.units() == right.units(),
        left.at_most(right) <==> left.units() <= right.units(),
{
    let a = left.magnitude();
    let b = right.magnitude();
    assert(double_units(0) == 0);
    if a > 0 {
        law_larger_patterns_are_larger(0, a);
    }
    if b > 0 {
        law_larger_patterns_are_larger(0, b);
    }
    if a < b {
        law_larger_patterns_are_larger(a, b);
    } else if b < a {
        law_larger_patterns_are_larger(b, a);
    }
}

/// The total order is antisymmetric on patterns: two numbers that sort to the
/// same place are the same pattern.
pub proof fn law_total_rank_tells_patterns_apart(left: Double, right: Double)
    requires
        left.total_rank() == right.total_rank(),
    ensures
        left == right,
{
}

/// One step of a pattern adds exactly one unit in its last place.
proof fn lemma_single_units_step(pattern: nat)
    ensures
        single_units(pattern + 1) == single_units(pattern) + single_step(pattern),
        single_step(pattern) > 0,
{
    let half: nat = 0x80_0000;
    let exponent = pattern / half;
    let fraction = pattern % half;
    lemma2_to64();
    if exponent > 0 {
        let scale = pow2((exponent - 1) as nat);
        lemma_pow2_pos((exponent - 1) as nat);
        assert((half + fraction + 1) * scale == (half + fraction) * scale + scale)
            by (nonlinear_arith);
        if fraction + 1 < half {
            assert((pattern + 1) / half == exponent);
            assert((pattern + 1) % half == fraction + 1);
        } else {
            assert((pattern + 1) / half == exponent + 1);
            assert((pattern + 1) % half == 0);
            lemma_pow2_unfold(exponent);
            assert((half + half) * scale == half * (2 * scale)) by (nonlinear_arith);
            assert((half + 0) * pow2(exponent) == half * pow2(exponent));
        }
    } else {
        if fraction + 1 == half {
            assert((pattern + 1) / half == 1);
            assert((pattern + 1) % half == 0);
            assert(half * pow2(0) == half);
        }
    }
}

/// What the last place of a single-precision pattern is worth.
spec fn single_step(pattern: nat) -> nat {
    if pattern < 0x80_0000 {
        1
    } else {
        pow2((pattern / 0x80_0000 - 1) as nat)
    }
}

/// Rounding decided on the remainder: `units` lies `rest` parts out of `parts`
/// of the way from `pattern` to the next pattern.
proof fn lemma_rounding(units: nat, pattern: nat, rest: nat, parts: nat, part: nat, result: nat)
    requires
        pattern < SINGLE_INFINITE,
        part > 0,
        rest < parts,
        units == single_units(pattern) * units_per_single() + rest * part,
        single_step(pattern) * units_per_single() == parts * part,
        result == (if 2 * rest > parts || (2 * rest == parts && pattern % 2 == 1) {
            pattern + 1
        } else {
            pattern
        }),
    ensures
        is_nearest_single(units, result),
{
    let one = units_per_single();
    let here = single_units(pattern) * one;
    let next = single_units(pattern + 1) * one;
    lemma_pow2_pos(925);
    lemma_single_units_step(pattern);
    assert(next == here + parts * part) by (nonlinear_arith)
        requires
            next == (single_units(pattern) + single_step(pattern)) * one,
            here == single_units(pattern) * one,
            single_step(pattern) * one == parts * part,
    ;
    assert(rest * part < parts * part) by (nonlinear_arith)
        requires
            rest < parts,
            part > 0,
    ;
    if result == pattern + 1 {
        assert(2 * (rest * part) >= parts * part) by (nonlinear_arith)
            requires
                2 * rest >= parts,
                part > 0,
        ;
        if 2 * rest > parts {
            assert(2 * (rest * part) > parts * part) by (nonlinear_arith)
                requires
                    2 * rest > parts,
                    part > 0,
            ;
        }
        lemma_single_units_step(pattern + 1);
        assert(single_units(pattern + 2) * one > next) by (nonlinear_arith)
            requires
                next == single_units(pattern + 1) * one,
                single_units(pattern + 2) > single_units(pattern + 1),
                one > 0,
        ;
        assert(single_units((result - 1) as nat) * one == here);
    } else {
        assert(2 * (rest * part) <= parts * part) by (nonlinear_arith)
            requires
                2 * rest <= parts,
                part > 0,
        ;
        if 2 * rest < parts {
            assert(2 * (rest * part) < parts * part) by (nonlinear_arith)
                requires
                    2 * rest < parts,
                    part > 0,
            ;
        }
        if pattern > 0 {
            lemma_single_units_step((pattern - 1) as nat);
            assert(single_units((pattern - 1) as nat) * one < here) by (nonlinear_arith)
                requires
                    here == single_units(pattern) * one,
                    single_units((pattern - 1) as nat) < single_units(pattern),
                    one > 0,
            ;
        }
    }
}

/// Inside the normal range the pattern keeps the leading 23 bits of the
/// fraction, and the other 29 decide the rounding.
proof fn lemma_narrow_normal(exponent: nat, fraction: nat)
    requires
        897 <= exponent <= 1150,
        fraction < 0x10_0000_0000_0000,
    ensures
        ({
            let pattern = (exponent - 896) as nat * 0x80_0000 + fraction / 0x2000_0000;
            let part = pow2((exponent - 1) as nat);
            let units = (0x10_0000_0000_0000 + fraction) * part;
            &&& part > 0
            &&& units == single_units(pattern) * units_per_single() + (fraction % 0x2000_0000)
                * part
            &&& single_step(pattern) * units_per_single() == 0x2000_0000 * part
        }),
{
    let kept = fraction / 0x2000_0000;
    let rest = fraction % 0x2000_0000;
    let pattern = (exponent - 896) as nat * 0x80_0000 + kept;
    let part = pow2((exponent - 1) as nat);
    let scale = pow2((exponent - 897) as nat);
    let one = units_per_single();
    assert(kept < 0x80_0000);
    assert(pattern / 0x80_0000 == exponent - 896);
    assert(pattern % 0x80_0000 == kept);
    lemma_pow2_pos((exponent - 1) as nat);
    lemma2_to64();
    lemma2_to64_rest();
    lemma_pow2_adds((exponent - 897) as nat, 925);
    lemma_pow2_adds((exponent - 1) as nat, 29);
    assert(scale * one == part * 0x2000_0000);
    assert((0x10_0000_0000_0000 + fraction) * part == (0x80_0000 + kept) * (part * 0x2000_0000)
        + rest * part) by (nonlinear_arith)
        requires
            fraction == kept * 0x2000_0000 + rest,
    ;
    assert((0x80_0000 + kept) * scale * one == (0x80_0000 + kept) * (scale * one))
        by (nonlinear_arith);
}

/// Below the normal range the pattern is the leading bits of the significand,
/// and `dropped` of them decide the rounding.
proof fn lemma_narrow_subnormal(exponent: nat, fraction: nat)
    requires
        872 <= exponent <= 896,
        fraction < 0x10_0000_0000_0000,
    ensures
        ({
            let full = 0x10_0000_0000_0000 + fraction;
            let parts = pow2((926 - exponent) as nat);
            let part = pow2((exponent - 1) as nat);
            let pattern = full / parts;
            &&& part > 0
            &&& parts > 0
            &&& pattern < 0x80_0000
            &&& full * part == single_units(pattern) * units_per_single() + (full % parts) * part
            &&& single_step(pattern) * units_per_single() == parts * part
        }),
{
    let full = 0x10_0000_0000_0000 + fraction;
    let parts = pow2((926 - exponent) as nat);
    let part = pow2((exponent - 1) as nat);
    let pattern = full / parts;
    lemma_pow2_pos((exponent - 1) as nat);
    lemma_pow2_pos((926 - exponent) as nat);
    lemma_pow2_adds((926 - exponent) as nat, (exponent - 1) as nat);
    lemma2_to64();
    lemma2_to64_rest();
    if exponent < 896 {
        lemma_pow2_strictly_increases(30, (926 - exponent) as nat);
    }
    assert(parts >= 0x4000_0000);
    assert(pattern < 0x80_0000) by (nonlinear_arith)
        requires
            full < 0x20_0000_0000_0000,
            parts >= 0x4000_0000,
            pattern == full / parts,
    ;
    vstd::arithmetic::div_mod::lemma_fundamental_div_mod(full as int, parts as int);
    let rest = full % parts;
    assert(full * part == pattern * (parts * part) + rest * part) by (nonlinear_arith)
        requires
            full == parts * pattern + rest,
    ;
    assert(parts * part == units_per_single());
    assert(single_units(pattern) == pattern);
    assert(single_step(pattern) * units_per_single() == units_per_single()) by (nonlinear_arith)
        requires
            single_step(pattern) == 1,
    ;
}

/// A magnitude under half of the smallest single-precision number rounds to 0.
proof fn lemma_narrow_tiny(exponent: nat, fraction: nat)
    requires
        exponent <= 871,
        fraction < 0x10_0000_0000_0000,
    ensures
        is_nearest_single(double_units(exponent * 0x10_0000_0000_0000 + fraction), 0),
{
    let pattern = exponent * 0x10_0000_0000_0000 + fraction;
    assert(pattern / 0x10_0000_0000_0000 == exponent);
    assert(pattern % 0x10_0000_0000_0000 == fraction);
    lemma2_to64();
    lemma2_to64_rest();
    lemma_pow2_pos(870);
    lemma_pow2_adds(53, 870);
    lemma_pow2_adds(923, 2);
    let limit = pow2(870);
    if exponent > 0 {
        let scale = pow2((exponent - 1) as nat);
        if exponent < 871 {
            lemma_pow2_strictly_increases((exponent - 1) as nat, 870);
        }
        assert((0x10_0000_0000_0000 + fraction) * scale <= 0x20_0000_0000_0000 * limit)
            by (nonlinear_arith)
            requires
                fraction < 0x10_0000_0000_0000,
                scale <= limit,
        ;
    } else {
        assert(fraction <= 0x20_0000_0000_0000 * limit) by (nonlinear_arith)
            requires
                fraction < 0x10_0000_0000_0000,
                limit > 0,
        ;
    }
    assert(double_units(pattern) <= pow2(923));
    lemma_pow2_pos(923);
    let one = units_per_single();
    assert(single_units(1) * one == one) by (nonlinear_arith)
        requires
            single_units(1) == 1,
    ;
    assert(single_units(0) * one == 0) by (nonlinear_arith)
        requires
            single_units(0) == 0,
    ;
    assert(one == pow2(923) * 4);
}

/// A magnitude past the single-precision range rounds to infinity.
proof fn lemma_narrow_huge(exponent: nat, fraction: nat)
    requires
        1151 <= exponent,
        fraction < 0x10_0000_0000_0000,
    ensures
        is_nearest_single(
            double_units(exponent * 0x10_0000_0000_0000 + fraction),
            SINGLE_INFINITE as nat,
        ),
{
    let pattern = exponent * 0x10_0000_0000_0000 + fraction;
    assert(pattern / 0x10_0000_0000_0000 == exponent);
    assert(pattern % 0x10_0000_0000_0000 == fraction);
    let top = SINGLE_INFINITE as nat;
    let one = units_per_single();
    assert(top / 0x80_0000 == 255);
    assert(top % 0x80_0000 == 0);
    lemma2_to64();
    lemma2_to64_rest();
    lemma_pow2_pos(925);
    lemma_pow2_adds(23, 254);
    lemma_pow2_adds(277, 925);
    lemma_pow2_adds(52, 1150);
    let scale = pow2((exponent - 1) as nat);
    if exponent > 1151 {
        lemma_pow2_strictly_increases(1150, (exponent - 1) as nat);
    }
    assert((0x10_0000_0000_0000 + fraction) * scale >= 0x10_0000_0000_0000 * pow2(1150))
        by (nonlinear_arith)
        requires
            scale >= pow2(1150),
    ;
    assert(single_units(top) * one == pow2(1202));
    lemma_single_units_step((top - 1) as nat);
    assert(single_units((top - 1) as nat) * one < single_units(top) * one) by (nonlinear_arith)
        requires
            single_units((top - 1) as nat) < single_units(top),
            one > 0,
    ;
}

proof fn lemma_single_units_grow(left: nat, right: nat)
    requires
        left < right,
    ensures
        single_units(left) < single_units(right),
    decreases right - left,
{
    lemma_single_units_step(left);
    if left + 1 < right {
        lemma_single_units_grow(left + 1, right);
    }
}

/// Rounding keeps order: of two numbers the smaller one never rounds to the
/// larger single-precision magnitude.
pub proof fn law_rounding_keeps_order(smaller: nat, larger: nat, left: nat, right: nat)
    requires
        smaller <= larger,
        is_nearest_single(smaller, left),
        is_nearest_single(larger, right),
    ensures
        left <= right,
        single_units(left) <= single_units(right),
{
    if left < right {
        lemma_single_units_grow(left, right);
    } else if right < left {
        let one = units_per_single();
        lemma_pow2_pos(925);
        let here = single_units(right) * one;
        let above = single_units(right + 1) * one;
        let below = single_units((left - 1) as nat) * one;
        let there = single_units(left) * one;
        if right + 1 < left {
            lemma_single_units_grow(right, (left - 1) as nat);
            lemma_single_units_grow(right + 1, left);
            assert(here < below) by (nonlinear_arith)
                requires
                    here == single_units(right) * one,
                    below == single_units((left - 1) as nat) * one,
                    single_units(right) < single_units((left - 1) as nat),
                    one > 0,
            ;
            assert(above < there) by (nonlinear_arith)
                requires
                    above == single_units(right + 1) * one,
                    there == single_units(left) * one,
                    single_units(right + 1) < single_units(left),
                    one > 0,
            ;
        }
        assert(false);
    }
}

/// Nearest leaves no choice: at most one single-precision magnitude is nearest
/// to a given number.
pub proof fn law_nearest_single_is_unique(units: nat, left: nat, right: nat)
    requires
        is_nearest_single(units, left),
        is_nearest_single(units, right),
    ensures
        left == right,
{
    law_rounding_keeps_order(units, units, left, right);
    law_rounding_keeps_order(units, units, right, left);
}

/// A number that single precision can hold is its own nearest.
pub proof fn law_exact_numbers_round_to_themselves(units: nat, pattern: nat)
    requires
        pattern <= SINGLE_INFINITE,
        units == single_units(pattern) * units_per_single(),
    ensures
        is_nearest_single(units, pattern),
{
    let one = units_per_single();
    lemma_pow2_pos(925);
    lemma_single_units_step(pattern);
    assert(single_units(pattern + 1) * one > units) by (nonlinear_arith)
        requires
            units == single_units(pattern) * one,
            single_units(pattern + 1) > single_units(pattern),
            one > 0,
    ;
    if pattern > 0 {
        lemma_single_units_step((pattern - 1) as nat);
        assert(single_units((pattern - 1) as nat) * one < units) by (nonlinear_arith)
            requires
                units == single_units(pattern) * one,
                single_units((pattern - 1) as nat) < single_units(pattern),
                one > 0,
        ;
    }
}

/// The magnitudes grow with their patterns.
pub proof fn law_magnitudes_keep_order(left: nat, right: nat)
    requires
        left <= right,
    ensures
        double_units(left) <= double_units(right),
{
    if left < right {
        law_larger_patterns_are_larger(left, right);
    }
}

/// A double-precision pattern whose last 29 fraction bits are zero, inside the
/// single-precision range, stands for a number that single precision holds.
pub proof fn law_short_fractions_are_exact(exponent: nat, kept: nat)
    requires
        897 <= exponent <= 1150,
        kept < 0x80_0000,
    ensures
        double_units(exponent * 0x10_0000_0000_0000 + kept * 0x2000_0000) == single_units(
            (exponent - 896) as nat * 0x80_0000 + kept,
        ) * units_per_single(),
{
    let fraction = kept * 0x2000_0000;
    let pattern = exponent * 0x10_0000_0000_0000 + fraction;
    assert(pattern / 0x10_0000_0000_0000 == exponent);
    assert(pattern % 0x10_0000_0000_0000 == fraction);
    assert(fraction / 0x2000_0000 == kept);
    assert(fraction % 0x2000_0000 == 0);
    lemma_narrow_normal(exponent, fraction);
    assert(0 * pow2((exponent - 1) as nat) == 0);
}

} // verus!

//! The whole numbers next to a double-precision number.
use crate::arithmetic;
use crate::double;
use crate::double::{Double, INFINITE};
use vstd::arithmetic::div_mod::*;
use vstd::arithmetic::power2::*;
use vstd::prelude::*;

verus! {

/// How many whole ones go into a magnitude.
pub open spec fn ones(magnitude: nat) -> nat {
    double::double_units(magnitude) / pow2(1074)
}

/// The whole number nearest to a magnitude, a half going up.
pub open spec fn nearest_ones(magnitude: nat) -> nat {
    (2 * double::double_units(magnitude) + pow2(1074)) / (2 * pow2(1074))
}

/// The number without what stands behind its point.
pub open spec fn truncated(number: Double) -> Double {
    if number.nan() {
        arithmetic::not_a_number()
    } else if !number.finite() {
        number
    } else {
        arithmetic::signed(
            number.negative(),
            arithmetic::nearest(ones(number.magnitude()) * pow2(1074), 1),
        )
    }
}

/// The largest whole number that is not above the number.
pub open spec fn floored(number: Double) -> Double {
    let whole = truncated(number);
    if number.less(whole) {
        arithmetic::difference(whole, Double { bits: 0x3ff0_0000_0000_0000 })
    } else {
        whole
    }
}

/// The nearest whole number, a half going away from zero, held inside the range
/// of `i64`. What is no number counts as zero.
pub open spec fn nearest_whole(number: Double) -> int {
    let count = nearest_ones(number.magnitude());
    if number.nan() {
        0
    } else if number.negative() {
        if !number.finite() || count > 0x8000_0000_0000_0000 {
            -0x8000_0000_0000_0000
        } else {
            -(count as int)
        }
    } else {
        if !number.finite() || count >= 0x8000_0000_0000_0000 {
            0x7fff_ffff_ffff_ffff
        } else {
            count as int
        }
    }
}

/// The whole number next to the number on the way to zero, held inside the range
/// of `i64`. What is no number counts as zero.
pub open spec fn cut_whole(number: Double) -> int {
    let count = ones(number.magnitude());
    if number.nan() {
        0
    } else if number.negative() {
        if !number.finite() || count > 0x8000_0000_0000_0000 {
            -0x8000_0000_0000_0000
        } else {
            -(count as int)
        }
    } else {
        if !number.finite() || count >= 0x8000_0000_0000_0000 {
            0x7fff_ffff_ffff_ffff
        } else {
            count as int
        }
    }
}

/// What `significand * 2^place` holds, in parts of `2^split`.
proof fn lemma_split(significand: nat, place: nat, split: nat)
    requires
        place + split == 1074,
    ensures
        (significand * pow2(place)) / pow2(1074) == significand / pow2(split),
        (2 * (significand * pow2(place)) + pow2(1074)) / (2 * pow2(1074)) == (2 * significand
            + pow2(split)) / (2 * pow2(split)),
{
    let grain = pow2(place);
    let part = pow2(split);
    lemma_pow2_pos(place);
    lemma_pow2_pos(split);
    lemma_pow2_adds(place, split);
    assert(pow2(1074) == grain * part);
    lemma_div_multiples_vanish_quotient(grain as int, significand as int, part as int);
    assert(significand * grain == grain * significand) by (nonlinear_arith);
    lemma_div_multiples_vanish_quotient(
        grain as int,
        2 * significand + part as int,
        2 * part as int,
    );
    assert(2 * (significand * grain) + grain * part == grain * (2 * significand + part))
        by (nonlinear_arith);
    assert(2 * (grain * part) == grain * (2 * part)) by (nonlinear_arith);
}

/// A magnitude whose last place is one or more is a whole number.
proof fn lemma_large(significand: nat, place: nat)
    requires
        place >= 1074,
    ensures
        significand * pow2(place) == (significand * pow2((place - 1074) as nat)) * pow2(1074),
        (significand * pow2(place)) / pow2(1074) == significand * pow2((place - 1074) as nat),
        (2 * (significand * pow2(place)) + pow2(1074)) / (2 * pow2(1074)) == significand * pow2(
            (place - 1074) as nat,
        ),
{
    let up = pow2((place - 1074) as nat);
    let one = pow2(1074);
    lemma_pow2_pos(1074);
    lemma_pow2_adds(1074, (place - 1074) as nat);
    let count = significand * up;
    assert(significand * (one * up) == (significand * up) * one) by (nonlinear_arith);
    lemma_div_multiples_vanish(count as int, one as int);
    assert(count * one == one * count) by (nonlinear_arith);
    assert(2 * (count * one) + one == (2 * one) * count + one) by (nonlinear_arith);
    lemma_div_multiples_vanish_fancy(count as int, one as int, 2 * one as int);
}

/// A magnitude far below one has nothing before its point.
proof fn lemma_small(significand: nat, split: nat)
    requires
        split >= 54,
        significand < 0x20_0000_0000_0000,
    ensures
        significand / pow2(split) == 0,
        (2 * significand + pow2(split)) / (2 * pow2(split)) == 0,
{
    lemma2_to64();
    lemma2_to64_rest();
    if split > 54 {
        lemma_pow2_strictly_increases(54, split);
    }
    lemma_basic_div(significand as int, pow2(split) as int);
    lemma_basic_div(2 * significand + pow2(split) as int, 2 * pow2(split) as int);
}

impl Double {
    /// Cuts off what stands behind the point.
    pub fn trunc(self) -> (result: Double)
        ensures
            result == truncated(self),
    {
        if self.is_nan() {
            return Double::from_bits(arithmetic::NOT_A_NUMBER);
        }
        if !self.is_finite() {
            return self;
        }
        let magnitude: u64 = self.magnitude_bits();
        let (significand, place): (u64, u32) = arithmetic::parts(magnitude);
        let negative: bool = magnitude != self.to_bits();
        if place >= 1074 {
            proof {
                lemma_large(significand as nat, place as nat);
                arithmetic::law_exact_results_are_kept(magnitude as nat, 1);
            }
            return self;
        }
        let split: u32 = 1074 - place;
        proof {
            lemma_split(significand as nat, place as nat, split as nat);
        }
        let count: u64 = if split >= 54 {
            proof {
                lemma_small(significand as nat, split as nat);
            }
            0
        } else {
            let part: u128 = arithmetic::power(split);
            let count: u128 = significand as u128 / part;
            assert(count <= significand) by (nonlinear_arith)
                requires
                    part > 0,
                    count == significand as u128 / part,
            ;
            count as u64
        };
        let whole: Double = Double::whole(count as i64);
        proof {
            arithmetic::law_there_is_a_nearest((count * pow2(1074)) as nat, 1);
            assert(count * pow2(1074) >= 0) by (nonlinear_arith);
        }
        arithmetic::with_sign(negative, whole.to_bits())
    }

    /// Rounds down to a whole number.
    pub fn floor(self) -> (result: Double)
        ensures
            result == floored(self),
    {
        let whole: Double = self.trunc();
        if self.lt(whole) {
            whole.minus(Double::from_bits(0x3ff0_0000_0000_0000))
        } else {
            whole
        }
    }

    /// The nearest whole number, a half going away from zero.
    pub fn round_to_whole(self) -> (result: i64)
        ensures
            result == nearest_whole(self),
    {
        self.to_whole(true)
    }

    /// The whole number that is left when what stands behind the point is cut
    /// off.
    pub fn cut_to_whole(self) -> (result: i64)
        ensures
            result == cut_whole(self),
    {
        self.to_whole(false)
    }

    fn to_whole(self, nearest: bool) -> (result: i64)
        ensures
            nearest ==> result == nearest_whole(self),
            !nearest ==> result == cut_whole(self),
    {
        if self.is_nan() {
            return 0;
        }
        let magnitude: u64 = self.magnitude_bits();
        let negative: bool = magnitude != self.to_bits();
        if !self.is_finite() {
            return if negative {
                i64::MIN
            } else {
                i64::MAX
            };
        }
        let (significand, place): (u64, u32) = arithmetic::parts(magnitude);
        if place >= 1074 {
            let up: u32 = place - 1074;
            proof {
                lemma_large(significand as nat, place as nat);
            }
            if up > 10 {
                proof {
                    lemma2_to64();
                    if up > 11 {
                        lemma_pow2_strictly_increases(11, up as nat);
                    }
                    assert(significand * pow2(up as nat) >= 0x8000_0000_0000_0000)
                        by (nonlinear_arith)
                        requires
                            significand >= 0x10_0000_0000_0000,
                            pow2(up as nat) >= 0x800,
                    ;
                }
                return if negative {
                    i64::MIN
                } else {
                    i64::MAX
                };
            }
            let factor: u128 = arithmetic::power(up);
            proof {
                lemma2_to64();
                if up < 10 {
                    lemma_pow2_strictly_increases(up as nat, 10);
                }
                assert(significand * factor < 0x8000_0000_0000_0000) by (nonlinear_arith)
                    requires
                        significand < 0x20_0000_0000_0000,
                        factor <= 0x400,
                ;
            }
            let count: u128 = significand as u128 * factor;
            return if negative {
                -(count as i64)
            } else {
                count as i64
            };
        }
        let split: u32 = 1074 - place;
        proof {
            lemma_split(significand as nat, place as nat, split as nat);
        }
        if split >= 54 {
            proof {
                lemma_small(significand as nat, split as nat);
            }
            return 0;
        }
        let part: u128 = arithmetic::power(split);
        proof {
            lemma2_to64();
            lemma2_to64_rest();
            if split < 53 {
                lemma_pow2_strictly_increases(split as nat, 53);
            }
            assert(part <= 0x20_0000_0000_0000);
        }
        let (above, below): (u128, u128) = if nearest {
            (2 * significand as u128 + part, 2 * part)
        } else {
            (significand as u128, part)
        };
        let count: u128 = above / below;
        assert(count <= above) by (nonlinear_arith)
            requires
                below > 0,
                count == above / below,
        ;
        if negative {
            -(count as i64)
        } else {
            count as i64
        }
    }
}

/// A whole number is its own floor and its own truncation.
pub proof fn law_whole_numbers_stay(number: Double, count: nat)
    requires
        number.finite(),
        double::double_units(number.magnitude()) == count * pow2(1074),
    ensures
        truncated(number) == number,
        floored(number) == number,
{
    lemma_pow2_pos(1074);
    lemma_div_multiples_vanish(count as int, pow2(1074) as int);
    assert(count * pow2(1074) == pow2(1074) * count) by (nonlinear_arith);
    arithmetic::law_exact_results_are_kept(number.magnitude(), 1);
}

/// A count of up to 53 bits, moved up to any place, is a number.
pub proof fn lemma_short(count: nat, place: nat) -> (pattern: nat)
    requires
        count < 0x20_0000_0000_0000,
        52 <= place <= 1900,
    ensures
        pattern < INFINITE,
        double::double_units(pattern) == count * pow2(place),
{
    if count == 0 {
        assert(double::double_units(0) == 0);
        assert(0 * pow2(place) == 0);
        0
    } else {
        double::lemma_lifted(count);
        let (full, places) = double::lifted(count);
        let rest = (place - places) as nat;
        arithmetic::lemma_pattern_units(rest, full);
        lemma_pow2_adds(places, rest);
        let low = pow2(places);
        let high = pow2(rest);
        assert((count * low) * high == count * (low * high)) by (nonlinear_arith);
        rest * 0x10_0000_0000_0000 + full
    }
}

/// Rounding leaves a count of up to 53 bits as it is.
pub proof fn law_short_numbers_are_exact(count: int, place: nat)
    requires
        -0x20_0000_0000_0000 < count < 0x20_0000_0000_0000,
        52 <= place <= 1900,
    ensures
        arithmetic::rounded(count * pow2(place), 1).finite(),
        arithmetic::rounded(count * pow2(place), 1).units() == count * pow2(place),
{
    let size = if count < 0 {
        (-count) as nat
    } else {
        count as nat
    };
    let scale = pow2(place);
    let pattern = lemma_short(size, place);
    arithmetic::law_exact_results_are_kept(pattern, 1);
    lemma_pow2_pos(place);
    assert(size * scale * 1 == size * scale);
    assert((-count) * scale == -(count * scale)) by (nonlinear_arith);
    assert(count < 0 ==> count * scale < 0) by (nonlinear_arith)
        requires
            scale > 0,
    ;
    assert(count >= 0 ==> count * scale >= 0) by (nonlinear_arith)
        requires
            scale > 0,
    ;
}

/// Whole numbers of up to 53 bits are numbers.
pub proof fn law_whole_numbers_are_exact(value: int)
    requires
        -0x20_0000_0000_0000 < value < 0x20_0000_0000_0000,
    ensures
        arithmetic::whole_number(value).finite(),
        arithmetic::whole_number(value).units() == value * pow2(1074),
{
    law_short_numbers_are_exact(value, 1074);
}

/// So are sums of short numbers in the same place.
pub proof fn law_short_sums_are_exact(
    left: Double,
    right: Double,
    first: int,
    second: int,
    place: nat,
)
    requires
        left.finite(),
        right.finite(),
        52 <= place <= 1900,
        left.units() == first * pow2(place),
        right.units() == second * pow2(place),
        -0x20_0000_0000_0000 < first + second < 0x20_0000_0000_0000,
    ensures
        arithmetic::sum(left, right).finite(),
        arithmetic::sum(left, right).units() == (first + second) * pow2(place),
{
    let scale = pow2(place);
    law_short_numbers_are_exact(first + second, place);
    assert((first + second) * scale == first * scale + second * scale) by (nonlinear_arith);
    assert(double::double_units(0) == 0);
}

} // verus!

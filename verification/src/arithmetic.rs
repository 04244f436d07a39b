//! Arithmetic on double-precision patterns, each result rounded to the nearest
//! number with ties going to the even pattern.
use crate::double;
use crate::double::{Double, INFINITE, SIGN};
use vstd::arithmetic::power2::*;
use vstd::prelude::*;

verus! {

/// The result of an operation that has none.
pub const NOT_A_NUMBER: u64 = 0x7ff8_0000_0000_0000;

/// That `pattern` is the double-precision magnitude nearest to
/// `numerator / denominator` units of `2^-1074`, with a tie going to the even
/// pattern. The pattern of infinity takes part as the number one step above the
/// largest finite one.
pub open spec fn is_nearest(numerator: nat, denominator: nat, pattern: nat) -> bool {
    let even = pattern % 2 == 0;
    let here = double::double_units(pattern);
    &&& pattern <= INFINITE
    &&& pattern > 0 ==> {
        let middle = (double::double_units((pattern - 1) as nat) + here) * denominator;
        middle < 2 * numerator || (even && middle == 2 * numerator)
    }
    &&& pattern < INFINITE ==> {
        let middle = (here + double::double_units(pattern + 1)) * denominator;
        2 * numerator < middle || (even && 2 * numerator == middle)
    }
}

/// The double-precision magnitude nearest to `numerator / denominator` units.
pub open spec fn nearest(numerator: nat, denominator: nat) -> nat {
    choose|pattern: nat| is_nearest(numerator, denominator, pattern)
}

/// The number with the given sign and magnitude.
pub open spec fn signed(negative: bool, pattern: nat) -> Double {
    if negative {
        Double { bits: (pattern + SIGN) as u64 }
    } else {
        Double { bits: pattern as u64 }
    }
}

/// The number nearest to `units / denominator` units, zero counting as positive.
pub open spec fn rounded(units: int, denominator: nat) -> Double {
    if units < 0 {
        signed(true, nearest((-units) as nat, denominator))
    } else {
        signed(false, nearest(units as nat, denominator))
    }
}

pub open spec fn not_a_number() -> Double {
    Double { bits: NOT_A_NUMBER }
}

pub open spec fn infinite(number: Double) -> bool {
    number.magnitude() == INFINITE
}

/// `left + right`.
pub open spec fn sum(left: Double, right: Double) -> Double {
    if left.nan() || right.nan() {
        not_a_number()
    } else if infinite(left) {
        if infinite(right) && left.negative() != right.negative() {
            not_a_number()
        } else {
            left
        }
    } else if infinite(right) {
        right
    } else if left.units() + right.units() == 0 {
        signed(left.negative() && right.negative(), 0)
    } else {
        rounded(left.units() + right.units(), 1)
    }
}

/// `left - right`.
pub open spec fn difference(left: Double, right: Double) -> Double {
    sum(left, right.negated())
}

/// `left * right`.
pub open spec fn product(left: Double, right: Double) -> Double {
    let negative = left.negative() != right.negative();
    if left.nan() || right.nan() {
        not_a_number()
    } else if infinite(left) || infinite(right) {
        if left.magnitude() == 0 || right.magnitude() == 0 {
            not_a_number()
        } else {
            signed(negative, INFINITE as nat)
        }
    } else {
        signed(
            negative,
            nearest(
                double::double_units(left.magnitude()) * double::double_units(right.magnitude()),
                pow2(1074),
            ),
        )
    }
}

/// `left / right`.
pub open spec fn quotient(left: Double, right: Double) -> Double {
    let negative = left.negative() != right.negative();
    if left.nan() || right.nan() {
        not_a_number()
    } else if infinite(left) {
        if infinite(right) {
            not_a_number()
        } else {
            signed(negative, INFINITE as nat)
        }
    } else if infinite(right) {
        signed(negative, 0)
    } else if right.magnitude() == 0 {
        if left.magnitude() == 0 {
            not_a_number()
        } else {
            signed(negative, INFINITE as nat)
        }
    } else {
        signed(
            negative,
            nearest(
                double::double_units(left.magnitude()) * pow2(1074),
                double::double_units(right.magnitude()),
            ),
        )
    }
}

/// Nearest leaves no choice.
pub proof fn law_nearest_is_unique(numerator: nat, denominator: nat, left: nat, right: nat)
    requires
        denominator > 0,
        is_nearest(numerator, denominator, left),
        is_nearest(numerator, denominator, right),
    ensures
        left == right,
{
    law_nearest_keeps_order(numerator, numerator, denominator, left, right);
    law_nearest_keeps_order(numerator, numerator, denominator, right, left);
}

/// Rounding keeps order.
pub proof fn law_nearest_keeps_order(
    smaller: nat,
    larger: nat,
    denominator: nat,
    left: nat,
    right: nat,
)
    requires
        denominator > 0,
        smaller <= larger,
        is_nearest(smaller, denominator, left),
        is_nearest(larger, denominator, right),
    ensures
        left <= right,
{
    if right < left {
        let here = double::double_units(right);
        let above = double::double_units(right + 1);
        let below = double::double_units((left - 1) as nat);
        let there = double::double_units(left);
        double::law_magnitudes_keep_order(right, (left - 1) as nat);
        double::law_magnitudes_keep_order(right + 1, left);
        assert((here + above) * denominator <= (below + there) * denominator) by (nonlinear_arith)
            requires
                here + above <= below + there,
        ;
        if right + 1 < left {
            double::law_larger_patterns_are_larger(right, (left - 1) as nat);
            assert((here + above) * denominator < (below + there) * denominator)
                by (nonlinear_arith)
                requires
                    here + above < below + there,
                    denominator > 0,
            ;
        }
        assert(false);
    }
}

/// The choice behind [`nearest`] is the one that has been found.
pub proof fn lemma_found(numerator: nat, denominator: nat, pattern: nat)
    requires
        denominator > 0,
        is_nearest(numerator, denominator, pattern),
    ensures
        nearest(numerator, denominator) == pattern,
{
    law_nearest_is_unique(numerator, denominator, nearest(numerator, denominator), pattern);
}

/// A number that is there already is its own nearest.
pub proof fn law_exact_results_are_kept(pattern: nat, denominator: nat)
    requires
        denominator > 0,
        pattern <= INFINITE,
    ensures
        nearest(double::double_units(pattern) * denominator, denominator) == pattern,
{
    let here = double::double_units(pattern);
    lemma_exact(here * denominator, denominator, pattern);
    lemma_found(here * denominator, denominator, pattern);
}

/// How a count of `grain` relates to the unit: `grain / unit` is `2^shift`.
spec fn grained(unit: nat, grain: nat, shift: int) -> bool {
    &&& unit > 0
    &&& grain > 0
    &&& shift >= 0 ==> grain == unit * pow2(shift as nat)
    &&& shift < 0 ==> unit == grain * pow2((-shift) as nat)
}

proof fn lemma_grained(unit: nat, grain: nat, shift: int, place: nat, dropped: nat)
    requires
        grained(unit, grain, shift),
        place == shift + dropped,
    ensures
        pow2(place) * unit == pow2(dropped) * grain,
{
    if shift >= 0 {
        lemma_pow2_adds(dropped, shift as nat);
        let low = pow2(dropped);
        let high = pow2(shift as nat);
        assert((low * high) * unit == low * (unit * high)) by (nonlinear_arith);
    } else {
        lemma_pow2_adds(place, (-shift) as nat);
        let low = pow2(place);
        let high = pow2((-shift) as nat);
        assert(low * (grain * high) == (low * high) * grain) by (nonlinear_arith);
    }
}

/// What a pattern made of a place and a significand counts.
pub proof fn lemma_pattern_units(place: nat, significand: nat)
    requires
        significand < 0x20_0000_0000_0000,
        place > 0 ==> significand >= 0x10_0000_0000_0000,
    ensures
        double::double_units(place * 0x10_0000_0000_0000 + significand) == significand * pow2(place),
        double::double_units(place * 0x10_0000_0000_0000 + significand + 1) == (significand + 1)
            * pow2(place),
{
    let half: nat = 0x10_0000_0000_0000;
    let pattern = place * half + significand;
    lemma2_to64();
    if significand < half {
        assert(place == 0);
        assert(pattern / half == 0);
        assert(pattern % half == significand);
        assert(significand * pow2(0) == significand) by (nonlinear_arith)
            requires
                pow2(0) == 1,
        ;
        assert((significand + 1) * pow2(0) == significand + 1) by (nonlinear_arith)
            requires
                pow2(0) == 1,
        ;
        if significand + 1 == half {
            assert((pattern + 1) / half == 1);
            assert((pattern + 1) % half == 0);
            assert((half + 0) * pow2(0) == half);
        } else {
            assert((pattern + 1) / half == 0);
            assert((pattern + 1) % half == significand + 1);
        }
    } else {
        assert(pattern / half == place + 1);
        assert(pattern % half == significand - half);
        assert((half + (significand - half)) as nat == significand);
        if significand + 1 == 2 * half {
            assert((pattern + 1) / half == place + 2);
            assert((pattern + 1) % half == 0);
            lemma_pow2_unfold(place + 1);
            let scale = pow2(place);
            assert((half + 0) * (2 * scale) == (2 * half) * scale) by (nonlinear_arith);
        } else {
            assert((pattern + 1) / half == place + 1);
            assert((pattern + 1) % half == significand + 1 - half);
        }
    }
}

/// That `numerator` lies `count` grains up, exactly or with something more that
/// is less than a grain.
spec fn counted(numerator: nat, grain: nat, count: nat, more: bool) -> bool {
    if more {
        count * grain < numerator < (count + 1) * grain
    } else {
        numerator == count * grain
    }
}

/// Rounding decided on what is dropped: `count` is cut after `dropped` places.
proof fn lemma_rounding(
    numerator: nat,
    unit: nat,
    grain: nat,
    shift: int,
    count: nat,
    more: bool,
    place: nat,
    dropped: nat,
    result: nat,
)
    requires
        grained(unit, grain, shift),
        counted(numerator, grain, count, more),
        dropped >= 1,
        place == shift + dropped,
        ({
            let kept = count / pow2(dropped);
            let rest = count % pow2(dropped);
            let half = pow2((dropped - 1) as nat);
            let pattern = place * 0x10_0000_0000_0000 + kept;
            &&& kept < 0x20_0000_0000_0000
            &&& place > 0 ==> kept >= 0x10_0000_0000_0000
            &&& pattern < INFINITE
            &&& result == (if rest > half || (rest == half && (more || kept % 2 == 1)) {
                pattern + 1
            } else {
                pattern
            })
        }),
    ensures
        is_nearest(numerator, unit, result),
{
    let whole = pow2(dropped);
    let half = pow2((dropped - 1) as nat);
    lemma_pow2_pos((dropped - 1) as nat);
    lemma_pow2_unfold(dropped);
    let kept = count / whole;
    let rest = count % whole;
    let pattern = place * 0x10_0000_0000_0000 + kept;
    vstd::arithmetic::div_mod::lemma_fundamental_div_mod(count as int, whole as int);
    lemma_grained(unit, grain, shift, place, dropped);
    lemma_pattern_units(place, kept);
    let scale = pow2(place);
    let here = double::double_units(pattern);
    let above = double::double_units(pattern + 1);
    let step = whole * grain;
    assert(here * unit == kept * step) by (nonlinear_arith)
        requires
            here == kept * scale,
            scale * unit == step,
    ;
    assert(above * unit == kept * step + step) by (nonlinear_arith)
        requires
            above == (kept + 1) * scale,
            scale * unit == step,
    ;
    assert(count * grain == kept * step + rest * grain) by (nonlinear_arith)
        requires
            count == whole * kept + rest,
            step == whole * grain,
    ;
    assert((count + 1) * grain == count * grain + grain) by (nonlinear_arith);
    assert(step == 2 * (half * grain)) by (nonlinear_arith)
        requires
            step == whole * grain,
            whole == 2 * half,
    ;
    let lower = half * grain;
    let part = rest * grain;
    assert((here + above) * unit == here * unit + above * unit) by (nonlinear_arith);
    let middle = (here + above) * unit;
    assert(middle == 2 * (kept * step) + 2 * lower);
    double::law_larger_patterns_are_larger(pattern, pattern + 1);
    assert(pattern % 2 == kept % 2) by {
        assert(pattern == 2 * (place * 0x8_0000_0000_0000) + kept);
    }
    if rest > half {
        assert(part >= lower + grain) by (nonlinear_arith)
            requires
                part == rest * grain,
                lower == half * grain,
                rest >= half + 1,
        ;
        assert(middle < 2 * numerator);
    } else if rest < half {
        assert(part + grain <= lower) by (nonlinear_arith)
            requires
                part == rest * grain,
                lower == half * grain,
                rest + 1 <= half,
        ;
        assert(2 * numerator < middle);
    } else {
        assert(part == lower);
    }
    assert(here * unit <= numerator);
    assert(part + grain <= step) by (nonlinear_arith)
        requires
            part == rest * grain,
            step == whole * grain,
            rest + 1 <= whole,
    ;
    assert(more ==> numerator < above * unit);
    assert(!more ==> numerator < above * unit) by {
        assert(part < step);
    }
    if result == pattern + 1 {
        assert(double::double_units((result - 1) as nat) == here);
        if result < INFINITE {
            double::law_larger_patterns_are_larger(result, result + 1);
            let next = double::double_units(result + 1);
            assert((above + next) * unit > 2 * (above * unit)) by (nonlinear_arith)
                requires
                    next > above,
                    unit > 0,
            ;
        }
    } else if pattern > 0 {
        double::law_larger_patterns_are_larger((pattern - 1) as nat, pattern);
        let below = double::double_units((pattern - 1) as nat);
        assert((below + here) * unit < 2 * (here * unit)) by (nonlinear_arith)
            requires
                below < here,
                unit > 0,
        ;
    }
}

/// Past the largest finite number everything is infinite.
pub proof fn lemma_overflow(numerator: nat, unit: nat, pattern: nat)
    requires
        unit > 0,
        pattern >= INFINITE,
        double::double_units(pattern) * unit <= numerator,
    ensures
        is_nearest(numerator, unit, INFINITE as nat),
{
    let top = double::double_units(INFINITE as nat);
    let below = double::double_units((INFINITE - 1) as nat);
    double::law_magnitudes_keep_order(INFINITE as nat, pattern);
    double::law_larger_patterns_are_larger((INFINITE - 1) as nat, INFINITE as nat);
    assert((below + top) * unit < 2 * (double::double_units(pattern) * unit)) by (nonlinear_arith)
        requires
            below < top,
            top <= double::double_units(pattern),
            unit > 0,
    ;
}

proof fn lemma_cut(count: nat, length: nat, dropped: nat)
    requires
        length > 0,
        pow2((length - 1) as nat) <= count < pow2(length),
        dropped <= length,
    ensures
        count / pow2(dropped) < pow2((length - dropped) as nat),
        dropped < length ==> count / pow2(dropped) >= pow2((length - 1 - dropped) as nat),
{
    let whole = pow2(dropped);
    lemma_pow2_pos(dropped);
    lemma_pow2_adds(dropped, (length - dropped) as nat);
    let above = pow2((length - dropped) as nat);
    let kept = count / whole;
    vstd::arithmetic::div_mod::lemma_fundamental_div_mod(count as int, whole as int);
    let rest = count % whole;
    assert(kept < above) by (nonlinear_arith)
        requires
            whole * kept + rest < whole * above,
            rest >= 0,
            whole > 0,
    ;
    if dropped < length {
        lemma_pow2_adds(dropped, (length - 1 - dropped) as nat);
        let below = pow2((length - 1 - dropped) as nat);
        assert(kept >= below) by (nonlinear_arith)
            requires
                whole * below <= whole * kept + rest,
                rest < whole,
                whole > 0,
        ;
    }
}

/// How many binary digits `count` has.
fn length_of(count: u128) -> (result: u32)
    requires
        0 < count < 0x100_0000_0000_0000_0000_0000_0000_0000,
    ensures
        0 < result <= 120,
        pow2((result - 1) as nat) <= count < pow2(result as nat),
{
    let mut length: u32 = 0;
    let mut above: u128 = 1;
    proof {
        lemma2_to64();
    }
    while above <= count
        invariant
            length <= 120,
            above == pow2(length as nat),
            length > 0 ==> pow2((length - 1) as nat) <= count,
            length == 0 ==> above == 1,
            0 < count < 0x100_0000_0000_0000_0000_0000_0000_0000,
        decreases 121 - length,
    {
        proof {
            lemma_pow2_unfold((length + 1) as nat);
            lemma_pow2_120();
            if length >= 120 {
                assert(false);
            }
        }
        above = above * 2;
        length = length + 1;
    }
    length
}

proof fn lemma_pow2_120()
    ensures
        pow2(120) == 0x100_0000_0000_0000_0000_0000_0000_0000,
{
    lemma2_to64();
    lemma2_to64_rest();
    lemma_pow2_adds(60, 60);
    assert(pow2(60) == 0x1000_0000_0000_0000);
    assert(0x1000_0000_0000_0000 * 0x1000_0000_0000_0000
        == 0x100_0000_0000_0000_0000_0000_0000_0000) by (nonlinear_arith);
}

/// `2^exponent`.
pub(crate) fn power(exponent: u32) -> (result: u128)
    requires
        exponent <= 120,
    ensures
        result == pow2(exponent as nat),
        result > 0,
{
    let mut done: u32 = 0;
    let mut result: u128 = 1;
    proof {
        lemma2_to64();
    }
    while done < exponent
        invariant
            done <= exponent <= 120,
            result == pow2(done as nat),
            result > 0,
        decreases exponent - done,
    {
        proof {
            lemma_pow2_unfold((done + 1) as nat);
            lemma_pow2_120();
            if done + 1 < 120 {
                lemma_pow2_strictly_increases((done + 1) as nat, 120);
            }
        }
        result = result * 2;
        done = done + 1;
    }
    result
}

/// The pattern nearest to `count` grains, or to something more by less than a
/// grain.
fn round(
    count: u128,
    more: bool,
    shift: i32,
    Ghost(numerator): Ghost<nat>,
    Ghost(unit): Ghost<nat>,
    Ghost(grain): Ghost<nat>,
) -> (result: u64)
    requires
        0 < count < 0x100_0000_0000_0000_0000_0000_0000_0000,
        more ==> count >= 0x20_0000_0000_0000,
        -3500 <= shift <= 3500,
        grained(unit, grain, shift as int),
        counted(numerator, grain, count as nat, more),
    ensures
        is_nearest(numerator, unit, result as nat),
        result == nearest(numerator, unit),
{
    let length: u32 = length_of(count);
    proof {
        lemma2_to64();
        lemma2_to64_rest();
    }
    let reach: i32 = length as i32 + shift - 53;
    let place: i32 = if reach > 0 {
        reach
    } else {
        0
    };
    let dropped: i32 = place - shift;
    assert(more ==> length >= 54) by {
        if length < 54 {
            if length < 53 {
                lemma_pow2_strictly_increases(length as nat, 53);
            }
        }
    }
    let result: u64;
    if dropped <= 0 {
        let up: u128 = power((-dropped) as u32);
        proof {
            lemma_pow2_adds(length as nat, (-dropped) as nat);
            lemma_pow2_adds((length - 1) as nat, (-dropped) as nat);
            lemma_fit(length as int - dropped);
            let low = pow2((length - 1) as nat);
            let high = pow2(length as nat);
            assert(low * up <= count * up) by (nonlinear_arith)
                requires
                    low <= count,
            ;
            assert(count * up < high * up) by (nonlinear_arith)
                requires
                    count < high,
                    up > 0,
            ;
        }
        let kept: u128 = count * up;
        let pattern: u128 = (place as u128) * 0x10_0000_0000_0000 + kept;
        proof {
            if place > 0 {
                assert(length - dropped == 53);
                assert(kept >= 0x10_0000_0000_0000);
            }
            lemma_pattern_units(place as nat, kept as nat);
            lemma_pow2_adds(place as nat, (-dropped) as nat);
            let scale = pow2(place as nat);
            let units = double::double_units(pattern as nat);
            assert(units * unit == numerator) by (nonlinear_arith)
                requires
                    units == kept * scale,
                    kept == count * up,
                    grain == unit * (scale * up),
                    numerator == count * grain,
            ;
            if pattern >= INFINITE {
                lemma_overflow(numerator, unit, pattern as nat);
            } else {
                lemma_exact(numerator, unit, pattern as nat);
            }
        }
        result = if pattern >= INFINITE as u128 {
            INFINITE
        } else {
            pattern as u64
        };
    } else if dropped > length as i32 {
        proof {
            assert(place == 0);
            if dropped > length + 1 {
                lemma_pow2_strictly_increases(length as nat, (dropped - 1) as nat);
            }
            lemma_pow2_unfold(dropped as nat);
            vstd::arithmetic::div_mod::lemma_basic_div(count as int, pow2(dropped as nat) as int);
            vstd::arithmetic::div_mod::lemma_small_mod(count as nat, pow2(dropped as nat));
            lemma_rounding(
                numerator,
                unit,
                grain,
                shift as int,
                count as nat,
                more,
                0,
                dropped as nat,
                0,
            );
        }
        result = 0;
    } else {
        let whole: u128 = power(dropped as u32);
        let half: u128 = power((dropped - 1) as u32);
        let kept: u128 = count / whole;
        let rest: u128 = count % whole;
        proof {
            lemma_cut(count as nat, length as nat, dropped as nat);
            lemma_fit(length as int - dropped);
            if place > 0 {
                assert(length - dropped == 53);
            }
        }
        let pattern: u128 = (place as u128) * 0x10_0000_0000_0000 + kept;
        if pattern >= INFINITE as u128 {
            proof {
                lemma_pattern_units(place as nat, kept as nat);
                lemma_grained(unit, grain, shift as int, place as nat, dropped as nat);
                vstd::arithmetic::div_mod::lemma_fundamental_div_mod(count as int, whole as int);
                let scale = pow2(place as nat);
                let units = double::double_units(pattern as nat);
                assert(units * unit <= count * grain) by (nonlinear_arith)
                    requires
                        units == kept * scale,
                        scale * unit == whole * grain,
                        count == whole * kept + rest,
                        rest >= 0,
                ;
                lemma_overflow(numerator, unit, pattern as nat);
            }
            result = INFINITE;
        } else {
            let rounded: u128 = if rest > half || (rest == half && (more || kept % 2 == 1)) {
                pattern + 1
            } else {
                pattern
            };
            proof {
                lemma_rounding(
                    numerator,
                    unit,
                    grain,
                    shift as int,
                    count as nat,
                    more,
                    place as nat,
                    dropped as nat,
                    rounded as nat,
                );
            }
            result = rounded as u64;
        }
    }
    proof {
        lemma_found(numerator, unit, result as nat);
    }
    result
}

/// `2^digits` for at most 53 digits.
proof fn lemma_fit(digits: int)
    requires
        0 <= digits <= 53,
    ensures
        pow2(digits as nat) <= 0x20_0000_0000_0000,
{
    lemma2_to64_rest();
    if digits < 53 {
        lemma_pow2_strictly_increases(digits as nat, 53);
    }
}

proof fn lemma_exact(numerator: nat, unit: nat, pattern: nat)
    requires
        unit > 0,
        pattern <= INFINITE,
        numerator == double::double_units(pattern) * unit,
    ensures
        is_nearest(numerator, unit, pattern),
{
    let here = double::double_units(pattern);
    double::law_larger_patterns_are_larger(pattern, pattern + 1);
    let above = double::double_units(pattern + 1);
    assert(2 * (here * unit) < (here + above) * unit) by (nonlinear_arith)
        requires
            here < above,
            unit > 0,
    ;
    if pattern > 0 {
        double::law_larger_patterns_are_larger((pattern - 1) as nat, pattern);
        let below = double::double_units((pattern - 1) as nat);
        assert((below + here) * unit < 2 * (here * unit)) by (nonlinear_arith)
            requires
                below < here,
                unit > 0,
        ;
    }
}

/// The significand and the place of a finite magnitude.
pub(crate) fn parts(magnitude: u64) -> (result: (u64, u32))
    requires
        magnitude < INFINITE,
    ensures
        double::double_units(magnitude as nat) == result.0 * pow2(result.1 as nat),
        result.0 < 0x20_0000_0000_0000,
        result.1 <= 2045,
        result.1 > 0 ==> result.0 >= 0x10_0000_0000_0000,
        result.0 == 0 <==> magnitude == 0,
{
    let exponent: u64 = magnitude / 0x10_0000_0000_0000;
    let fraction: u64 = magnitude % 0x10_0000_0000_0000;
    proof {
        lemma2_to64();
        assert(fraction * pow2(0) == fraction) by (nonlinear_arith)
            requires
                pow2(0) == 1,
        ;
    }
    if exponent == 0 {
        (fraction, 0)
    } else {
        (0x10_0000_0000_0000 + fraction, (exponent - 1) as u32)
    }
}

pub(crate) fn with_sign(negative: bool, pattern: u64) -> (result: Double)
    requires
        pattern <= INFINITE,
    ensures
        result == signed(negative, pattern as nat),
{
    if negative {
        Double::from_bits(pattern + SIGN)
    } else {
        Double::from_bits(pattern)
    }
}

/// What two finite numbers add up to.
spec fn finite_sum(left: Double, right: Double) -> Double {
    if left.units() + right.units() == 0 {
        signed(left.negative() && right.negative(), 0)
    } else {
        rounded(left.units() + right.units(), 1)
    }
}

/// A number far below the last place of another one moves it by less than a
/// grain of `2^-12` of that place.
proof fn lemma_far_below(significand: nat, place: nat, large: nat)
    requires
        significand < 0x20_0000_0000_0000,
        large >= place + 65,
    ensures
        significand * pow2(place) < pow2((large - 12) as nat),
{
    lemma2_to64_rest();
    lemma_pow2_adds(53, place);
    lemma_pow2_pos(place);
    let scale = pow2(place);
    assert(significand * scale < 0x20_0000_0000_0000 * scale) by (nonlinear_arith)
        requires
            significand < 0x20_0000_0000_0000,
            scale > 0,
    ;
    if large - 12 > place + 53 {
        lemma_pow2_strictly_increases(place + 53, (large - 12) as nat);
    }
}

fn add_far(left: Double, right: Double, large: (u64, u32), small: (u64, u32)) -> (result: Double)
    requires
        left.finite(),
        right.finite(),
        double::double_units(left.magnitude()) == large.0 * pow2(large.1 as nat),
        double::double_units(right.magnitude()) == small.0 * pow2(small.1 as nat),
        0x10_0000_0000_0000 <= large.0 < 0x20_0000_0000_0000,
        small.0 < 0x20_0000_0000_0000,
        small.1 + 65 <= large.1 <= 2045,
    ensures
        result == finite_sum(left, right),
{
    let apart: bool = (left.bits >= SIGN) != (right.bits >= SIGN);
    let ghost grain = pow2((large.1 - 12) as nat);
    let ghost high = double::double_units(left.magnitude());
    let ghost low = double::double_units(right.magnitude());
    let ghost total: int = if apart {
        high - low
    } else {
        (high + low) as int
    };
    proof {
        lemma_pow2_pos((large.1 - 12) as nat);
        lemma2_to64();
        lemma_pow2_adds(12, (large.1 - 12) as nat);
        lemma_far_below(small.0 as nat, small.1 as nat, large.1 as nat);
        lemma_pow2_pos(small.1 as nat);
        let whole = 4096nat * large.0 as nat;
        assert(whole * grain == high) by (nonlinear_arith)
            requires
                whole == 4096 * large.0,
                high == large.0 * (4096 * grain),
        ;
        assert((whole + 1) * grain == whole * grain + grain) by (nonlinear_arith);
        assert(((whole - 1) as nat) * grain == whole * grain - grain) by (nonlinear_arith)
            requires
                whole >= 1,
        ;
        assert(small.0 == 0 ==> low == 0) by (nonlinear_arith)
            requires
                low == small.0 * pow2(small.1 as nat),
        ;
        assert(small.0 > 0 ==> low > 0) by (nonlinear_arith)
            requires
                low == small.0 * pow2(small.1 as nat),
                pow2(small.1 as nat) > 0,
        ;
        assert(0 < high) by (nonlinear_arith)
            requires
                high == whole * grain,
                whole > 1,
                grain > 0,
        ;
        assert(grain < high) by (nonlinear_arith)
            requires
                high == whole * grain,
                whole > 1,
                grain > 0,
        ;
        assert(grain == 1 * grain);
    }
    let whole: u128 = (large.0 as u128) * 4096;
    let more: bool = small.0 > 0;
    let count: u128 = if more && apart {
        whole - 1
    } else {
        whole
    };
    let pattern: u64 = round(
        count,
        more,
        large.1 as i32 - 12,
        Ghost(total as nat),
        Ghost(1),
        Ghost(grain),
    );
    with_sign(left.bits >= SIGN, pattern)
}

fn add_near(left: Double, right: Double, large: (u64, u32), small: (u64, u32)) -> (result: Double)
    requires
        left.finite(),
        right.finite(),
        double::double_units(left.magnitude()) == large.0 * pow2(large.1 as nat),
        double::double_units(right.magnitude()) == small.0 * pow2(small.1 as nat),
        large.0 < 0x20_0000_0000_0000,
        small.0 < 0x20_0000_0000_0000,
        small.1 <= large.1 <= small.1 + 64,
        large.1 <= 2045,
    ensures
        result == finite_sum(left, right),
{
    let apart: bool = (left.bits >= SIGN) != (right.bits >= SIGN);
    let distance: u32 = large.1 - small.1;
    let up: u128 = power(distance);
    let ghost grain = pow2(small.1 as nat);
    let ghost high = double::double_units(left.magnitude());
    let ghost low = double::double_units(right.magnitude());
    proof {
        lemma_pow2_pos(small.1 as nat);
        lemma2_to64();
        lemma2_to64_rest();
        if distance < 64 {
            lemma_pow2_strictly_increases(distance as nat, 64);
        }
        assert(large.0 * up <= 0x20_0000_0000_0000 * 0x1_0000_0000_0000_0000) by (nonlinear_arith)
            requires
                large.0 <= 0x20_0000_0000_0000,
                up <= 0x1_0000_0000_0000_0000,
        ;
        lemma_pow2_adds(distance as nat, small.1 as nat);
    }
    let first: u128 = (large.0 as u128) * up;
    let second: u128 = small.0 as u128;
    proof {
        assert(first * grain == high) by (nonlinear_arith)
            requires
                first == large.0 * up,
                high == large.0 * (up * grain),
        ;
        assert((first + second) * grain == high + low) by (nonlinear_arith)
            requires
                first * grain == high,
                second * grain == low,
        ;
        if first >= second {
            assert(((first - second) as nat) * grain == high - low) by (nonlinear_arith)
                requires
                    first * grain == high,
                    second * grain == low,
                    first >= second,
            ;
        } else {
            assert(((second - first) as nat) * grain == low - high) by (nonlinear_arith)
                requires
                    first * grain == high,
                    second * grain == low,
                    first < second,
            ;
        }
        assert(grain == 1 * grain);
    }
    if !apart {
        if first + second == 0 {
            return with_sign(left.bits >= SIGN, 0);
        }
        proof {
            lemma_positive((first + second) as nat, grain);
        }
        let pattern: u64 = round(
            first + second,
            false,
            small.1 as i32,
            Ghost((high + low) as nat),
            Ghost(1),
            Ghost(grain),
        );
        return with_sign(left.bits >= SIGN, pattern);
    }
    if first == second {
        return Double::zero();
    }
    if first > second {
        proof {
            lemma_positive((first - second) as nat, grain);
        }
        let pattern: u64 = round(
            first - second,
            false,
            small.1 as i32,
            Ghost((high - low) as nat),
            Ghost(1),
            Ghost(grain),
        );
        return with_sign(left.bits >= SIGN, pattern);
    }
    proof {
        lemma_positive((second - first) as nat, grain);
    }
    let pattern: u64 = round(
        second - first,
        false,
        small.1 as i32,
        Ghost((low - high) as nat),
        Ghost(1),
        Ghost(grain),
    );
    with_sign(right.bits >= SIGN, pattern)
}

proof fn lemma_positive(count: nat, grain: nat)
    requires
        count > 0,
        grain > 0,
    ensures
        count * grain > 0,
{
    assert(count * grain > 0) by (nonlinear_arith)
        requires
            count > 0,
            grain > 0,
    ;
}

fn add_finite(left: Double, right: Double) -> (result: Double)
    requires
        left.finite(),
        right.finite(),
    ensures
        result == finite_sum(left, right),
{
    let first: (u64, u32) = parts(left.magnitude_bits());
    let second: (u64, u32) = parts(right.magnitude_bits());
    if first.1 >= second.1 {
        if first.1 - second.1 > 64 {
            add_far(left, right, first, second)
        } else {
            add_near(left, right, first, second)
        }
    } else {
        if second.1 - first.1 > 64 {
            add_far(right, left, second, first)
        } else {
            add_near(right, left, second, first)
        }
    }
}

impl Double {
    /// `self + other`.
    pub fn plus(self, other: Double) -> (result: Double)
        ensures
            result == sum(self, other),
    {
        if self.is_nan() || other.is_nan() {
            return Double::from_bits(NOT_A_NUMBER);
        }
        if !self.is_finite() {
            if !other.is_finite() && (self.bits >= SIGN) != (other.bits >= SIGN) {
                return Double::from_bits(NOT_A_NUMBER);
            }
            return self;
        }
        if !other.is_finite() {
            return other;
        }
        add_finite(self, other)
    }

    /// `self - other`.
    pub fn minus(self, other: Double) -> (result: Double)
        ensures
            result == difference(self, other),
    {
        self.plus(other.neg())
    }

    /// `self * other`.
    pub fn times(self, other: Double) -> (result: Double)
        ensures
            result == product(self, other),
    {
        if self.is_nan() || other.is_nan() {
            return Double::from_bits(NOT_A_NUMBER);
        }
        let negative: bool = (self.bits >= SIGN) != (other.bits >= SIGN);
        let left: u64 = self.magnitude_bits();
        let right: u64 = other.magnitude_bits();
        if left == INFINITE || right == INFINITE {
            if left == 0 || right == 0 {
                return Double::from_bits(NOT_A_NUMBER);
            }
            return with_sign(negative, INFINITE);
        }
        let first: (u64, u32) = parts(left);
        let second: (u64, u32) = parts(right);
        let ghost high = double::double_units(self.magnitude());
        let ghost low = double::double_units(other.magnitude());
        let ghost unit = pow2(1074);
        let ghost grain = pow2((first.1 + second.1) as nat);
        proof {
            lemma_pow2_pos(1074);
            lemma_pow2_pos((first.1 + second.1) as nat);
            lemma_pow2_adds(first.1 as nat, second.1 as nat);
            let a = pow2(first.1 as nat);
            let b = pow2(second.1 as nat);
            assert(high * low == (first.0 * second.0) * grain) by (nonlinear_arith)
                requires
                    high == first.0 * a,
                    low == second.0 * b,
                    grain == a * b,
            ;
            assert(first.0 * second.0 < 0x400_0000_0000_0000_0000_0000_0000) by (nonlinear_arith)
                requires
                    first.0 < 0x20_0000_0000_0000,
                    second.0 < 0x20_0000_0000_0000,
            ;
            let shift = first.1 + second.1 - 1074;
            if shift >= 0 {
                lemma_pow2_adds(1074, shift as nat);
            } else {
                lemma_pow2_adds((first.1 + second.1) as nat, (-shift) as nat);
            }
        }
        let count: u128 = (first.0 as u128) * (second.0 as u128);
        if count == 0 {
            proof {
                assert(high * low == 0) by (nonlinear_arith)
                    requires
                        high * low == count * grain,
                        count == 0,
                ;
                lemma_nothing(unit);
            }
            return with_sign(negative, 0);
        }
        let pattern: u64 = round(
            count,
            false,
            (first.1 + second.1) as i32 - 1074,
            Ghost(high * low),
            Ghost(unit),
            Ghost(grain),
        );
        with_sign(negative, pattern)
    }
}

/// What is left of `left` when `right` has been taken off as often as it goes, with
/// the sign of `left`.
pub open spec fn remainder(left: Double, right: Double) -> Double {
    if left.nan() || right.nan() || infinite(left) || right.magnitude() == 0 {
        not_a_number()
    } else if infinite(right) {
        left
    } else {
        signed(
            left.negative(),
            nearest(
                double::double_units(left.magnitude()) % double::double_units(right.magnitude()),
                1,
            ),
        )
    }
}

/// The remainder that is not below zero.
pub open spec fn least_remainder(left: Double, right: Double) -> Double {
    let rest = remainder(left, right);
    if rest.less(Double { bits: 0 }) {
        sum(rest, right.absolute())
    } else {
        rest
    }
}

/// Twice as much leaves twice the rest.
proof fn lemma_doubled_rest(significand: nat, divisor: nat, done: nat)
    requires
        divisor > 0,
    ensures
        (significand * pow2(done + 1)) % divisor == (2 * ((significand * pow2(done)) % divisor))
            % divisor,
{
    let before = significand * pow2(done);
    lemma_pow2_unfold(done + 1);
    let power = pow2(done);
    assert(significand * (2 * power) == (significand * power) * 2) by (nonlinear_arith);
    vstd::arithmetic::div_mod::lemma_mul_mod_noop_left(before as int, 2, divisor as int);
}

impl Double {
    /// `self % other`.
    pub fn rem(self, other: Double) -> (result: Double)
        ensures
            result == remainder(self, other),
    {
        let left: u64 = self.magnitude_bits();
        let right: u64 = other.magnitude_bits();
        if left >= INFINITE || right > INFINITE || right == 0 {
            return Double::from_bits(NOT_A_NUMBER);
        }
        if right == INFINITE {
            return self;
        }
        let negative: bool = self.bits >= SIGN;
        let first: (u64, u32) = parts(left);
        let second: (u64, u32) = parts(right);
        let ghost dividend = double::double_units(self.magnitude());
        let ghost divisor = double::double_units(other.magnitude());
        let ghost grain = pow2(second.1 as nat);
        proof {
            lemma_pow2_pos(second.1 as nat);
            lemma_positive(second.0 as nat, grain);
        }
        if first.1 < second.1 {
            proof {
                let low = pow2(first.1 as nat);
                lemma_pow2_pos(first.1 as nat);
                lemma_pow2_unfold((first.1 + 1) as nat);
                if first.1 + 1 < second.1 {
                    lemma_pow2_strictly_increases((first.1 + 1) as nat, second.1 as nat);
                }
                assert(first.0 * low < second.0 * grain) by (nonlinear_arith)
                    requires
                        first.0 < 0x20_0000_0000_0000,
                        second.0 >= 0x10_0000_0000_0000,
                        grain >= 2 * low,
                        low > 0,
                ;
                vstd::arithmetic::div_mod::lemma_small_mod(dividend, divisor);
                law_exact_results_are_kept(self.magnitude(), 1);
            }
            return self;
        }
        let up: u32 = first.1 - second.1;
        let mut rest: u64 = first.0 % second.0;
        let mut done: u32 = 0;
        proof {
            lemma2_to64();
            assert(first.0 * pow2(0) == first.0) by (nonlinear_arith)
                requires
                    pow2(0) == 1,
            ;
        }
        while done < up
            invariant
                done <= up,
                0 < second.0 < 0x20_0000_0000_0000,
                rest < second.0,
                rest == (first.0 as nat * pow2(done as nat)) % (second.0 as nat),
            decreases up - done,
        {
            proof {
                lemma_doubled_rest(first.0 as nat, second.0 as nat, done as nat);
            }
            rest = 2 * rest % second.0;
            done = done + 1;
        }
        proof {
            let high = pow2(up as nat);
            lemma_pow2_adds(second.1 as nat, up as nat);
            vstd::arithmetic::div_mod::lemma_truncate_middle(
                (first.0 * high) as int,
                grain as int,
                second.0 as int,
            );
            assert(first.0 * (grain * high) == grain * (first.0 * high)) by (nonlinear_arith);
            assert(second.0 * grain == grain * second.0) by (nonlinear_arith);
            assert(grain * rest == rest * grain) by (nonlinear_arith);
            assert(dividend % divisor == rest * grain);
            assert(1 * grain == grain);
        }
        if rest == 0 {
            proof {
                assert(0 * grain == 0);
                lemma_nothing(1);
            }
            return with_sign(negative, 0);
        }
        let pattern: u64 = round(
            rest as u128,
            false,
            second.1 as i32,
            Ghost(dividend % divisor),
            Ghost(1),
            Ghost(grain),
        );
        with_sign(negative, pattern)
    }

    /// The remainder that is not below zero.
    pub fn rem_euclid(self, other: Double) -> (result: Double)
        ensures
            result == least_remainder(self, other),
    {
        let rest: Double = self.rem(other);
        if rest.lt(Double::zero()) {
            rest.plus(other.abs())
        } else {
            rest
        }
    }
}

pub proof fn lemma_nothing(unit: nat)
    requires
        unit > 0,
    ensures
        nearest(0, unit) == 0,
{
    assert(double::double_units(0) == 0);
    assert(0 * unit == 0);
    lemma_exact(0, unit, 0);
    lemma_found(0, unit, 0);
}

/// A significand moved up to where its leading one stands at bit 52, and by how
/// many places it moved.
fn lift(significand: u64) -> (result: (u64, u32))
    requires
        0 < significand < 0x20_0000_0000_0000,
    ensures
        0x10_0000_0000_0000 <= result.0 < 0x20_0000_0000_0000,
        result.0 == significand * pow2(result.1 as nat),
        result.1 <= 52,
{
    let mut full: u64 = significand;
    let mut places: u32 = 0;
    proof {
        lemma2_to64();
        assert(significand * pow2(0) == significand) by (nonlinear_arith)
            requires
                pow2(0) == 1,
        ;
    }
    while full < 0x10_0000_0000_0000
        invariant
            0 < significand,
            0 < full < 0x20_0000_0000_0000,
            full == significand * pow2(places as nat),
            places <= 52,
        decreases 0x20_0000_0000_0000 - full,
    {
        proof {
            lemma2_to64_rest();
            lemma_pow2_unfold((places + 1) as nat);
            let scale = pow2(places as nat);
            assert(significand * (2 * scale) == 2 * (significand * scale)) by (nonlinear_arith);
            assert(scale <= full) by (nonlinear_arith)
                requires
                    full == significand * scale,
                    significand >= 1,
            ;
            if places == 52 {
                assert(false);
            }
        }
        full = full * 2;
        places = places + 1;
    }
    (full, places)
}

impl Double {
    /// `self / other`.
    pub fn over(self, other: Double) -> (result: Double)
        ensures
            result == quotient(self, other),
    {
        if self.is_nan() || other.is_nan() {
            return Double::from_bits(NOT_A_NUMBER);
        }
        let negative: bool = (self.bits >= SIGN) != (other.bits >= SIGN);
        let left: u64 = self.magnitude_bits();
        let right: u64 = other.magnitude_bits();
        if left == INFINITE {
            if right == INFINITE {
                return Double::from_bits(NOT_A_NUMBER);
            }
            return with_sign(negative, INFINITE);
        }
        if right == INFINITE {
            return with_sign(negative, 0);
        }
        if right == 0 {
            if left == 0 {
                return Double::from_bits(NOT_A_NUMBER);
            }
            return with_sign(negative, INFINITE);
        }
        let ghost high = double::double_units(self.magnitude());
        let ghost low = double::double_units(other.magnitude());
        let first: (u64, u32) = parts(left);
        let second: (u64, u32) = parts(right);
        proof {
            lemma_pow2_pos(second.1 as nat);
            lemma_positive(second.0 as nat, pow2(second.1 as nat));
        }
        if left == 0 {
            proof {
                assert(high == 0);
                assert(high * pow2(1074) == 0) by (nonlinear_arith)
                    requires
                        high == 0,
                ;
                lemma_nothing(low);
            }
            return with_sign(negative, 0);
        }
        let lifted: (u64, u32) = lift(first.0);
        let top: u128 = (lifted.0 as u128) * 0x1_0000_0000_0000_0000;
        let count: u128 = top / (second.0 as u128);
        let rest: u128 = top % (second.0 as u128);
        let shift: i32 = first.1 as i32 - lifted.1 as i32 - second.1 as i32 + 1010;
        let ghost rise = (first.1 - lifted.1 + 1010) as nat;
        let ghost numerator = high * pow2(1074);
        let ghost grain = second.0 as nat * pow2(rise);
        proof {
            lemma2_to64_rest();
            lemma_pow2_pos(rise);
            lemma_positive(second.0 as nat, pow2(rise));
            vstd::arithmetic::div_mod::lemma_fundamental_div_mod(top as int, second.0 as int);
            lemma_pow2_adds(first.1 as nat, 1074);
            lemma_pow2_adds(lifted.1 as nat, 64);
            lemma_pow2_adds((lifted.1 + 64) as nat, rise);
            let base = first.0 as nat;
            let up = pow2(lifted.1 as nat);
            let wide = pow2(64);
            let scale = pow2(rise);
            let place = pow2(first.1 as nat);
            let unit = pow2(1074);
            assert(numerator == top * scale) by (nonlinear_arith)
                requires
                    numerator == high * unit,
                    high == base * place,
                    place * unit == (up * wide) * scale,
                    top == (base * up) * wide,
            ;
            let divisor = second.0 as nat;
            assert(top * scale == count * grain + rest * scale) by (nonlinear_arith)
                requires
                    top == divisor * count + rest,
                    grain == divisor * scale,
            ;
            assert((count + 1) * grain == count * grain + grain) by (nonlinear_arith);
            assert(rest * scale < grain) by (nonlinear_arith)
                requires
                    rest < divisor,
                    grain == divisor * scale,
                    scale > 0,
            ;
            assert(rest > 0 ==> rest * scale > 0) by (nonlinear_arith)
                requires
                    scale > 0,
            ;
            assert(rest == 0 ==> rest * scale == 0) by (nonlinear_arith);
            assert(count >= 0x20_0000_0000_0000) by (nonlinear_arith)
                requires
                    top == divisor * count + rest,
                    rest < divisor,
                    divisor < 0x20_0000_0000_0000,
                    top >= 0x10_0000_0000_0000 * 0x1_0000_0000_0000_0000,
            ;
            assert(count <= top) by (nonlinear_arith)
                requires
                    top == divisor * count + rest,
                    divisor >= 1,
                    rest >= 0,
                    count >= 0,
            ;
            let fall = pow2(second.1 as nat);
            if shift >= 0 {
                lemma_pow2_adds(second.1 as nat, shift as nat);
                assert(divisor * (fall * pow2(shift as nat)) == (divisor * fall) * pow2(
                    shift as nat,
                )) by (nonlinear_arith);
            } else {
                lemma_pow2_adds(rise, (-shift) as nat);
                assert(divisor * (scale * pow2((-shift) as nat)) == (divisor * scale) * pow2(
                    (-shift) as nat,
                )) by (nonlinear_arith);
            }
        }
        let pattern: u64 = round(
            count,
            rest > 0,
            shift,
            Ghost(numerator),
            Ghost(low),
            Ghost(grain),
        );
        with_sign(negative, pattern)
    }

    /// A whole number.
    pub fn whole(value: i64) -> (result: Double)
        ensures
            result == whole_number(value as int),
    {
        let ghost grain = pow2(1074);
        proof {
            lemma_pow2_pos(1074);
            assert(1 * grain == grain);
            lemma_nothing(1);
        }
        if value == 0 {
            assert(0 * grain == 0);
            return Double::zero();
        }
        if value < 0 {
            let count: u128 = (-(value as i128)) as u128;
            proof {
                lemma_positive(count as nat, grain);
                assert(value * grain == -(count * grain)) by (nonlinear_arith)
                    requires
                        count == -value,
                ;
            }
            let pattern: u64 = round(
                count,
                false,
                1074,
                Ghost(count as nat * grain),
                Ghost(1),
                Ghost(grain),
            );
            return with_sign(true, pattern);
        }
        proof {
            lemma_positive(value as nat, grain);
        }
        let pattern: u64 = round(
            value as u128,
            false,
            1074,
            Ghost(value as nat * grain),
            Ghost(1),
            Ghost(grain),
        );
        with_sign(false, pattern)
    }
}

/// The number nearest to a whole number.
pub open spec fn whole_number(value: int) -> Double {
    rounded(value * pow2(1074), 1)
}

/// That `pattern` is the double-precision magnitude nearest to the square root
/// of `square` square units, with a tie going to the even pattern.
pub open spec fn is_nearest_root(square: nat, pattern: nat) -> bool {
    let even = pattern % 2 == 0;
    let here = double::double_units(pattern);
    &&& pattern <= INFINITE
    &&& pattern > 0 ==> {
        let middle = double::double_units((pattern - 1) as nat) + here;
        middle * middle < 4 * square || (even && middle * middle == 4 * square)
    }
    &&& pattern < INFINITE ==> {
        let middle = here + double::double_units(pattern + 1);
        4 * square < middle * middle || (even && 4 * square == middle * middle)
    }
}

/// The double-precision magnitude nearest to the square root of `square` square
/// units.
pub open spec fn nearest_root(square: nat) -> nat {
    choose|pattern: nat| is_nearest_root(square, pattern)
}

/// The square root.
pub open spec fn root(number: Double) -> Double {
    if number.nan() {
        not_a_number()
    } else if number.magnitude() == 0 {
        number
    } else if number.negative() {
        not_a_number()
    } else if infinite(number) {
        number
    } else {
        signed(false, nearest_root(double::double_units(number.magnitude()) * pow2(1074)))
    }
}

proof fn lemma_squares_keep_order(left: nat, right: nat)
    ensures
        left <= right ==> left * left <= right * right,
        left < right ==> left * left < right * right,
{
    assert(left <= right ==> left * left <= right * right) by (nonlinear_arith);
    assert(left < right ==> left * left < right * right) by (nonlinear_arith);
}

proof fn lemma_root_order(square: nat, left: nat, right: nat)
    requires
        is_nearest_root(square, left),
        is_nearest_root(square, right),
    ensures
        left <= right,
{
    if right < left {
        let here = double::double_units(right);
        let above = double::double_units(right + 1);
        let below = double::double_units((left - 1) as nat);
        let there = double::double_units(left);
        double::law_magnitudes_keep_order(right, (left - 1) as nat);
        double::law_magnitudes_keep_order(right + 1, left);
        if right + 1 < left {
            double::law_larger_patterns_are_larger(right, (left - 1) as nat);
        }
        lemma_squares_keep_order(here + above, below + there);
        assert(false);
    }
}

proof fn lemma_found_root(square: nat, pattern: nat)
    requires
        is_nearest_root(square, pattern),
    ensures
        nearest_root(square) == pattern,
{
    lemma_root_order(square, nearest_root(square), pattern);
    lemma_root_order(square, pattern, nearest_root(square));
}

/// The whole part of a square root.
fn whole_root(square: u128) -> (result: u128)
    requires
        square < 0x1000_0000_0000_0000_0000_0000_0000,
    ensures
        result * result <= square < (result + 1) * (result + 1),
        result < 0x40_0000_0000_0000,
{
    let mut result: u128 = 0;
    let mut width: u128 = 0x40_0000_0000_0000;
    assert(0x40_0000_0000_0000 * 0x40_0000_0000_0000 == 0x1000_0000_0000_0000_0000_0000_0000)
        by (nonlinear_arith);
    while width > 1
        invariant
            1 <= width,
            result + width <= 0x40_0000_0000_0000,
            result * result <= square < (result + width) * (result + width),
        decreases width,
    {
        let half: u128 = width / 2;
        let middle: u128 = result + half;
        proof {
            lemma_squares_keep_order(middle as nat, 0x40_0000_0000_0000);
            assert(0x40_0000_0000_0000 * 0x40_0000_0000_0000
                == 0x1000_0000_0000_0000_0000_0000_0000) by (nonlinear_arith);
        }
        if middle * middle <= square {
            width = width - half;
            result = middle;
        } else {
            width = half;
        }
    }
    result
}

proof fn lemma_root_rounding(square: nat, grain: nat, radicand: nat, count: nat, place: nat, result: nat)
    requires
        place > 0,
        grain == pow2((place - 1) as nat),
        square == radicand * (grain * grain),
        count * count <= radicand < (count + 1) * (count + 1),
        0x20_0000_0000_0000 <= count < 0x40_0000_0000_0000,
        place * 0x10_0000_0000_0000 + count / 2 + 1 < INFINITE,
        ({
            let pattern = place * 0x10_0000_0000_0000 + count / 2;
            result == (if count % 2 == 1 && (count * count < radicand || (count / 2) % 2 == 1) {
                pattern + 1
            } else {
                pattern
            })
        }),
    ensures
        is_nearest_root(square, result),
{
    let kept = count / 2;
    let pattern = place * 0x10_0000_0000_0000 + kept;
    let here = double::double_units(pattern);
    let above = double::double_units(pattern + 1);
    lemma_pow2_pos((place - 1) as nat);
    lemma_pow2_unfold(place);
    lemma_pattern_units(place, kept);
    assert(here == (2 * kept) * grain) by (nonlinear_arith)
        requires
            here == kept * (2 * grain),
    ;
    assert(above == (2 * kept + 2) * grain) by (nonlinear_arith)
        requires
            above == (kept + 1) * (2 * grain),
    ;
    let odd = 2 * kept + 1;
    let middle = here + above;
    assert(middle == 2 * (odd * grain)) by (nonlinear_arith)
        requires
            middle == here + above,
            odd == 2 * kept + 1,
            here == (2 * kept) * grain,
            above == (2 * kept + 2) * grain,
    ;
    assert(middle * middle == 4 * ((odd * odd) * (grain * grain))) by (nonlinear_arith)
        requires
            middle == 2 * (odd * grain),
    ;
    lemma_positive(grain, grain);
    let tile = grain * grain;
    lemma_tiles(odd * odd, radicand, tile);
    lemma_tiles(radicand, odd * odd, tile);
    assert(pattern % 2 == kept % 2) by {
        assert(pattern == 2 * (place * 0x8_0000_0000_0000) + kept);
    }
    // The root stands at or above the lower number, and below the upper one.
    lemma_squares_keep_order(2 * kept, count);
    assert(here * here <= square) by {
        assert(here * here == ((2 * kept) * (2 * kept)) * tile) by (nonlinear_arith)
            requires
                here == (2 * kept) * grain,
                tile == grain * grain,
        ;
        lemma_tiles((2 * kept) * (2 * kept), radicand, tile);
    }
    lemma_squares_keep_order(count + 1, 2 * kept + 2);
    assert(square < above * above) by {
        assert(above * above == ((2 * kept + 2) * (2 * kept + 2)) * tile) by (nonlinear_arith)
            requires
                above == (2 * kept + 2) * grain,
                tile == grain * grain,
        ;
        lemma_tiles(radicand, (2 * kept + 2) * (2 * kept + 2), tile);
    }
    if result == pattern + 1 {
        double::law_larger_patterns_are_larger(result, result + 1);
        let next = double::double_units(result + 1);
        lemma_squares_keep_order(2 * above, above + next);
        assert((2 * above) * (2 * above) == 4 * (above * above)) by (nonlinear_arith);
        assert(double::double_units((result - 1) as nat) == here);
    } else {
        double::law_larger_patterns_are_larger((pattern - 1) as nat, pattern);
        let below = double::double_units((pattern - 1) as nat);
        lemma_squares_keep_order(below + here, 2 * here);
        assert((2 * here) * (2 * here) == 4 * (here * here)) by (nonlinear_arith);
        if count % 2 == 0 {
            assert(odd == count + 1);
        }
    }
}

proof fn lemma_tiles(left: nat, right: nat, tile: nat)
    requires
        tile > 0,
    ensures
        left <= right ==> left * tile <= right * tile,
        left < right ==> left * tile < right * tile,
{
    assert(left <= right ==> left * tile <= right * tile) by (nonlinear_arith);
    assert(left < right ==> left * tile < right * tile) by (nonlinear_arith)
        requires
            tile > 0,
    ;
}

impl Double {
    /// The square root.
    pub fn sqrt(self) -> (result: Double)
        ensures
            result == root(self),
    {
        if self.is_nan() {
            return Double::from_bits(NOT_A_NUMBER);
        }
        let magnitude: u64 = self.magnitude_bits();
        if magnitude == 0 {
            return self;
        }
        if self.bits >= SIGN {
            return Double::from_bits(NOT_A_NUMBER);
        }
        if magnitude == INFINITE {
            return self;
        }
        let number: (u64, u32) = parts(magnitude);
        let lifted: (u64, u32) = lift(number.0);
        // The place of the radicand has to be even.
        let rise: u32 = number.1 + 1020 - lifted.1;
        let odd: bool = rise % 2 == 1;
        let up: u128 = if odd {
            0x80_0000_0000_0000
        } else {
            0x40_0000_0000_0000
        };
        let radicand: u128 = (lifted.0 as u128) * up;
        let shift: u32 = rise / 2;
        let place: u64 = shift as u64 + 1;
        proof {
            assert(lifted.0 * up < 0x1000_0000_0000_0000_0000_0000_0000) by (nonlinear_arith)
                requires
                    lifted.0 < 0x20_0000_0000_0000,
                    up <= 0x80_0000_0000_0000,
            ;
        }
        let count: u128 = whole_root(radicand);
        proof {
            assert(radicand >= 0x20_0000_0000_0000 * 0x20_0000_0000_0000) by (nonlinear_arith)
                requires
                    radicand == lifted.0 * up,
                    lifted.0 >= 0x10_0000_0000_0000,
                    up >= 0x40_0000_0000_0000,
            ;
            if count < 0x20_0000_0000_0000 {
                lemma_squares_keep_order((count + 1) as nat, 0x20_0000_0000_0000);
                assert(false);
            }
            lemma_squares_keep_order(count as nat, 0x40_0000_0000_0000);
        }
        let kept: u128 = count / 2;
        let pattern: u64 = place * 0x10_0000_0000_0000 + kept as u64;
        let result: u64 = if count % 2 == 1 && (count * count < radicand || kept % 2 == 1) {
            pattern + 1
        } else {
            pattern
        };
        proof {
            let units = double::double_units(self.magnitude());
            let square = units * pow2(1074);
            let grain = pow2(shift as nat);
            lemma2_to64();
            lemma2_to64_rest();
            lemma_pow2_adds(shift as nat, shift as nat);
            lemma_pow2_adds(number.1 as nat, 1074);
            let base = number.0 as nat;
            let lifting = pow2(lifted.1 as nat);
            let extra: nat = if odd {
                55
            } else {
                54
            };
            assert(up == pow2(extra));
            lemma_pow2_adds(lifted.1 as nat, extra);
            lemma_pow2_adds((lifted.1 + extra) as nat, (shift + shift) as nat);
            let tile = grain * grain;
            let rest = pow2(number.1 as nat);
            let unit = pow2(1074);
            assert(lifted.1 + extra + shift + shift == number.1 + 1074);
            assert(square == radicand * tile) by (nonlinear_arith)
                requires
                    square == units * unit,
                    units == base * rest,
                    rest * unit == (lifting * up) * tile,
                    radicand == (base * lifting) * up,
            ;
            lemma_root_rounding(
                square,
                grain,
                radicand as nat,
                count as nat,
                place as nat,
                result as nat,
            );
            lemma_found_root(square, result as nat);
        }
        Double::from_bits(result)
    }
}

proof fn lemma_search(numerator: nat, denominator: nat, pattern: nat) -> (found: nat)
    requires
        pattern <= INFINITE,
        pattern > 0 ==> {
            let middle = (double::double_units((pattern - 1) as nat) + double::double_units(
                pattern,
            )) * denominator;
            middle < 2 * numerator || (pattern % 2 == 0 && middle == 2 * numerator)
        },
    ensures
        is_nearest(numerator, denominator, found),
    decreases INFINITE - pattern,
{
    let middle = (double::double_units(pattern) + double::double_units(pattern + 1)) * denominator;
    if pattern == INFINITE || 2 * numerator < middle || (pattern % 2 == 0 && 2 * numerator
        == middle) {
        pattern
    } else {
        lemma_search(numerator, denominator, pattern + 1)
    }
}

/// There is always a nearest number, infinity among them.
pub proof fn law_there_is_a_nearest(numerator: nat, denominator: nat)
    ensures
        is_nearest(numerator, denominator, nearest(numerator, denominator)),
        nearest(numerator, denominator) <= INFINITE,
{
    let found = lemma_search(numerator, denominator, 0);
    assert(is_nearest(numerator, denominator, found));
}

/// A sum is no number only where a part is none, or where two infinities pull
/// apart.
pub proof fn law_sums_are_numbers(left: Double, right: Double)
    ensures
        sum(left, right).nan() <==> (left.nan() || right.nan() || (infinite(left) && infinite(right)
            && left.negative() != right.negative())),
{
    let total = left.units() + right.units();
    law_there_is_a_nearest(total as nat, 1);
    law_there_is_a_nearest((-total) as nat, 1);
}

/// A product is no number only where a factor is none, or where zero meets an
/// infinity.
pub proof fn law_products_are_numbers(left: Double, right: Double)
    ensures
        product(left, right).nan() <==> (left.nan() || right.nan() || (infinite(left)
            && right.magnitude() == 0) || (infinite(right) && left.magnitude() == 0)),
{
    law_there_is_a_nearest(
        double::double_units(left.magnitude()) * double::double_units(right.magnitude()),
        pow2(1074),
    );
}

/// A quotient is no number only where a side is none, or where both are zero or
/// both infinite.
pub proof fn law_quotients_are_numbers(left: Double, right: Double)
    ensures
        quotient(left, right).nan() <==> (left.nan() || right.nan() || (infinite(left) && infinite(
            right,
        )) || (left.magnitude() == 0 && right.magnitude() == 0)),
{
    law_there_is_a_nearest(
        double::double_units(left.magnitude()) * pow2(1074),
        double::double_units(right.magnitude()),
    );
}

/// Multiplying by one gives the number back.
pub proof fn law_one_times_a_number(number: Double)
    requires
        number.finite(),
    ensures
        product(Double { bits: 0x3ff0_0000_0000_0000 }, number) == number,
{
    lemma_one();
    let units = double::double_units(number.magnitude());
    assert(pow2(1074) * units == units * pow2(1074)) by (nonlinear_arith);
    law_exact_results_are_kept(number.magnitude(), pow2(1074));
}

/// A finite number taken from itself leaves positive zero.
pub proof fn law_a_number_less_itself_is_zero(number: Double)
    requires
        number.finite(),
    ensures
        difference(number, number) == (Double { bits: 0 }),
{
    assert(number.negated().units() == -number.units());
}

/// Zero times a finite number is a zero.
pub proof fn law_zero_times_a_number(number: Double, zero: Double)
    requires
        number.finite(),
        zero.magnitude() == 0,
    ensures
        product(number, zero).magnitude() == 0,
{
    let units = double::double_units(number.magnitude());
    assert(double::double_units(0) == 0);
    assert(units * 0 == 0);
    lemma_pow2_pos(1074);
    lemma_nothing(pow2(1074));
}

/// Adding a zero to a finite number does not change the number.
pub proof fn law_zero_adds_nothing(number: Double, zero: Double)
    requires
        number.finite(),
        zero.magnitude() == 0,
    ensures
        sum(number, zero).equals(number),
        number.magnitude() > 0 ==> sum(number, zero) == number,
{
    assert(double::double_units(0) == 0);
    let pattern = number.magnitude();
    if pattern > 0 {
        double::law_larger_patterns_are_larger(0, pattern);
        law_exact_results_are_kept(pattern, 1);
        let units = double::double_units(pattern);
        assert(units * 1 == units);
    }
}

proof fn lemma_search_root(square: nat, pattern: nat) -> (found: nat)
    requires
        pattern <= INFINITE,
        pattern > 0 ==> {
            let middle = double::double_units((pattern - 1) as nat) + double::double_units(pattern);
            middle * middle < 4 * square || (pattern % 2 == 0 && middle * middle == 4 * square)
        },
    ensures
        is_nearest_root(square, found),
    decreases INFINITE - pattern,
{
    let middle = double::double_units(pattern) + double::double_units(pattern + 1);
    if pattern == INFINITE || 4 * square < middle * middle || (pattern % 2 == 0 && 4 * square
        == middle * middle) {
        pattern
    } else {
        lemma_search_root(square, pattern + 1)
    }
}

/// There is always a nearest root.
pub proof fn law_there_is_a_nearest_root(square: nat)
    ensures
        is_nearest_root(square, nearest_root(square)),
        nearest_root(square) <= INFINITE,
{
    let found = lemma_search_root(square, 0);
    assert(is_nearest_root(square, found));
}

/// One, in units.
pub proof fn lemma_one()
    ensures
        double::double_units(0x3ff0_0000_0000_0000) == pow2(1074),
        pow2(1074) > 0,
{
    let one: nat = 0x3ff0_0000_0000_0000;
    assert(one / 0x10_0000_0000_0000 == 1023);
    assert(one % 0x10_0000_0000_0000 == 0);
    lemma2_to64_rest();
    lemma_pow2_adds(52, 1022);
    lemma_pow2_pos(1074);
}

/// A smaller number over a larger one is at most one.
pub proof fn law_a_smaller_over_a_larger(smaller: Double, larger: Double)
    requires
        !smaller.negative(),
        smaller.less(larger),
    ensures
        !quotient(smaller, larger).negative(),
        quotient(smaller, larger).magnitude() <= 0x3ff0_0000_0000_0000,
{
    if !infinite(larger) {
        let one: nat = 0x3ff0_0000_0000_0000;
        let unit = pow2(1074);
        let small = double::double_units(smaller.magnitude());
        let large = double::double_units(larger.magnitude());
        lemma_one();
        double::law_larger_patterns_are_larger(smaller.magnitude(), larger.magnitude());
        assert(small * unit <= unit * large) by (nonlinear_arith)
            requires
                small <= large,
        ;
        law_exact_results_are_kept(one, large);
        law_there_is_a_nearest(small * unit, large);
        law_there_is_a_nearest(unit * large, large);
        law_nearest_keeps_order(
            small * unit,
            unit * large,
            large,
            nearest(small * unit, large),
            nearest(unit * large, large),
        );
    }
}

/// No more than one times a number is no more than the number.
pub proof fn law_a_fraction_does_not_enlarge(number: Double, fraction: Double)
    requires
        number.finite(),
        fraction.magnitude() <= 0x3ff0_0000_0000_0000,
    ensures
        product(number, fraction).magnitude() <= number.magnitude(),
        product(number, fraction).negative() == (number.negative() != fraction.negative()),
{
    let one: nat = 0x3ff0_0000_0000_0000;
    let unit = pow2(1074);
    let units = double::double_units(number.magnitude());
    let part = double::double_units(fraction.magnitude());
    lemma_one();
    double::law_magnitudes_keep_order(fraction.magnitude(), one);
    assert(units * part <= units * unit) by (nonlinear_arith)
        requires
            part <= unit,
    ;
    law_exact_results_are_kept(number.magnitude(), unit);
    law_there_is_a_nearest(units * part, unit);
    law_there_is_a_nearest(units * unit, unit);
    law_nearest_keeps_order(
        units * part,
        units * unit,
        unit,
        nearest(units * part, unit),
        nearest(units * unit, unit),
    );
}

/// A number over itself is one.
pub proof fn law_a_number_over_itself(number: Double)
    requires
        number.finite(),
        number.magnitude() > 0,
    ensures
        quotient(number, number) == (Double { bits: 0x3ff0_0000_0000_0000 }),
{
    let units = double::double_units(number.magnitude());
    lemma_one();
    assert(double::double_units(0) == 0);
    double::law_larger_patterns_are_larger(0, number.magnitude());
    assert(pow2(1074) * units == units * pow2(1074)) by (nonlinear_arith);
    law_exact_results_are_kept(0x3ff0_0000_0000_0000, units);
}

/// Once a result is a number, or the one pattern that stands for none,
/// multiplying it by one gives it back.
pub proof fn law_times_one(number: Double)
    requires
        number.nan() ==> number == not_a_number(),
    ensures
        product(number, Double { bits: 0x3ff0_0000_0000_0000 }) == number,
{
    if number.finite() {
        lemma_one();
        law_exact_results_are_kept(number.magnitude(), pow2(1074));
    }
}

/// Dividing such a result by one gives it back too.
pub proof fn law_over_one(number: Double)
    requires
        number.nan() ==> number == not_a_number(),
    ensures
        quotient(number, Double { bits: 0x3ff0_0000_0000_0000 }) == number,
{
    if number.finite() {
        lemma_one();
        law_exact_results_are_kept(number.magnitude(), pow2(1074));
    }
}

/// A zero over any other number is a zero.
pub proof fn law_zero_over_a_number(zero: Double, number: Double)
    requires
        zero.magnitude() == 0,
        0 < number.magnitude() <= INFINITE,
    ensures
        quotient(zero, number).magnitude() == 0,
{
    if number.finite() {
        let units = double::double_units(number.magnitude());
        assert(double::double_units(0) == 0);
        double::law_larger_patterns_are_larger(0, number.magnitude());
        assert(0 * pow2(1074) == 0);
        lemma_nothing(units);
    }
}

/// Factors may change places.
pub proof fn law_factors_may_change_places(left: Double, right: Double)
    ensures
        product(left, right) == product(right, left),
{
    let a = double::double_units(left.magnitude());
    let b = double::double_units(right.magnitude());
    assert(a * b == b * a) by (nonlinear_arith);
}

/// Terms may change places.
pub proof fn law_terms_may_change_places(left: Double, right: Double)
    ensures
        sum(left, right) == sum(right, left),
{
}

/// The root of the square of a number is the number.
pub proof fn law_roots_undo_squares(pattern: nat)
    requires
        0 < pattern < INFINITE,
    ensures
        nearest_root(double::double_units(pattern) * double::double_units(pattern)) == pattern,
{
    let here = double::double_units(pattern);
    let below = double::double_units((pattern - 1) as nat);
    let above = double::double_units(pattern + 1);
    double::law_larger_patterns_are_larger((pattern - 1) as nat, pattern);
    double::law_larger_patterns_are_larger(pattern, pattern + 1);
    lemma_squares_keep_order(below + here, 2 * here);
    lemma_squares_keep_order(2 * here, here + above);
    assert((2 * here) * (2 * here) == 4 * (here * here)) by (nonlinear_arith);
    lemma_found_root(here * here, pattern);
}

/// The root of a larger number is no smaller.
pub proof fn law_nearest_roots_keep_order(smaller: nat, larger: nat, left: nat, right: nat)
    requires
        smaller <= larger,
        is_nearest_root(smaller, left),
        is_nearest_root(larger, right),
    ensures
        left <= right,
{
    if right < left {
        let here = double::double_units(right);
        let above = double::double_units(right + 1);
        let below = double::double_units((left - 1) as nat);
        let there = double::double_units(left);
        double::law_magnitudes_keep_order(right, (left - 1) as nat);
        double::law_magnitudes_keep_order(right + 1, left);
        if right + 1 < left {
            double::law_larger_patterns_are_larger(right, (left - 1) as nat);
        }
        lemma_squares_keep_order(here + above, below + there);
        assert(false);
    }
}

} // verus!

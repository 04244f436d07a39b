//! How close rounded results come to the exact ones.
use crate::arithmetic;
use crate::double;
use crate::double::{Double, INFINITE};
use crate::whole;
use vstd::arithmetic::power2::*;
use vstd::prelude::*;

verus! {

/// The step from a number to the next one up is no more than a part in `2^52` of
/// it, or a single unit.
proof fn lemma_next(pattern: nat)
    ensures
        0x10_0000_0000_0000 * (double::double_units(pattern + 1) - double::double_units(pattern))
            <= double::double_units(pattern) + 0x10_0000_0000_0000,
        double::double_units(pattern) < double::double_units(pattern + 1),
{
    let half: nat = 0x10_0000_0000_0000;
    let exponent = pattern / half;
    let fraction = pattern % half;
    double::law_larger_patterns_are_larger(pattern, pattern + 1);
    lemma2_to64();
    if exponent > 0 {
        let scale = pow2((exponent - 1) as nat);
        assert((half + fraction + 1) * scale == (half + fraction) * scale + scale)
            by (nonlinear_arith);
        assert(half * scale <= (half + fraction) * scale) by (nonlinear_arith);
        if fraction + 1 < half {
            assert((pattern + 1) / half == exponent);
            assert((pattern + 1) % half == fraction + 1);
        } else {
            assert((pattern + 1) / half == exponent + 1);
            assert((pattern + 1) % half == 0);
            lemma_pow2_unfold(exponent);
            assert((half + half) * scale == half * (2 * scale)) by (nonlinear_arith);
            assert((half + 0) * pow2(exponent) == half * pow2(exponent));
        }
        assert(double::double_units(pattern + 1) - double::double_units(pattern) == scale);
    } else {
        if fraction + 1 == half {
            assert((pattern + 1) / half == 1);
            assert((pattern + 1) % half == 0);
            assert(half * pow2(0) == half);
        }
        assert(double::double_units(pattern + 1) - double::double_units(pattern) == 1);
    }
}

/// That `here` is `numerator / denominator` to within half a part in `2^52` of
/// itself and half a unit.
pub open spec fn is_close(numerator: nat, denominator: nat, here: nat) -> bool {
    &&& 0x20_0000_0000_0000 * (here * denominator) <= 0x20_0000_0000_0000 * numerator + (here
        + 0x10_0000_0000_0000) * denominator
    &&& 0x20_0000_0000_0000 * numerator <= 0x20_0000_0000_0000 * (here * denominator) + (here
        + 0x10_0000_0000_0000) * denominator
}

/// Rounding is close: as long as a result does not overflow, it is off by no more
/// than half a part in `2^52`, or half a unit.
pub proof fn law_results_are_close(numerator: nat, denominator: nat)
    requires
        denominator > 0,
        arithmetic::nearest(numerator, denominator) < INFINITE,
    ensures
        is_close(
            numerator,
            denominator,
            double::double_units(arithmetic::nearest(numerator, denominator)),
        ),
{
    let pattern = arithmetic::nearest(numerator, denominator);
    arithmetic::law_there_is_a_nearest(numerator, denominator);
    let here = double::double_units(pattern);
    let above = double::double_units(pattern + 1);
    lemma_next(pattern);
    assert(0x20_0000_0000_0000 * numerator <= 0x20_0000_0000_0000 * (here * denominator) + (here
        + 0x10_0000_0000_0000) * denominator) by (nonlinear_arith)
        requires
            2 * numerator <= (here + above) * denominator,
            0x10_0000_0000_0000 * (above - here) <= here + 0x10_0000_0000_0000,
    ;
    if pattern > 0 {
        let below = double::double_units((pattern - 1) as nat);
        lemma_next((pattern - 1) as nat);
        assert(0x20_0000_0000_0000 * (here * denominator) <= 0x20_0000_0000_0000 * numerator + (
        here + 0x10_0000_0000_0000) * denominator) by (nonlinear_arith)
            requires
                (below + here) * denominator <= 2 * numerator,
                0x10_0000_0000_0000 * (here - below) <= below + 0x10_0000_0000_0000,
                below <= here,
        ;
    } else {
        assert(here * denominator == 0) by (nonlinear_arith)
            requires
                here == 0,
        ;
    }
}

/// That `here` is the root of `square` to within half a part in `2^52` of itself
/// and half a unit.
pub open spec fn is_close_root(square: nat, here: nat) -> bool {
    let above = 0x20_0000_0000_0001 * here + 0x10_0000_0000_0000;
    let below = 0x1f_ffff_ffff_ffff * here - 0x10_0000_0000_0000;
    &&& 4 * 0x10_0000_0000_0000 * 0x10_0000_0000_0000 * square <= above * above
    &&& below >= 0 ==> below * below <= 4 * 0x10_0000_0000_0000 * 0x10_0000_0000_0000 * square
}

/// So are roots.
pub proof fn law_roots_are_close(square: nat)
    requires
        arithmetic::nearest_root(square) < INFINITE,
    ensures
        is_close_root(square, double::double_units(arithmetic::nearest_root(square))),
{
    let half: int = 0x10_0000_0000_0000;
    let pattern = arithmetic::nearest_root(square);
    arithmetic::law_there_is_a_nearest_root(square);
    let here = double::double_units(pattern);
    let next = double::double_units(pattern + 1);
    lemma_next(pattern);
    let above = 0x20_0000_0000_0001 * here + 0x10_0000_0000_0000;
    let middle = here + next;
    assert(half * middle <= above);
    assert(4 * half * half * square <= above * above) by (nonlinear_arith)
        requires
            4 * square <= middle * middle,
            0 <= half * middle <= above,
            0 <= half,
            0 <= middle,
    {
        assert((half * middle) * (half * middle) <= above * above);
        assert(half * half * (4 * square) <= half * half * (middle * middle));
        assert((half * middle) * (half * middle) == half * half * (middle * middle));
    }
    let below = 0x1f_ffff_ffff_ffff * here - 0x10_0000_0000_0000;
    if below >= 0 {
        let last = double::double_units((pattern - 1) as nat);
        lemma_next((pattern - 1) as nat);
        let middle = last + here;
        assert(below <= half * middle);
        assert(below * below <= 4 * half * half * square) by (nonlinear_arith)
            requires
                middle * middle <= 4 * square,
                0 <= below <= half * middle,
                0 <= half,
                0 <= middle,
        {
            assert(below * below <= (half * middle) * (half * middle));
            assert(half * half * (middle * middle) <= half * half * (4 * square));
            assert((half * middle) * (half * middle) == half * half * (middle * middle));
        }
    }
}

/// How far apart two whole numbers lie.
pub open spec fn apart(left: int, right: int) -> int {
    if left < right {
        right - left
    } else {
        left - right
    }
}

/// How close a quotient, times its divisor, comes to the dividend.
pub proof fn law_quotients_are_close(limit: Double, gain: Double)
    requires
        limit.finite(),
        gain.finite(),
        gain.magnitude() > 0,
        arithmetic::quotient(limit, gain).finite(),
    ensures
        ({
            let kept = arithmetic::quotient(limit, gain).units();
            let half: int = 0x10_0000_0000_0000;
            2 * half * apart(gain.units() * kept, limit.units() * pow2(1074)) <= (apart(kept, 0)
                + half) * apart(gain.units(), 0)
        }),
{
    let unit = pow2(1074);
    let kept = arithmetic::quotient(limit, gain);
    let x = double::double_units(limit.magnitude());
    let y = double::double_units(gain.magnitude());
    assert(double::double_units(0) == 0);
    double::law_larger_patterns_are_larger(0, gain.magnitude());
    arithmetic::law_there_is_a_nearest(x * unit, y);
    assert(kept.magnitude() == arithmetic::nearest(x * unit, y));
    law_results_are_close(x * unit, y);
    let here = double::double_units(kept.magnitude());
    assert(kept.negative() == (limit.negative() != gain.negative()));
    if limit.magnitude() == 0 {
        arithmetic::law_zero_over_a_number(limit, gain);
    } else {
        double::law_larger_patterns_are_larger(0, limit.magnitude());
    }
    lemma_signed_products(
        gain.units(),
        kept.units(),
        limit.units(),
        unit as int,
        y as int,
        here as int,
        x as int,
    );
    assert(here * y == y * here) by (nonlinear_arith);
    assert(apart(kept.units(), 0) == here);
    assert(apart(gain.units(), 0) == y);
}

/// Signs come apart from sizes in a product.
proof fn lemma_signed_products(
    gain: int,
    kept: int,
    limit: int,
    unit: int,
    y: int,
    here: int,
    x: int,
)
    requires
        gain == y || gain == -y,
        limit == x || limit == -x,
        kept == (if (gain == y) == (limit == x) {
            here
        } else {
            -here
        }) || (kept == here || kept == -here) && (x == 0 && here == 0),
    ensures
        apart(gain * kept, limit * unit) == apart(y * here, x * unit),
{
    assert((-y) * here == -(y * here)) by (nonlinear_arith);
    assert((-y) * (-here) == y * here) by (nonlinear_arith);
    assert(y * (-here) == -(y * here)) by (nonlinear_arith);
    assert((-x) * unit == -(x * unit)) by (nonlinear_arith);
    if x == 0 && here == 0 {
        assert(gain * 0 == 0);
        assert(limit * unit == 0 && x * unit == 0) by (nonlinear_arith)
            requires
                limit == 0,
                x == 0,
        ;
    }
}

/// How close a product comes to the exact one.
pub proof fn law_products_are_close(gain: Double, kept: Double)
    requires
        gain.finite(),
        kept.finite(),
        arithmetic::product(gain, kept).finite(),
    ensures
        ({
            let output = arithmetic::product(gain, kept).units();
            let half: int = 0x10_0000_0000_0000;
            2 * half * apart(gain.units() * kept.units(), output * pow2(1074)) <= (apart(output, 0)
                + half) * pow2(1074)
        }),
{
    let unit = pow2(1074);
    let output = arithmetic::product(gain, kept);
    let x = double::double_units(gain.magnitude());
    let y = double::double_units(kept.magnitude());
    lemma_pow2_pos(1074);
    arithmetic::law_there_is_a_nearest(x * y, unit);
    assert(output.magnitude() == arithmetic::nearest(x * y, unit));
    law_results_are_close(x * y, unit);
    let here = double::double_units(output.magnitude());
    assert(apart(output.units(), 0) == here);
    let half: int = 0x10_0000_0000_0000;
    assert(2 * half * (x * y) <= 2 * half * (here * unit) + (here + half) * unit);
    assert(2 * half * (here * unit) <= 2 * half * (x * y) + (here + half) * unit);
    assert((-x) * y == -(x * y)) by (nonlinear_arith);
    assert((-x) * (-y) == x * y) by (nonlinear_arith);
    assert(x * (-y) == -(x * y)) by (nonlinear_arith);
    assert((-here) * unit == -(here * unit)) by (nonlinear_arith);
}

/// How close a sum comes to the exact one.
pub proof fn law_sums_are_close(left: Double, right: Double)
    requires
        left.finite(),
        right.finite(),
        arithmetic::sum(left, right).finite(),
    ensures
        ({
            let here = arithmetic::sum(left, right).units();
            let half: int = 0x10_0000_0000_0000;
            2 * half * apart(left.units() + right.units(), here) <= apart(here, 0) + half
        }),
{
    let total = left.units() + right.units();
    let here = arithmetic::sum(left, right);
    assert(double::double_units(0) == 0);
    if total != 0 {
        let size = apart(total, 0) as nat;
        arithmetic::law_there_is_a_nearest(size, 1);
        assert(here.magnitude() == arithmetic::nearest(size, 1));
        law_results_are_close(size, 1);
        let units = double::double_units(here.magnitude());
        assert(units * 1 == units);
    }
}

/// How close a whole multiple of a number comes to the exact one.
pub proof fn law_whole_multiples_are_close(count: int, number: Double)
    requires
        -0x20_0000_0000_0000 < count < 0x20_0000_0000_0000,
        number.finite(),
        arithmetic::product(arithmetic::whole_number(count), number).finite(),
    ensures
        ({
            let here = arithmetic::product(arithmetic::whole_number(count), number).units();
            let half: int = 0x10_0000_0000_0000;
            2 * half * apart(count * number.units(), here) <= apart(here, 0) + half
        }),
{
    let unit = pow2(1074);
    whole::law_whole_numbers_are_exact(count);
    law_products_are_close(arithmetic::whole_number(count), number);
    lemma_pow2_pos(1074);
    let once = number.units();
    let here = arithmetic::product(arithmetic::whole_number(count), number).units();
    let half: int = 0x10_0000_0000_0000;
    let gap = apart(count * once, here);
    assert((count * unit) * once == (count * once) * unit) by (nonlinear_arith);
    assert(apart((count * once) * unit, here * unit) == gap * unit) by (nonlinear_arith)
        requires
            unit > 0,
            gap == apart(count * once, here),
    ;
    let size = apart(here, 0);
    assert(2 * half * gap <= size + half) by (nonlinear_arith)
        requires
            2 * half * (gap * unit) <= (size + half) * unit,
            unit > 0,
    ;
}

/// That a number reaches no further than a power of two, in units.
pub open spec fn reaches_to(number: Double, place: nat) -> bool {
    number.finite() && apart(number.units(), 0) <= pow2(place)
}

/// A result that is no more than a power of two stays so when it is rounded.
proof fn lemma_rounded_reach(numerator: nat, denominator: nat, place: nat)
    requires
        denominator > 0,
        52 <= place <= 1900,
        numerator <= pow2(place) * denominator,
    ensures
        arithmetic::nearest(numerator, denominator) < INFINITE,
        double::double_units(arithmetic::nearest(numerator, denominator)) <= pow2(place),
{
    let top = whole::lemma_short(1, place);
    assert(1 * pow2(place) == pow2(place));
    arithmetic::law_exact_results_are_kept(top, denominator);
    arithmetic::law_there_is_a_nearest(numerator, denominator);
    arithmetic::law_there_is_a_nearest(pow2(place) * denominator, denominator);
    let pattern = arithmetic::nearest(numerator, denominator);
    arithmetic::law_nearest_keeps_order(
        numerator,
        pow2(place) * denominator,
        denominator,
        pattern,
        top,
    );
    double::law_magnitudes_keep_order(pattern, top);
}

/// How far a product reaches.
pub proof fn law_products_reach(x: Double, y: Double, first: nat, second: nat)
    requires
        reaches_to(x, first),
        reaches_to(y, second),
        1126 <= first + second <= 2974,
    ensures
        reaches_to(arithmetic::product(x, y), (first + second - 1074) as nat),
{
    let place = (first + second - 1074) as nat;
    lemma_pow2_adds(first, second);
    lemma_pow2_adds(place, 1074);
    lemma_pow2_pos(1074);
    let a = double::double_units(x.magnitude());
    let b = double::double_units(y.magnitude());
    let c = pow2(first);
    let d = pow2(second);
    assert(a * b <= c * d) by (nonlinear_arith)
        requires
            a <= c,
            b <= d,
    ;
    lemma_rounded_reach(a * b, pow2(1074), place);
}

/// How far a sum or a difference reaches.
pub proof fn law_sums_reach(x: Double, y: Double, place: nat)
    requires
        reaches_to(x, place),
        reaches_to(y, place),
        52 <= place < 1900,
    ensures
        reaches_to(arithmetic::sum(x, y), place + 1),
        reaches_to(arithmetic::difference(x, y), place + 1),
{
    lemma_pow2_unfold(place + 1);
    assert(y.negated().units() == -y.units());
    lemma_total_reach(x, y, place + 1);
    lemma_total_reach(x, y.negated(), place + 1);
}

proof fn lemma_total_reach(x: Double, y: Double, place: nat)
    requires
        x.finite(),
        y.finite(),
        52 <= place <= 1900,
        apart(x.units() + y.units(), 0) <= pow2(place),
    ensures
        reaches_to(arithmetic::sum(x, y), place),
{
    let size = apart(x.units() + y.units(), 0) as nat;
    assert(pow2(place) * 1 == pow2(place));
    lemma_rounded_reach(size, 1, place);
    assert(double::double_units(0) == 0);
}

/// How far a quotient reaches, over what reaches at least to a power of two.
pub proof fn law_quotients_reach(x: Double, y: Double, first: nat, second: nat)
    requires
        reaches_to(x, first),
        y.finite(),
        pow2(second) <= apart(y.units(), 0),
        second <= 1022 + first,
        1074 + first - second <= 1900,
    ensures
        reaches_to(arithmetic::quotient(x, y), (1074 + first - second) as nat),
{
    let place = (1074 + first - second) as nat;
    lemma_pow2_adds(first, 1074);
    lemma_pow2_adds(place, second);
    lemma_pow2_pos(second);
    let a = double::double_units(x.magnitude());
    let b = double::double_units(y.magnitude());
    let unit = pow2(1074);
    let c = pow2(first);
    let d = pow2(second);
    let e = pow2(place);
    assert(a * unit <= e * b) by (nonlinear_arith)
        requires
            a <= c,
            d <= b,
            c * unit == e * d,
    ;
    assert(double::double_units(0) == 0);
    lemma_rounded_reach(a * unit, b, place);
}

} // verus!

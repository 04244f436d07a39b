//! How the radius of a place grows with its height.
use crate::arithmetic;
use crate::double;
use crate::double::Double;
use crate::geomagnetism;
use crate::geomagnetism::{Wgs84, ONE, TWO};
use crate::nearness;
use crate::order;
use vstd::arithmetic::power2::*;
use vstd::prelude::*;

verus! {

/// A length from a kilometre to a million kilometres, in kilometres.
pub open spec fn is_axis(length: Double) -> bool {
    &&& length.finite()
    &&& !length.negative()
    &&& pow2(1074) <= length.units() <= pow2(1094)
}

/// No height, or one from a thousandth of a millimetre to a million kilometres.
pub open spec fn is_height(height: Double) -> bool {
    &&& height.finite()
    &&& !height.negative()
    &&& height.units() == 0 || pow2(1044) <= height.units() <= pow2(1094)
}

/// Bounds of a product of bounded numbers.
proof fn lemma_bounds(x: int, y: int, low: nat, high: nat, small: nat, large: nat)
    requires
        pow2(low) <= x <= pow2(high),
        pow2(small) <= y <= pow2(large),
    ensures
        pow2(low + small) <= x * y <= pow2(high + large),
{
    lemma_pow2_adds(low, small);
    lemma_pow2_adds(high, large);
    lemma_pow2_pos(low);
    lemma_pow2_pos(small);
    let a = pow2(low);
    let b = pow2(small);
    let c = pow2(high);
    let d = pow2(large);
    assert(a * b <= x * y <= c * d) by (nonlinear_arith)
        requires
            0 < a <= x <= c,
            0 < b <= y <= d,
    ;
}

/// What is near to a bounded number is bounded.
proof fn lemma_near_bounds(x: int, y: int, parts: int, low: nat, high: nat)
    requires
        nearness::near(x, y, parts),
        0 <= parts <= 0x1000,
        0 < low,
        pow2(low) <= y <= pow2(high),
    ensures
        pow2((low - 1) as nat) <= x <= pow2(high + 1),
{
    lemma_pow2_unfold(low);
    lemma_pow2_unfold(high + 1);
    assert(x <= 2 * y && y <= 2 * x) by (nonlinear_arith)
        requires
            0x20_0000_0000_0000 * x <= (0x20_0000_0000_0000 + parts) * y,
            0x20_0000_0000_0000 * y <= (0x20_0000_0000_0000 + parts) * x,
            0 <= parts <= 0x1000,
            0 <= x,
            0 <= y,
    ;
}

/// Bounds of what has bounded multiples.
proof fn lemma_bounds_divided(x: int, low: nat, high: nat)
    requires
        1074 <= low,
        pow2(low) <= x * pow2(1074) <= pow2(high),
        1074 <= high,
    ensures
        pow2((low - 1074) as nat) <= x <= pow2((high - 1074) as nat),
{
    lemma_pow2_adds((low - 1074) as nat, 1074);
    lemma_pow2_adds((high - 1074) as nat, 1074);
    lemma_pow2_pos(1074);
    let unit = pow2(1074);
    let a = pow2((low - 1074) as nat);
    let b = pow2((high - 1074) as nat);
    assert(a <= x <= b) by (nonlinear_arith)
        requires
            a * unit <= x * unit <= b * unit,
            unit > 0,
    ;
}

/// The square of the axis and its root.
proof fn lemma_axis(a: Double)
    requires
        is_axis(a),
    ensures
        ({
            let a2 = arithmetic::product(a, a);
            let sr = arithmetic::root(a2);
            &&& a2.finite() && !a2.negative()
            &&& sr.finite() && !sr.negative()
            &&& nearness::near(a2.units() * pow2(1074), a.units() * a.units(), 3)
            &&& nearness::near(sr.units(), a.units(), 10)
            &&& pow2(1073) <= a2.units() <= pow2(1115)
            &&& pow2(1073) <= sr.units() <= pow2(1095)
        }),
{
    let units = a.units();
    lemma_bounds(units, units, 1074, 1094, 1074, 1094);
    nearness::law_near_products(a, a, 2148, 2188);
    let a2 = arithmetic::product(a, a);
    lemma_near_bounds(a2.units() * pow2(1074), units * units, 3, 2148, 2188);
    lemma_bounds_divided(a2.units(), 2147, 2189);
    lemma_pow2_strictly_increases(200, 1073);
    lemma_pow2_strictly_increases(1115, 1900);
    nearness::law_near_square_roots(a2);
    let sr = arithmetic::root(a2).units();
    nearness::law_nearness_adds_up(sr * sr, a2.units() * pow2(1074), units * units, 6, 3);
    nearness::law_near_roots(sr, units, 10);
    lemma_near_bounds(sr, units, 10, 1074, 1094);
}

/// The square of the fourth power's root: what the radius is on the ground.
proof fn lemma_ground(a: Double)
    requires
        is_axis(a),
    ensures
        ({
            let a2 = arithmetic::product(a, a);
            let a4 = arithmetic::product(a2, a2);
            let ground = arithmetic::quotient(a4, a2);
            &&& a4.finite() && !a4.negative() && 0 < a4.units()
            &&& ground.finite() && !ground.negative()
            &&& nearness::near(ground.units() * pow2(1074), a.units() * a.units(), 11)
        }),
{
    let unit = pow2(1074);
    lemma_axis(a);
    let a2 = arithmetic::product(a, a);
    let u = a2.units();
    lemma_bounds(u, u, 1073, 1115, 1073, 1115);
    nearness::law_near_products(a2, a2, 2146, 2230);
    let a4 = arithmetic::product(a2, a2);
    lemma_near_bounds(a4.units() * unit, u * u, 3, 2146, 2230);
    lemma_bounds_divided(a4.units(), 2145, 2231);
    lemma_pow2_pos(1071);
    lemma_pow2_pos(1073);
    // The quotient stays inside the range.
    lemma_pow2_strictly_increases(61, 1073);
    lemma_pow2_unfold(61);
    lemma_pow2_strictly_increases(1116, 1900);
    lemma_pow2_unfold(1116);
    let low = pow2(60);
    let high = pow2(1900);
    let w = a4.units() * unit;
    assert(w <= 2 * (u * u) && u * u <= 2 * w) by (nonlinear_arith)
        requires
            0x20_0000_0000_0000 * w <= (0x20_0000_0000_0000 + 3) * (u * u),
            0x20_0000_0000_0000 * (u * u) <= (0x20_0000_0000_0000 + 3) * w,
            0 <= w,
            0 <= u * u,
    ;
    assert(low * u <= w <= high * u) by (nonlinear_arith)
        requires
            w <= 2 * (u * u),
            u * u <= 2 * w,
            2 * low <= u,
            2 * u <= high,
            0 < u,
    ;
    nearness::law_near_quotients(a4, a2);
    let ground = arithmetic::quotient(a4, a2);
    let g = ground.units();
    nearness::law_nearness_adds_up(g * u, w, u * u, 3, 3);
    assert(0 <= g);
    nearness::law_near_divided(g, u, u, 7);
    nearness::law_near_multiples(g, u, unit as int, 7);
    nearness::law_nearness_adds_up(g * unit, u * unit, a.units() * a.units(), 7, 3);
}

/// Twice the height times the axis, with the square of the height.
proof fn lemma_lifted(a: Double, h: Double)
    requires
        is_axis(a),
        is_height(h),
        h.units() > 0,
    ensures
        ({
            let sr = arithmetic::root(arithmetic::product(a, a));
            let rise = arithmetic::sum(
                arithmetic::product(h, h),
                arithmetic::product(arithmetic::product(Double { bits: TWO }, h), sr),
            );
            &&& rise.finite() && !rise.negative()
            &&& nearness::near(
                rise.units() * pow2(1074),
                h.units() * h.units() + 2 * (h.units() * a.units()),
                22,
            )
        }),
{
    let unit = pow2(1074);
    lemma_axis(a);
    let sr = arithmetic::root(arithmetic::product(a, a));
    let x = h.units();
    let y = a.units();
    lemma_bounds(x, x, 1044, 1094, 1044, 1094);
    nearness::law_near_products(h, h, 2088, 2188);
    let h2 = arithmetic::product(h, h);
    lemma_near_bounds(h2.units() * unit, x * x, 3, 2088, 2188);
    lemma_bounds_divided(h2.units(), 2087, 2189);
    let two = Double { bits: TWO };
    assert(two.units() == 2 * unit) by {
        let bits: nat = TWO as nat;
        assert(bits / 0x10_0000_0000_0000 == 1024);
        assert(bits % 0x10_0000_0000_0000 == 0);
        lemma2_to64_rest();
        lemma_pow2_adds(52, 1023);
        lemma_pow2_unfold(1075);
    }
    lemma_pow2_unfold(1075);
    lemma_bounds(2 * unit as int, x, 1075, 1075, 1044, 1094);
    nearness::law_near_products(two, h, 2119, 2169);
    let t = arithmetic::product(two, h);
    assert((2 * unit) * x == (2 * x) * unit) by (nonlinear_arith);
    lemma_pow2_pos(1074);
    nearness::law_near_divided(t.units(), 2 * x, unit as int, 3);
    lemma_near_bounds(t.units() * unit, (2 * unit) * x, 3, 2119, 2169);
    lemma_bounds_divided(t.units(), 2118, 2170);
    let s = sr.units();
    lemma_bounds(t.units(), s, 1044, 1096, 1073, 1095);
    nearness::law_near_products(t, sr, 2117, 2191);
    let w = arithmetic::product(t, sr);
    nearness::law_near_multiples(t.units(), 2 * x, s, 3);
    nearness::law_near_multiples(s, y, 2 * x, 10);
    nearness::law_nearness_adds_up(t.units() * s, (2 * x) * s, (2 * x) * y, 3, 10);
    nearness::law_nearness_adds_up(w.units() * unit, t.units() * s, (2 * x) * y, 3, 14);
    assert((2 * x) * y == 2 * (x * y)) by (nonlinear_arith);
    lemma_near_bounds(w.units() * unit, t.units() * s, 3, 2117, 2191);
    lemma_bounds_divided(w.units(), 2116, 2192);
    // Together.
    let both = h2.units() + w.units();
    lemma_pow2_strictly_increases(1115, 1118);
    lemma_pow2_unfold(1119);
    lemma_pow2_strictly_increases(1013, 1042);
    lemma_pow2_pos(1042);
    nearness::law_near_totals(h2, w, 1013, 1119);
    let rise = arithmetic::sum(h2, w);
    nearness::law_near_sums(h2.units() * unit, x * x, w.units() * unit, 2 * (x * y), 3, 18);
    assert(both * unit == h2.units() * unit + w.units() * unit) by (nonlinear_arith)
        requires
            both == h2.units() + w.units(),
    ;
    nearness::law_near_multiples(rise.units(), both, unit as int, 3);
    nearness::law_nearness_adds_up(
        rise.units() * unit,
        both * unit,
        x * x + 2 * (x * y),
        3,
        18,
    );
}

/// The radius that the square of the ground and the rise above it come to.
proof fn lemma_radius(a: Double, h: Double, rise: Double)
    requires
        is_axis(a),
        is_height(h),
        rise.finite(),
        0 <= rise.units(),
        nearness::near(
            rise.units() * pow2(1074),
            h.units() * h.units() + 2 * (h.units() * a.units()),
            22,
        ),
    ensures
        ({
            let a2 = arithmetic::product(a, a);
            let ground = arithmetic::quotient(arithmetic::product(a2, a2), a2);
            let radius = arithmetic::root(arithmetic::sum(rise, ground));
            &&& radius.finite()
            &&& nearness::near(radius.units(), a.units() + h.units(), 40)
        }),
{
    let unit = pow2(1074);
    lemma_ground(a);
    let a2 = arithmetic::product(a, a);
    let ground = arithmetic::quotient(arithmetic::product(a2, a2), a2);
    let g = ground.units();
    let r = rise.units();
    let x = h.units();
    let y = a.units();
    let exact = x * x + 2 * (x * y);
    let all = (y + x) * (y + x);
    assert(all == exact + y * y) by (nonlinear_arith)
        requires
            all == (y + x) * (y + x),
            exact == x * x + 2 * (x * y),
    ;
    nearness::law_near_sums(g * unit, y * y, r * unit, exact, 11, 22);
    let both = r + g;
    assert(both * unit == g * unit + r * unit) by (nonlinear_arith)
        requires
            both == r + g,
    ;
    // Where the whole lies.
    lemma_pow2_unfold(1095);
    lemma_pow2_pos(1044);
    assert(pow2(1074) <= y + x <= pow2(1095));
    lemma_bounds(y + x, y + x, 1074, 1095, 1074, 1095);
    lemma_near_bounds(both * unit, all, 22, 2148, 2190);
    lemma_bounds_divided(both, 2147, 2191);
    nearness::law_near_totals(rise, ground, 1073, 1117);
    let total = arithmetic::sum(rise, ground);
    lemma_near_bounds(total.units(), both, 3, 1073, 1117);
    lemma_pow2_strictly_increases(200, 1072);
    lemma_pow2_strictly_increases(1118, 1900);
    nearness::law_near_square_roots(total);
    let radius = arithmetic::root(total).units();
    nearness::law_near_multiples(total.units(), both, unit as int, 3);
    nearness::law_nearness_adds_up(total.units() * unit, both * unit, all, 3, 22);
    nearness::law_nearness_adds_up(radius * radius, total.units() * unit, all, 6, 26);
    nearness::law_near_roots(radius, y + x, 33);
    assert(nearness::near(radius, y + x, 40)) by (nonlinear_arith)
        requires
            nearness::near(radius, y + x, 33),
            0 <= radius,
            0 <= y + x,
    ;
}

/// What a flattening from none to all leaves of the axis stays inside the range.
proof fn lemma_flattened(a: Double, flattening: Double)
    requires
        is_axis(a),
        (Double { bits: 0 }).at_most(flattening),
        flattening.at_most(Double { bits: ONE }),
    ensures
        ({
            let b = arithmetic::product(
                a,
                arithmetic::difference(Double { bits: ONE }, flattening),
            );
            let a2 = arithmetic::product(a, a);
            let b2 = arithmetic::product(b, b);
            let a4 = arithmetic::product(a2, a2);
            let b4 = arithmetic::product(b2, b2);
            &&& b2.finite()
            &&& arithmetic::difference(a2, b2).finite()
            &&& arithmetic::difference(a4, b4).finite()
        }),
{
    let zero = Double { bits: 0 };
    let one = Double { bits: ONE };
    lemma_axis(a);
    lemma_ground(a);
    let left = arithmetic::difference(one, flattening);
    arithmetic::law_sums_are_numbers(one, flattening.negated());
    arithmetic::law_zero_adds_nothing(one, zero.negated());
    arithmetic::law_a_number_less_itself_is_zero(one);
    order::law_differences_keep_order(one, flattening, one, zero);
    order::law_differences_keep_order(one, one, one, flattening);
    let b = arithmetic::product(a, left);
    arithmetic::law_a_fraction_does_not_enlarge(a, left);
    if left.negative() {
        arithmetic::law_zero_times_a_number(a, left);
    }
    let a2 = arithmetic::product(a, a);
    let b2 = arithmetic::product(b, b);
    lemma_smaller_square(a, b);
    lemma_smaller_square(a2, b2);
    let a4 = arithmetic::product(a2, a2);
    let b4 = arithmetic::product(b2, b2);
    lemma_smaller_difference(a2, b2);
    lemma_smaller_difference(a4, b4);
}

proof fn lemma_smaller_square(large: Double, small: Double)
    requires
        large.finite(),
        small.finite(),
        (Double { bits: 0 }).at_most(small),
        small.at_most(large),
        arithmetic::product(large, large).finite(),
    ensures
        arithmetic::product(small, small).finite(),
        (Double { bits: 0 }).at_most(arithmetic::product(small, small)),
        arithmetic::product(small, small).at_most(arithmetic::product(large, large)),
{
    arithmetic::law_products_are_numbers(small, small);
    arithmetic::law_products_are_numbers(small, large);
    arithmetic::law_factors_may_change_places(small, large);
    order::law_products_keep_order(small, large, small);
    order::law_products_keep_order(small, large, large);
    order::lemma_plain_product(small, small);
}

proof fn lemma_smaller_difference(large: Double, small: Double)
    requires
        large.finite(),
        small.finite(),
        (Double { bits: 0 }).at_most(small),
        small.at_most(large),
    ensures
        arithmetic::difference(large, small).finite(),
{
    let zero = Double { bits: 0 };
    arithmetic::law_sums_are_numbers(large, small.negated());
    arithmetic::law_sums_are_numbers(large, zero.negated());
    arithmetic::law_sums_are_numbers(large, large.negated());
    arithmetic::law_zero_adds_nothing(large, zero.negated());
    arithmetic::law_a_number_less_itself_is_zero(large);
    order::law_differences_keep_order(large, small, large, zero);
    order::law_differences_keep_order(large, large, large, small);
}

/// On the equator the radius of a place is the equatorial axis and its height, whatever
/// the flattening, to within a few parts in `2^53`.
pub proof fn law_radii_grow_with_their_heights(spheroid: Wgs84, elevation: Double)
    requires
        is_axis(geomagnetism::axis_km(spheroid)),
        is_height(elevation),
        (Double { bits: 0 }).at_most(spheroid.flattened()),
        spheroid.flattened().at_most(Double { bits: ONE }),
    ensures
        ({
            let radius = geomagnetism::spherical(
                spheroid,
                elevation,
                Double { bits: 0 },
                Double { bits: ONE },
            ).2;
            &&& radius.finite()
            &&& nearness::near(
                radius.units(),
                geomagnetism::axis_km(spheroid).units() + elevation.units(),
                40,
            )
        }),
{
    let zero = Double { bits: 0 };
    let one = Double { bits: ONE };
    let a = geomagnetism::axis_km(spheroid);
    let b = arithmetic::product(a, arithmetic::difference(one, spheroid.flattened()));
    let a2 = arithmetic::product(a, a);
    let a4 = arithmetic::product(a2, a2);
    let b2 = arithmetic::product(b, b);
    let b4 = arithmetic::product(b2, b2);
    lemma_flattened(a, spheroid.flattened());
    lemma_axis(a);
    lemma_ground(a);
    lemma_pow2_pos(1073);
    order::law_units_follow_rank(a2, a2);
    order::law_units_follow_rank(a4, a4);
    arithmetic::law_one_times_a_number(one);
    arithmetic::law_zero_times_a_number(zero, zero);
    let none = arithmetic::product(zero, zero);
    // What the sine of nothing leaves.
    arithmetic::law_times_one(a2);
    arithmetic::law_zero_times_a_number(b2, none);
    arithmetic::law_zero_adds_nothing(a2, arithmetic::product(b2, none));
    let sr = arithmetic::root(a2);
    let wide = arithmetic::product(arithmetic::difference(a4, b4), none);
    arithmetic::law_zero_times_a_number(arithmetic::difference(a4, b4), none);
    arithmetic::law_zero_adds_nothing(a4, wide.negated());
    let narrow = arithmetic::product(arithmetic::difference(a2, b2), none);
    arithmetic::law_zero_times_a_number(arithmetic::difference(a2, b2), none);
    arithmetic::law_zero_adds_nothing(a2, narrow.negated());
    let rise = arithmetic::sum(
        arithmetic::product(elevation, elevation),
        arithmetic::product(arithmetic::product(Double { bits: TWO }, elevation), sr),
    );
    assert(geomagnetism::spherical(spheroid, elevation, zero, one).2 == arithmetic::root(
        arithmetic::sum(rise, arithmetic::quotient(a4, a2)),
    ));
    if elevation.units() > 0 {
        lemma_lifted(a, elevation);
    } else {
        order::law_units_follow_rank(elevation, elevation);
        lemma_no_rise(elevation, sr);
        let x = elevation.units();
        let y = a.units();
        assert(x * x + 2 * (x * y) == 0) by (nonlinear_arith)
            requires
                x == 0,
        ;
        assert(rise.units() * pow2(1074) == 0) by (nonlinear_arith)
            requires
                rise.units() == 0,
        ;
    }
    lemma_radius(a, elevation, rise);
}

proof fn lemma_no_rise(elevation: Double, sr: Double)
    requires
        elevation.magnitude() == 0,
        sr.finite(),
    ensures
        ({
            let rise = arithmetic::sum(
                arithmetic::product(elevation, elevation),
                arithmetic::product(arithmetic::product(Double { bits: TWO }, elevation), sr),
            );
            rise.finite() && rise.units() == 0
        }),
{
    let two = Double { bits: TWO };
    arithmetic::law_zero_times_a_number(elevation, elevation);
    arithmetic::law_zero_times_a_number(two, elevation);
    let t = arithmetic::product(two, elevation);
    arithmetic::law_zero_times_a_number(sr, t);
    arithmetic::law_factors_may_change_places(sr, t);
    arithmetic::law_zero_adds_nothing(
        arithmetic::product(elevation, elevation),
        arithmetic::product(t, sr),
    );
    assert(double::double_units(0) == 0);
}

/// The square of an axis, and the axis times a height.
proof fn lemma_leg(axis: Double, h: Double)
    requires
        is_axis(axis),
        is_height(h),
    ensures
        ({
            let square = arithmetic::product(axis, axis);
            let leg = arithmetic::sum(arithmetic::product(h, arithmetic::root(square)), square);
            &&& leg.finite() && !leg.negative()
            &&& nearness::near(
                leg.units() * pow2(1074),
                axis.units() * (axis.units() + h.units()),
                20,
            )
        }),
{
    let unit = pow2(1074);
    lemma_axis(axis);
    lemma_pow2_pos(1074);
    let square = arithmetic::product(axis, axis);
    let sr = arithmetic::root(square);
    let x = h.units();
    let y = axis.units();
    let q = square.units();
    let s = sr.units();
    let lift = arithmetic::product(h, sr);
    assert(y * (y + x) == y * y + x * y) by (nonlinear_arith);
    if x > 0 {
        lemma_bounds(x, s, 1044, 1094, 1073, 1095);
        nearness::law_near_products(h, sr, 2117, 2189);
        nearness::law_near_multiples(s, y, x, 10);
        nearness::law_nearness_adds_up(lift.units() * unit, x * s, x * y, 3, 10);
        lemma_near_bounds(lift.units() * unit, x * s, 3, 2117, 2189);
        lemma_bounds_divided(lift.units(), 2116, 2190);
        lemma_pow2_pos(1042);
    } else {
        order::law_units_follow_rank(h, h);
        arithmetic::law_zero_times_a_number(sr, h);
        arithmetic::law_factors_may_change_places(sr, h);
        assert(double::double_units(0) == 0);
        assert(x * y == 0 && lift.units() * unit == 0) by (nonlinear_arith)
            requires
                x == 0,
                lift.units() == 0,
        ;
        lemma_pow2_pos(1116);
    }
    nearness::law_near_sums(q * unit, y * y, lift.units() * unit, x * y, 3, 14);
    let both = lift.units() + q;
    assert(both * unit == q * unit + lift.units() * unit) by (nonlinear_arith)
        requires
            both == lift.units() + q,
    ;
    lemma_pow2_strictly_increases(1115, 1116);
    lemma_pow2_unfold(1117);
    nearness::law_near_totals(lift, square, 1073, 1117);
    let leg = arithmetic::sum(lift, square);
    nearness::law_near_multiples(leg.units(), both, unit as int, 3);
    nearness::law_nearness_adds_up(leg.units() * unit, both * unit, y * (y + x), 3, 14);
    assert(nearness::near(leg.units() * unit, y * (y + x), 20)) by (nonlinear_arith)
        requires
            nearness::near(leg.units() * unit, y * (y + x), 18),
            0 <= leg.units() * unit,
            0 <= y * (y + x),
    ;
}

/// The legs of a place grow with its height, too: on the equator the level leg is the
/// equatorial axis times what it and the height come to, and at a pole the other leg
/// is that of the polar axis, to within a few parts in `2^53`.
pub proof fn law_legs_grow_with_their_heights(spheroid: Wgs84, elevation: Double)
    requires
        is_axis(geomagnetism::axis_km(spheroid)),
        is_height(elevation),
        (Double { bits: 0 }).at_most(spheroid.flattened()),
        spheroid.flattened().at_most(Double { bits: ONE }),
        is_axis(
            arithmetic::product(
                geomagnetism::axis_km(spheroid),
                arithmetic::difference(Double { bits: ONE }, spheroid.flattened()),
            ),
        ),
    ensures
        ({
            let zero = Double { bits: 0 };
            let one = Double { bits: ONE };
            let a = geomagnetism::axis_km(spheroid).units();
            let b = arithmetic::product(
                geomagnetism::axis_km(spheroid),
                arithmetic::difference(one, spheroid.flattened()),
            ).units();
            let h = elevation.units();
            let equator = geomagnetism::spherical(spheroid, elevation, zero, one);
            let pole = geomagnetism::spherical(spheroid, elevation, one, zero);
            &&& nearness::near(equator.0.units() * pow2(1074), a * (a + h), 20)
            &&& nearness::near(pole.1.units() * pow2(1074), b * (b + h), 20)
        }),
{
    let zero = Double { bits: 0 };
    let one = Double { bits: ONE };
    let a = geomagnetism::axis_km(spheroid);
    let b = arithmetic::product(a, arithmetic::difference(one, spheroid.flattened()));
    let a2 = arithmetic::product(a, a);
    let b2 = arithmetic::product(b, b);
    lemma_axis(a);
    lemma_axis(b);
    lemma_pow2_pos(1073);
    order::law_units_follow_rank(a2, a2);
    order::law_units_follow_rank(b2, b2);
    arithmetic::law_one_times_a_number(one);
    arithmetic::law_zero_times_a_number(zero, zero);
    let none = arithmetic::product(zero, zero);
    arithmetic::law_times_one(a2);
    arithmetic::law_times_one(b2);
    arithmetic::law_zero_times_a_number(b2, none);
    arithmetic::law_zero_times_a_number(a2, none);
    arithmetic::law_zero_adds_nothing(a2, arithmetic::product(b2, none));
    arithmetic::law_terms_may_change_places(arithmetic::product(a2, none), b2);
    arithmetic::law_zero_adds_nothing(b2, arithmetic::product(a2, none));
    lemma_leg(a, elevation);
    lemma_leg(b, elevation);
    let level = arithmetic::sum(
        arithmetic::product(elevation, arithmetic::root(a2)),
        a2,
    );
    let upright = arithmetic::sum(
        arithmetic::product(elevation, arithmetic::root(b2)),
        b2,
    );
    arithmetic::law_one_times_a_number(level);
    arithmetic::law_one_times_a_number(upright);
    assert(geomagnetism::spherical(spheroid, elevation, zero, one).0 == level);
    assert(geomagnetism::spherical(spheroid, elevation, one, zero).1 == upright);
}

} // verus!

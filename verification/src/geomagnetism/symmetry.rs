//! How the field of one place and one model stands to that of another.
use crate::arithmetic;
use crate::double::Double;
use crate::geomagnetism::expansion;
use crate::geomagnetism::expansion::{Angles, Coefficients};
use crate::order;
use vstd::prelude::*;

verus! {

/// The two coefficients of a degree and an order, as they have come to be.
pub open spec fn coefficients_of(model: Coefficients, years: Double, degree: int, order: int) -> (
    Double,
    Double,
) {
    let at = 13 * degree + order;
    (
        expansion::grown(model.main_g[at], model.secular_g[at], years),
        expansion::grown(model.main_h[at], model.secular_h[at], years),
    )
}

spec fn level_of(pair: (Double, Double), angles: Angles, order: int) -> Double {
    arithmetic::sum(
        arithmetic::product(pair.0, expansion::cosine_of(angles, order)),
        arithmetic::product(pair.1, expansion::sine_of(angles, order)),
    )
}

spec fn turn_of(pair: (Double, Double), angles: Angles, order: int) -> Double {
    arithmetic::product(
        arithmetic::whole_number(order),
        arithmetic::difference(
            arithmetic::product(pair.0, expansion::sine_of(angles, order)),
            arithmetic::product(pair.1, expansion::cosine_of(angles, order)),
        ),
    )
}

/// A model at a place and a date.
pub struct Setting {
    pub angles: Angles,
    pub model: Coefficients,
    pub years: Double,
}

/// What a degree and an order add to the radial, the southward and the eastward
/// component.
spec fn share_of(setting: Setting, degree: int, order: int) -> (Double, Double, Double) {
    let pair = coefficients_of(setting.model, setting.years, degree, order);
    let (value, slope) = expansion::legendre(
        degree,
        order,
        setting.angles.colatitude.cosine,
        setting.angles.colatitude.sine,
    );
    let level = level_of(pair, setting.angles, order);
    (
        arithmetic::product(level, value),
        arithmetic::product(level, slope),
        arithmetic::product(turn_of(pair, setting.angles, order), value),
    )
}

/// Which of the radial, the southward and the eastward component are turned round.
pub struct Sides {
    pub radial: bool,
    pub south: bool,
    pub east: bool,
}

spec fn shares_related(one: Setting, other: Setting, sides: Sides) -> bool {
    forall|degree: int, order: int|
        1 <= degree <= 12 && 0 <= order <= degree ==> {
            let left = #[trigger] share_of(one, degree, order);
            let right = share_of(other, degree, order);
            &&& order::related(sides.radial, left.0, right.0)
            &&& order::related(sides.south, left.1, right.1)
            &&& order::related(sides.east, left.2, right.2)
        }
}

proof fn lemma_orders_related(one: Setting, other: Setting, sides: Sides, degree: int, count: int)
    requires
        1 <= degree <= 12,
        count <= degree + 1,
        shares_related(one, other, sides),
    ensures
        ({
            let left = expansion::orders(one.angles, one.model, one.years, degree, count);
            let right = expansion::orders(other.angles, other.model, other.years, degree, count);
            &&& order::related(sides.radial, left.0, right.0)
            &&& order::related(sides.south, left.1, right.1)
            &&& order::related(sides.east, left.2, right.2)
        }),
    decreases count,
{
    if count > 0 {
        lemma_orders_related(one, other, sides, degree, count - 1);
        let left = expansion::orders(one.angles, one.model, one.years, degree, count - 1);
        let right = expansion::orders(other.angles, other.model, other.years, degree, count - 1);
        let first = share_of(one, degree, count - 1);
        let second = share_of(other, degree, count - 1);
        order::law_related_sums(sides.radial, left.0, first.0, right.0, second.0);
        order::law_related_sums(sides.south, left.1, first.1, right.1, second.1);
        order::law_related_sums(sides.east, left.2, first.2, right.2, second.2);
        lemma_next_order(one, degree, count);
        lemma_next_order(other, degree, count);
    }
}

/// One more order adds its share.
proof fn lemma_next_order(setting: Setting, degree: int, count: int)
    requires
        count > 0,
    ensures
        ({
            let before = expansion::orders(
                setting.angles,
                setting.model,
                setting.years,
                degree,
                count - 1,
            );
            let share = share_of(setting, degree, count - 1);
            expansion::orders(setting.angles, setting.model, setting.years, degree, count) == (
                arithmetic::sum(before.0, share.0),
                arithmetic::sum(before.1, share.1),
                arithmetic::sum(before.2, share.2),
            )
        }),
{
}

proof fn lemma_degrees_related(
    one: Setting,
    other: Setting,
    radius_km: Double,
    sides: Sides,
    degree: int,
)
    requires
        degree <= 12,
        one.angles.colatitude.sine == other.angles.colatitude.sine,
        shares_related(one, other, sides),
    ensures
        ({
            let left = expansion::degrees(one.angles, radius_km, one.model, one.years, degree);
            let right = expansion::degrees(
                other.angles,
                radius_km,
                other.model,
                other.years,
                degree,
            );
            &&& left.0 == right.0
            &&& order::related(sides.radial, left.1, right.1)
            &&& order::related(sides.south, left.2, right.2)
            &&& order::related(sides.east, left.3, right.3)
        }),
    decreases degree,
{
    if degree > 0 {
        lemma_degrees_related(one, other, radius_km, sides, degree - 1);
        lemma_orders_related(one, other, sides, degree, degree + 1);
        let left = expansion::degrees(one.angles, radius_km, one.model, one.years, degree - 1);
        let right = expansion::degrees(
            other.angles,
            radius_km,
            other.model,
            other.years,
            degree - 1,
        );
        let (c1, c2, c3) = expansion::orders(
            one.angles,
            one.model,
            one.years,
            degree,
            degree + 1,
        );
        let (d1, d2, d3) = expansion::orders(
            other.angles,
            other.model,
            other.years,
            degree,
            degree + 1,
        );
        let factor = arithmetic::product(left.0, expansion::shrink(radius_km));
        let count = arithmetic::sum(
            arithmetic::whole_number(degree),
            Double { bits: crate::geomagnetism::ONE },
        );
        let inverse = expansion::inverse_sine(one.angles.colatitude.sine);
        order::law_related_products(false, sides.radial, count, c1, count, d1);
        order::law_related_products(
            sides.radial,
            false,
            arithmetic::product(count, c1),
            factor,
            arithmetic::product(count, d1),
            factor,
        );
        order::law_related_sums(
            sides.radial,
            left.1,
            arithmetic::product(arithmetic::product(count, c1), factor),
            right.1,
            arithmetic::product(arithmetic::product(count, d1), factor),
        );
        order::law_related_products(sides.south, false, c2, factor, d2, factor);
        order::law_related_sums(
            sides.south,
            left.2,
            arithmetic::product(c2, factor),
            right.2,
            arithmetic::product(d2, factor),
        );
        order::law_related_products(sides.east, false, c3, factor, d3, factor);
        order::law_related_products(
            sides.east,
            false,
            arithmetic::product(c3, factor),
            inverse,
            arithmetic::product(d3, factor),
            inverse,
        );
        order::law_related_sums(
            sides.east,
            left.3,
            arithmetic::product(arithmetic::product(c3, factor), inverse),
            right.3,
            arithmetic::product(arithmetic::product(d3, factor), inverse),
        );
    }
}

/// The field of related settings: `tilted` says whether the tilt between the verticals
/// is turned round, which has to be where one of the radial and the southward
/// component is and the other is not.
proof fn lemma_fields_related(
    one: Setting,
    other: Setting,
    radius_km: Double,
    sides: Sides,
    tilted: bool,
)
    requires
        one.angles.colatitude.sine == other.angles.colatitude.sine,
        shares_related(one, other, sides),
        tilted == (sides.radial != sides.south),
        order::related(tilted, one.angles.tilt.sine, other.angles.tilt.sine),
        order::alike(one.angles.tilt.cosine, other.angles.tilt.cosine),
    ensures
        ({
            let left = expansion::field(one.angles, radius_km, one.model, one.years);
            let right = expansion::field(other.angles, radius_km, other.model, other.years);
            &&& order::related(sides.south, left.x, right.x)
            &&& order::related(sides.east, left.y, right.y)
            &&& order::related(sides.radial, left.z, right.z)
        }),
{
    lemma_degrees_related(one, other, radius_km, sides, 12);
    let left = expansion::degrees(one.angles, radius_km, one.model, one.years, 12);
    let right = expansion::degrees(other.angles, radius_km, other.model, other.years, 12);
    let a = one.angles.tilt;
    let b = other.angles.tilt;
    assert(order::related(sides.south, left.2.negated(), right.2.negated()));
    order::law_related_products(
        sides.south,
        false,
        left.2.negated(),
        a.cosine,
        right.2.negated(),
        b.cosine,
    );
    order::law_related_products(sides.radial, tilted, left.1, a.sine, right.1, b.sine);
    order::law_related_sums(
        sides.south,
        arithmetic::product(left.2.negated(), a.cosine),
        arithmetic::product(left.1, a.sine),
        arithmetic::product(right.2.negated(), b.cosine),
        arithmetic::product(right.1, b.sine),
    );
    order::law_related_products(sides.south, tilted, left.2, a.sine, right.2, b.sine);
    order::law_related_products(sides.radial, false, left.1, a.cosine, right.1, b.cosine);
    order::law_related_sums(
        sides.radial,
        arithmetic::product(left.2, a.sine),
        arithmetic::product(left.1, a.cosine),
        arithmetic::product(right.2, b.sine),
        arithmetic::product(right.1, b.cosine),
    );
}

/// The level and the turn of one order, from related coefficients and sines.
proof fn lemma_pairs_related(
    pair: (Double, Double),
    other_pair: (Double, Double),
    angles: Angles,
    other: Angles,
    order: int,
    g: bool,
    h: bool,
    sine: bool,
)
    requires
        order::related(g, pair.0, other_pair.0),
        order::related(h, pair.1, other_pair.1),
        order::related(
            sine,
            expansion::sine_of(angles, order),
            expansion::sine_of(other, order),
        ),
        order::alike(expansion::cosine_of(angles, order), expansion::cosine_of(other, order)),
        g == (h != sine),
    ensures
        order::related(g, level_of(pair, angles, order), level_of(other_pair, other, order)),
        order::related(h, turn_of(pair, angles, order), turn_of(other_pair, other, order)),
{
    let s = expansion::sine_of(angles, order);
    let c = expansion::cosine_of(angles, order);
    let t = expansion::sine_of(other, order);
    let d = expansion::cosine_of(other, order);
    order::law_related_products(g, false, pair.0, c, other_pair.0, d);
    order::law_related_products(h, sine, pair.1, s, other_pair.1, t);
    order::law_related_sums(
        g,
        arithmetic::product(pair.0, c),
        arithmetic::product(pair.1, s),
        arithmetic::product(other_pair.0, d),
        arithmetic::product(other_pair.1, t),
    );
    order::law_related_products(g, sine, pair.0, s, other_pair.0, t);
    order::law_related_products(h, false, pair.1, c, other_pair.1, d);
    order::law_related_sums(
        h,
        arithmetic::product(pair.0, s),
        arithmetic::product(pair.1, c),
        arithmetic::product(other_pair.0, t),
        arithmetic::product(other_pair.1, d),
    );
    let count = arithmetic::whole_number(order);
    order::law_related_products(
        false,
        h,
        count,
        arithmetic::difference(arithmetic::product(pair.0, s), arithmetic::product(pair.1, c)),
        count,
        arithmetic::difference(
            arithmetic::product(other_pair.0, t),
            arithmetic::product(other_pair.1, d),
        ),
    );
}

/// The longitudes on the other side of the meridian of Greenwich.
pub open spec fn mirrored_longitudes(angles: Angles, other: Angles) -> bool {
    forall|order: int|
        1 <= order <= 12 ==> {
            &&& (#[trigger] other.longitudes[order]).sine
                == angles.longitudes[order].sine.negated()
            &&& other.longitudes[order].cosine == angles.longitudes[order].cosine
        }
}

/// East and west are alike. Where the longitude and every coefficient `h` are turned
/// round, the field is the mirror image: as far to the north and as far down, and as
/// far to the west as it was to the east.
pub proof fn law_east_and_west_mirror_the_field(one: Setting, other: Setting, radius_km: Double)
    requires
        other.angles.colatitude == one.angles.colatitude,
        other.angles.tilt == one.angles.tilt,
        mirrored_longitudes(one.angles, other.angles),
        forall|degree: int, order: int|
            1 <= degree <= 12 && 0 <= order <= degree ==> {
                let left = #[trigger] coefficients_of(one.model, one.years, degree, order);
                let right = coefficients_of(other.model, other.years, degree, order);
                &&& order::alike(left.0, right.0)
                &&& order::opposite(left.1, right.1)
            },
    ensures
        ({
            let left = expansion::field(one.angles, radius_km, one.model, one.years);
            let right = expansion::field(other.angles, radius_km, other.model, other.years);
            &&& order::alike(left.x, right.x)
            &&& order::opposite(left.y, right.y)
            &&& order::alike(left.z, right.z)
        }),
{
    let sides = Sides { radial: false, south: false, east: true };
    assert forall|degree: int, order: int| 1 <= degree <= 12 && 0 <= order <= degree implies {
        let left = #[trigger] share_of(one, degree, order);
        let right = share_of(other, degree, order);
        &&& order::related(sides.radial, left.0, right.0)
        &&& order::related(sides.south, left.1, right.1)
        &&& order::related(sides.east, left.2, right.2)
    } by {
        let left = coefficients_of(one.model, one.years, degree, order);
        let right = coefficients_of(other.model, other.years, degree, order);
        if order > 0 {
            assert(other.angles.longitudes[order].sine
                == one.angles.longitudes[order].sine.negated());
            order::law_negatives_are_opposite(one.angles.longitudes[order].sine);
        }
        order::law_opposites_turn_twice(
            expansion::cosine_of(one.angles, order),
            expansion::cosine_of(one.angles, order),
            expansion::cosine_of(one.angles, order),
        );
        lemma_pairs_related(left, right, one.angles, other.angles, order, false, true, true);
        lemma_shares(one, other, degree, order, false, true, false, false);
    }
    lemma_fields_related(one, other, radius_km, sides, false);
}

/// The shares of one order, from related levels, turns, values and slopes.
proof fn lemma_shares(
    one: Setting,
    other: Setting,
    degree: int,
    order: int,
    level: bool,
    turn: bool,
    value: bool,
    slope: bool,
)
    requires
        ({
            let left = coefficients_of(one.model, one.years, degree, order);
            let right = coefficients_of(other.model, other.years, degree, order);
            let p = expansion::legendre(
                degree,
                order,
                one.angles.colatitude.cosine,
                one.angles.colatitude.sine,
            );
            let q = expansion::legendre(
                degree,
                order,
                other.angles.colatitude.cosine,
                other.angles.colatitude.sine,
            );
            &&& order::related(
                level,
                level_of(left, one.angles, order),
                level_of(right, other.angles, order),
            )
            &&& order::related(
                turn,
                turn_of(left, one.angles, order),
                turn_of(right, other.angles, order),
            )
            &&& p == q && !value && !slope || order::related(value, p.0, q.0) && order::related(
                slope,
                p.1,
                q.1,
            )
        }),
    ensures
        ({
            let left = share_of(one, degree, order);
            let right = share_of(other, degree, order);
            &&& order::related(level != value, left.0, right.0)
            &&& order::related(level != slope, left.1, right.1)
            &&& order::related(turn != value, left.2, right.2)
        }),
{
    let left = coefficients_of(one.model, one.years, degree, order);
    let right = coefficients_of(other.model, other.years, degree, order);
    let p = expansion::legendre(
        degree,
        order,
        one.angles.colatitude.cosine,
        one.angles.colatitude.sine,
    );
    let q = expansion::legendre(
        degree,
        order,
        other.angles.colatitude.cosine,
        other.angles.colatitude.sine,
    );
    let a = level_of(left, one.angles, order);
    let b = level_of(right, other.angles, order);
    let c = turn_of(left, one.angles, order);
    let d = turn_of(right, other.angles, order);
    order::law_opposites_turn_twice(p.0, p.0, p.0);
    order::law_opposites_turn_twice(p.1, p.1, p.1);
    order::law_related_products(level, value, a, p.0, b, q.0);
    order::law_related_products(level, slope, a, p.1, b, q.1);
    order::law_related_products(turn, value, c, p.0, d, q.0);
}

/// Whether a function of this degree and order has opposite values on the two sides
/// of the equator.
pub open spec fn uneven(degree: int, order: int) -> bool {
    (degree + order) % 2 != 0
}

/// Across the equator the functions of an even sum of degree and order have the same
/// values and opposite slopes, the others opposite values and the same slopes.
pub proof fn law_functions_mirror_across_the_equator(
    degree: int,
    order: int,
    cosine: Double,
    sine: Double,
)
    requires
        0 <= order <= degree,
    ensures
        ({
            let north = expansion::legendre(degree, order, cosine, sine);
            let south = expansion::legendre(degree, order, cosine.negated(), sine);
            &&& order::related(uneven(degree, order), north.0, south.0)
            &&& order::related(!uneven(degree, order), north.1, south.1)
        }),
    decreases degree,
{
    let other = cosine.negated();
    order::law_negatives_are_opposite(cosine);
    order::law_opposites_turn_twice(sine, sine, sine);
    order::law_opposites_turn_twice(sine.negated(), sine.negated(), sine.negated());
    if degree <= 1 {
        if degree == 0 {
            assert(order == 0);
        }
    } else if degree == order {
        law_functions_mirror_across_the_equator(degree - 1, order - 1, cosine, sine);
        let (value, slope) = expansion::legendre(degree - 1, order - 1, cosine, sine);
        let (across, across_slope) = expansion::legendre(degree - 1, order - 1, other, sine);
        let scale = expansion::sectoral(degree);
        order::law_opposites_turn_twice(scale, scale, scale);
        assert(!uneven(degree - 1, order - 1) && !uneven(degree, order));
        order::law_related_products(false, false, value, sine, across, sine);
        order::law_related_products(
            false,
            false,
            arithmetic::product(value, sine),
            scale,
            arithmetic::product(across, sine),
            scale,
        );
        order::law_related_products(true, false, slope, sine, across_slope, sine);
        order::law_related_products(false, true, value, cosine, across, other);
        let a = arithmetic::product(slope, sine);
        let b = arithmetic::product(value, cosine);
        let c = arithmetic::product(across_slope, sine);
        let d = arithmetic::product(across, other);
        order::law_related_sums(true, a, b, c, d);
        order::law_related_products(
            true,
            false,
            arithmetic::sum(a, b),
            scale,
            arithmetic::sum(c, d),
            scale,
        );
    } else {
        lemma_mirrored_recursion(degree, order, cosine, sine);
    }
}

proof fn lemma_mirrored_recursion(degree: int, order: int, cosine: Double, sine: Double)
    requires
        0 <= order < degree,
        2 <= degree,
    ensures
        ({
            let north = expansion::legendre(degree, order, cosine, sine);
            let south = expansion::legendre(degree, order, cosine.negated(), sine);
            &&& order::related(uneven(degree, order), north.0, south.0)
            &&& order::related(!uneven(degree, order), north.1, south.1)
        }),
    decreases degree, 0int,
{
    let other = cosine.negated();
    order::law_negatives_are_opposite(cosine);
    order::law_opposites_turn_twice(sine, sine, sine);
    law_functions_mirror_across_the_equator(degree - 1, order, cosine, sine);
    let flip = uneven(degree, order);
    assert(uneven(degree - 1, order) == !flip);
    let (value, slope) = expansion::legendre(degree - 1, order, cosine, sine);
    let (across, across_slope) = expansion::legendre(degree - 1, order, other, sine);
    let (earlier, earlier_slope) = expansion::legendre(degree - 2, order, cosine, sine);
    let (before, before_slope) = expansion::legendre(degree - 2, order, other, sine);
    if order <= degree - 2 {
        law_functions_mirror_across_the_equator(degree - 2, order, cosine, sine);
        assert(uneven(degree - 2, order) == flip);
    } else {
        assert(earlier.rank() == 0 && before.rank() == 0);
    }
    assert(order::related(flip, earlier, before));
    assert(order::related(!flip, earlier_slope, before_slope));
    let odd = expansion::odd(degree);
    let upper = expansion::upper(degree, order);
    let lower = expansion::lower(degree, order);
    order::law_opposites_turn_twice(odd, odd, odd);
    order::law_opposites_turn_twice(upper, upper, upper);
    order::law_opposites_turn_twice(lower, lower, lower);
    // The value.
    order::law_related_products(!flip, true, value, cosine, across, other);
    let a = arithmetic::product(value, cosine);
    let b = arithmetic::product(across, other);
    order::law_related_products(flip, false, a, odd, b, odd);
    order::law_related_products(flip, false, earlier, upper, before, upper);
    let c = arithmetic::product(a, odd);
    let d = arithmetic::product(b, odd);
    order::law_related_sums(
        flip,
        c,
        arithmetic::product(earlier, upper),
        d,
        arithmetic::product(before, upper),
    );
    order::law_related_products(
        flip,
        false,
        arithmetic::difference(c, arithmetic::product(earlier, upper)),
        lower,
        arithmetic::difference(d, arithmetic::product(before, upper)),
        lower,
    );
    // The slope.
    order::law_related_products(flip, true, slope, cosine, across_slope, other);
    order::law_related_products(!flip, false, value, sine, across, sine);
    let e = arithmetic::product(slope, cosine);
    let f = arithmetic::product(value, sine);
    let g = arithmetic::product(across_slope, other);
    let h = arithmetic::product(across, sine);
    order::law_related_sums(!flip, e, f, g, h);
    let i = arithmetic::difference(e, f);
    let j = arithmetic::difference(g, h);
    order::law_related_products(!flip, false, i, odd, j, odd);
    order::law_related_products(!flip, false, earlier_slope, upper, before_slope, upper);
    let k = arithmetic::product(i, odd);
    let l = arithmetic::product(j, odd);
    order::law_related_sums(
        !flip,
        k,
        arithmetic::product(earlier_slope, upper),
        l,
        arithmetic::product(before_slope, upper),
    );
    order::law_related_products(
        !flip,
        false,
        arithmetic::difference(k, arithmetic::product(earlier_slope, upper)),
        lower,
        arithmetic::difference(l, arithmetic::product(before_slope, upper)),
        lower,
    );
}

/// North and south are alike. Where the latitude is turned round, and with it every
/// coefficient whose degree and order add up to an odd number, the field is the
/// mirror image: as far down and as far to the east, and as far to the south as it
/// was to the north.
pub proof fn law_north_and_south_mirror_the_field(one: Setting, other: Setting, radius_km: Double)
    requires
        other.angles.colatitude.sine == one.angles.colatitude.sine,
        other.angles.colatitude.cosine == one.angles.colatitude.cosine.negated(),
        other.angles.tilt.sine == one.angles.tilt.sine.negated(),
        other.angles.tilt.cosine == one.angles.tilt.cosine,
        forall|order: int|
            1 <= order <= 12 ==> #[trigger] other.angles.longitudes[order]
                == one.angles.longitudes[order],
        forall|degree: int, order: int|
            1 <= degree <= 12 && 0 <= order <= degree ==> {
                let left = #[trigger] coefficients_of(one.model, one.years, degree, order);
                let right = coefficients_of(other.model, other.years, degree, order);
                &&& order::related(uneven(degree, order), left.0, right.0)
                &&& order::related(uneven(degree, order), left.1, right.1)
            },
    ensures
        ({
            let left = expansion::field(one.angles, radius_km, one.model, one.years);
            let right = expansion::field(other.angles, radius_km, other.model, other.years);
            &&& order::opposite(left.x, right.x)
            &&& order::alike(left.y, right.y)
            &&& order::alike(left.z, right.z)
        }),
{
    let sides = Sides { radial: false, south: true, east: false };
    assert forall|degree: int, order: int| 1 <= degree <= 12 && 0 <= order <= degree implies {
        let left = #[trigger] share_of(one, degree, order);
        let right = share_of(other, degree, order);
        &&& order::related(sides.radial, left.0, right.0)
        &&& order::related(sides.south, left.1, right.1)
        &&& order::related(sides.east, left.2, right.2)
    } by {
        let left = coefficients_of(one.model, one.years, degree, order);
        let right = coefficients_of(other.model, other.years, degree, order);
        let flip = uneven(degree, order);
        if order > 0 {
            assert(other.angles.longitudes[order] == one.angles.longitudes[order]);
        }
        let s = expansion::sine_of(one.angles, order);
        let c = expansion::cosine_of(one.angles, order);
        order::law_opposites_turn_twice(s, s, s);
        order::law_opposites_turn_twice(c, c, c);
        lemma_pairs_related(left, right, one.angles, other.angles, order, flip, flip, false);
        law_functions_mirror_across_the_equator(
            degree,
            order,
            one.angles.colatitude.cosine,
            one.angles.colatitude.sine,
        );
        lemma_shares(one, other, degree, order, flip, flip, flip, !flip);
    }
    order::law_negatives_are_opposite(one.angles.tilt.sine);
    let c = one.angles.tilt.cosine;
    order::law_opposites_turn_twice(c, c, c);
    lemma_fields_related(one, other, radius_km, sides, true);
}

/// The model drifts: its field after some years is the field, on its first day, of the
/// model whose coefficients have each moved by what they move in a year, as many
/// times.
pub proof fn law_the_model_drifts(
    angles: Angles,
    radius_km: Double,
    model: Coefficients,
    moved: Coefficients,
    years: Double,
)
    requires
        forall|degree: int, order: int|
            #![trigger moved.main_g[13 * degree + order]]
            1 <= degree <= 12 && 0 <= order <= degree ==> {
                let at = 13 * degree + order;
                &&& moved.main_g[at] == arithmetic::sum(
                    model.main_g[at],
                    arithmetic::product(years, model.secular_g[at]),
                )
                &&& moved.main_h[at] == arithmetic::sum(
                    model.main_h[at],
                    arithmetic::product(years, model.secular_h[at]),
                )
                &&& moved.main_g[at].finite()
                &&& moved.main_h[at].finite()
                &&& moved.secular_g[at].finite()
                &&& moved.secular_h[at].finite()
            },
    ensures
        ({
            let later = expansion::field(angles, radius_km, model, years);
            let first = expansion::field(angles, radius_km, moved, Double { bits: 0 });
            &&& order::alike(later.x, first.x)
            &&& order::alike(later.y, first.y)
            &&& order::alike(later.z, first.z)
        }),
{
    let zero = Double { bits: 0 };
    let one = Setting { angles, model, years };
    let other = Setting { angles, model: moved, years: zero };
    let sides = Sides { radial: false, south: false, east: false };
    assert forall|degree: int, order: int| 1 <= degree <= 12 && 0 <= order <= degree implies {
        let left = #[trigger] share_of(one, degree, order);
        let right = share_of(other, degree, order);
        &&& order::related(sides.radial, left.0, right.0)
        &&& order::related(sides.south, left.1, right.1)
        &&& order::related(sides.east, left.2, right.2)
    } by {
        let at = 13 * degree + order;
        assert(moved.main_g[13 * degree + order] == moved.main_g[at]);
        lemma_no_drift(moved.main_g[at], moved.secular_g[at]);
        lemma_no_drift(moved.main_h[at], moved.secular_h[at]);
        let left = coefficients_of(model, years, degree, order);
        let right = coefficients_of(moved, zero, degree, order);
        let s = expansion::sine_of(angles, order);
        let c = expansion::cosine_of(angles, order);
        order::law_opposites_turn_twice(s, s, s);
        order::law_opposites_turn_twice(c, c, c);
        lemma_pairs_related(left, right, angles, angles, order, false, false, false);
        lemma_shares(one, other, degree, order, false, false, false, false);
    }
    let t = angles.tilt;
    order::law_opposites_turn_twice(t.sine, t.sine, t.sine);
    order::law_opposites_turn_twice(t.cosine, t.cosine, t.cosine);
    lemma_fields_related(one, other, radius_km, sides, false);
}

proof fn lemma_no_drift(main: Double, secular: Double)
    requires
        main.finite(),
        secular.finite(),
    ensures
        order::alike(main, expansion::grown(main, secular, Double { bits: 0 })),
{
    let zero = Double { bits: 0 };
    arithmetic::law_zero_times_a_number(secular, zero);
    arithmetic::law_factors_may_change_places(secular, zero);
    arithmetic::law_zero_adds_nothing(main, arithmetic::product(zero, secular));
}

} // verus!

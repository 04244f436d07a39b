//! Where places lie on the globe, and how high things stand over their horizons.
use crate::angle::Turn;
use crate::arithmetic;
use crate::double;
use crate::double::Double;
use crate::geomagnetism;
use crate::geomagnetism::Wgs84;
use crate::order;
use crate::satellite;
use crate::satellite::Bearings;
use crate::setpoint;
use vstd::prelude::*;

verus! {

/// The turn on the other side of zero.
pub open spec fn reversed(turn: Turn) -> Turn {
    Turn { angle: turn.angle.negated(), sine: turn.sine.negated(), cosine: turn.cosine }
}

/// A turn, a quarter turn further on: what was the cosine is the sine, and what was
/// the sine is the negative of the cosine.
pub open spec fn quarter_on(turn: Turn, further: Turn) -> bool {
    further.sine == turn.cosine && further.cosine == turn.sine.negated()
}

/// The other hemisphere has the same verticals.
proof fn lemma_normals_mirror(spheroid: Wgs84, sine: Double)
    ensures
        satellite::normal_km(spheroid, sine.negated()) == satellite::normal_km(spheroid, sine),
{
    let e2 = satellite::eccentricity_squared(spheroid);
    order::law_signs_pass_through_products(e2, sine);
    let once = arithmetic::product(e2, sine);
    order::law_signs_pass_through_products(once, sine);
}

/// North and south are alike: the mirrored latitude lies as far out and as far along,
/// and on the other side of the equator.
pub proof fn law_hemispheres_mirror(spheroid: Wgs84, at: Bearings, altitude_km: Double)
    ensures
        ({
            let north = satellite::place_of(spheroid, at, altitude_km);
            let south = satellite::place_of(
                spheroid,
                Bearings { latitude: reversed(at.latitude), ..at },
                altitude_km,
            );
            &&& south[0] == north[0]
            &&& south[1] == north[1]
            &&& order::opposite(north[2], south[2])
        }),
{
    let sine = at.latitude.sine;
    lemma_normals_mirror(spheroid, sine);
    let normal = satellite::normal_km(spheroid, sine);
    let up = arithmetic::sum(
        arithmetic::product(
            normal,
            arithmetic::difference(
                Double { bits: geomagnetism::ONE },
                satellite::eccentricity_squared(spheroid),
            ),
        ),
        altitude_km,
    );
    order::law_negatives_are_opposite(sine);
    order::law_opposite_products(sine, up, sine.negated(), up);
}

/// East and west are alike: the mirrored longitude lies on the other side of the
/// meridian of Greenwich, and else where it lay.
pub proof fn law_east_and_west_mirror(spheroid: Wgs84, at: Bearings, altitude_km: Double)
    ensures
        ({
            let east = satellite::place_of(spheroid, at, altitude_km);
            let west = satellite::place_of(
                spheroid,
                Bearings { longitude: reversed(at.longitude), ..at },
                altitude_km,
            );
            &&& west[0] == east[0]
            &&& order::opposite(east[1], west[1])
            &&& west[2] == east[2]
        }),
{
    let normal = satellite::normal_km(spheroid, at.latitude.sine);
    let out = arithmetic::product(arithmetic::sum(normal, altitude_km), at.latitude.cosine);
    let sine = at.longitude.sine;
    order::law_negatives_are_opposite(sine);
    order::law_opposite_products(sine, out, sine.negated(), out);
}

/// A quarter turn of longitude carries X to Y and Y to minus X.
pub proof fn law_places_turn_with_their_longitude(
    spheroid: Wgs84,
    at: Bearings,
    further: Bearings,
    altitude_km: Double,
)
    requires
        further.latitude == at.latitude,
        quarter_on(at.longitude, further.longitude),
    ensures
        ({
            let before = satellite::place_of(spheroid, at, altitude_km);
            let after = satellite::place_of(spheroid, further, altitude_km);
            &&& order::opposite(before[1], after[0])
            &&& after[1] == before[0]
            &&& after[2] == before[2]
        }),
{
    let normal = satellite::normal_km(spheroid, at.latitude.sine);
    let out = arithmetic::product(arithmetic::sum(normal, altitude_km), at.latitude.cosine);
    let sine = at.longitude.sine;
    order::law_negatives_are_opposite(sine);
    order::law_opposite_products(sine, out, sine.negated(), out);
}

/// On the equator the vertical runs to the centre of the Earth.
proof fn lemma_equator(spheroid: Wgs84)
    requires
        satellite::eccentricity_squared(spheroid).finite(),
        geomagnetism::axis_km(spheroid).finite(),
    ensures
        satellite::normal_km(spheroid, Double { bits: 0 }) == geomagnetism::axis_km(spheroid),
{
    let zero = Double { bits: 0 };
    let one = Double { bits: geomagnetism::ONE };
    let e2 = satellite::eccentricity_squared(spheroid);
    arithmetic::law_zero_times_a_number(e2, zero);
    let once = arithmetic::product(e2, zero);
    arithmetic::law_zero_times_a_number(once, zero);
    let twice = arithmetic::product(once, zero);
    arithmetic::law_zero_adds_nothing(one, twice.negated());
    arithmetic::lemma_one();
    arithmetic::law_roots_undo_squares(0x3ff0_0000_0000_0000);
    assert(arithmetic::root(one) == one);
    arithmetic::law_over_one(geomagnetism::axis_km(spheroid));
}

/// The equator is a circle of the equatorial axis: a place on it lies that far out and
/// its altitude more, in the direction of its longitude.
pub proof fn law_the_equator_is_a_circle(spheroid: Wgs84, at: Bearings, altitude_km: Double)
    requires
        satellite::eccentricity_squared(spheroid).finite(),
        geomagnetism::axis_km(spheroid).finite(),
        altitude_km.finite(),
        arithmetic::sum(geomagnetism::axis_km(spheroid), altitude_km).finite(),
        at.latitude.sine == (Double { bits: 0 }),
        at.latitude.cosine == (Double { bits: geomagnetism::ONE }),
        arithmetic::sum(
            arithmetic::product(
                geomagnetism::axis_km(spheroid),
                arithmetic::difference(
                    Double { bits: geomagnetism::ONE },
                    satellite::eccentricity_squared(spheroid),
                ),
            ),
            altitude_km,
        ).finite(),
    ensures
        ({
            let place = satellite::place_of(spheroid, at, altitude_km);
            let out = arithmetic::sum(geomagnetism::axis_km(spheroid), altitude_km);
            &&& place[0] == arithmetic::product(out, at.longitude.cosine)
            &&& place[1] == arithmetic::product(out, at.longitude.sine)
            &&& place[2].magnitude() == 0
        }),
{
    lemma_equator(spheroid);
    let out = arithmetic::sum(geomagnetism::axis_km(spheroid), altitude_km);
    arithmetic::law_times_one(out);
    let up = arithmetic::sum(
        arithmetic::product(
            geomagnetism::axis_km(spheroid),
            arithmetic::difference(
                Double { bits: geomagnetism::ONE },
                satellite::eccentricity_squared(spheroid),
            ),
        ),
        altitude_km,
    );
    arithmetic::law_zero_times_a_number(up, Double { bits: 0 });
}

/// The way from a place to a target, as it runs to the east, to the north and up.
spec fn way(at: Bearings, dx: Double, dy: Double, dz: Double) -> Seq<Double> {
    let north = arithmetic::sum(
        arithmetic::difference(
            arithmetic::product(
                arithmetic::product(at.latitude.sine.negated(), at.longitude.cosine),
                dx,
            ),
            arithmetic::product(arithmetic::product(at.latitude.sine, at.longitude.sine), dy),
        ),
        arithmetic::product(at.latitude.cosine, dz),
    );
    let east = arithmetic::sum(
        arithmetic::product(at.longitude.sine.negated(), dx),
        arithmetic::product(at.longitude.cosine, dy),
    );
    let up = arithmetic::sum(
        arithmetic::sum(
            arithmetic::product(arithmetic::product(at.latitude.cosine, at.longitude.cosine), dx),
            arithmetic::product(arithmetic::product(at.latitude.cosine, at.longitude.sine), dy),
        ),
        arithmetic::product(at.latitude.sine, dz),
    );
    seq![east, north, up]
}

/// The same number, with the same sign or the opposite one.
spec fn same_size(left: Double, right: Double) -> bool {
    order::alike(left, right) || order::opposite(left, right)
}

/// A component's square does not know its sign.
proof fn lemma_same_squares(left: Double, right: Double)
    requires
        same_size(left, right),
    ensures
        order::alike(arithmetic::product(left, left), arithmetic::product(right, right)),
{
    if order::alike(left, right) {
        order::law_alike_products(left, left, right, right);
    } else {
        order::law_doubly_opposite_products(left, left, right, right);
    }
}

/// Ways that differ in no more than the signs of their level parts lead equally high.
proof fn lemma_same_elevation(left: Seq<Double>, right: Seq<Double>)
    requires
        left.len() == 3,
        right.len() == 3,
        same_size(left[0], right[0]),
        same_size(left[1], right[1]),
        order::alike(left[2], right[2]),
        arithmetic::quotient(left[2], setpoint::length_of(left)).finite(),
    ensures
        order::alike(
            arithmetic::quotient(left[2], setpoint::length_of(left)),
            arithmetic::quotient(right[2], setpoint::length_of(right)),
        ),
{
    lemma_same_squares(left[0], right[0]);
    lemma_same_squares(left[1], right[1]);
    lemma_same_squares(left[2], right[2]);
    let a = arithmetic::product(left[0], left[0]);
    let b = arithmetic::product(left[1], left[1]);
    let c = arithmetic::product(left[2], left[2]);
    let d = arithmetic::product(right[0], right[0]);
    let e = arithmetic::product(right[1], right[1]);
    let f = arithmetic::product(right[2], right[2]);
    order::law_alike_sums(a, b, d, e);
    order::law_alike_sums(arithmetic::sum(a, b), c, arithmetic::sum(d, e), f);
    order::law_alike_roots(
        arithmetic::sum(arithmetic::sum(a, b), c),
        arithmetic::sum(arithmetic::sum(d, e), f),
    );
    assert(setpoint::length_of(left).magnitude() > 0);
    order::law_alike_quotients(
        left[2],
        setpoint::length_of(left),
        right[2],
        setpoint::length_of(right),
    );
}

/// Across the equator a way keeps its height and turns round to the north.
proof fn lemma_way_mirrors_across_the_equator(
    at: Bearings,
    other: Bearings,
    dx: Double,
    dy: Double,
    dz: Double,
    ez: Double,
)
    requires
        other.latitude.sine == at.latitude.sine.negated(),
        other.latitude.cosine == at.latitude.cosine,
        other.longitude == at.longitude,
        order::opposite(dz, ez),
    ensures
        same_size(way(at, dx, dy, dz)[0], way(other, dx, dy, ez)[0]),
        same_size(way(at, dx, dy, dz)[1], way(other, dx, dy, ez)[1]),
        order::alike(way(at, dx, dy, dz)[2], way(other, dx, dy, ez)[2]),
{
    let s = at.latitude.sine;
    let c = at.latitude.cosine;
    let lc = at.longitude.cosine;
    let ls = at.longitude.sine;
    order::law_negatives_are_opposite(s);
    order::law_opposite_products(s.negated(), lc, s, lc);
    order::law_opposite_products(s, ls, s.negated(), ls);
    let a = arithmetic::product(s.negated(), lc);
    let b = arithmetic::product(s, lc);
    let e = arithmetic::product(s, ls);
    let f = arithmetic::product(s.negated(), ls);
    order::law_opposite_products(a, dx, b, dx);
    order::law_opposite_products(e, dy, f, dy);
    order::law_opposite_differences(
        arithmetic::product(a, dx),
        arithmetic::product(e, dy),
        arithmetic::product(b, dx),
        arithmetic::product(f, dy),
    );
    order::law_opposite_products(dz, c, ez, c);
    order::law_opposite_sums(
        arithmetic::difference(arithmetic::product(a, dx), arithmetic::product(e, dy)),
        arithmetic::product(c, dz),
        arithmetic::difference(arithmetic::product(b, dx), arithmetic::product(f, dy)),
        arithmetic::product(c, ez),
    );
    order::law_doubly_opposite_products(s, dz, s.negated(), ez);
    let flat = arithmetic::sum(
        arithmetic::product(arithmetic::product(c, lc), dx),
        arithmetic::product(arithmetic::product(c, ls), dy),
    );
    order::law_alike_sums(
        flat,
        arithmetic::product(s, dz),
        flat,
        arithmetic::product(s.negated(), ez),
    );
}

/// North and south see alike: with the station and the target mirrored across the
/// equator, the target stands as high.
#[verifier::rlimit(80)]
pub proof fn law_elevations_mirror_across_the_equator(
    spheroid: Wgs84,
    at: Bearings,
    target_km: Seq<Double>,
)
    requires
        target_km.len() == 3,
        satellite::elevation_sine_of(spheroid, at, target_km).finite(),
    ensures
        order::alike(
            satellite::elevation_sine_of(spheroid, at, target_km),
            satellite::elevation_sine_of(
                spheroid,
                Bearings { latitude: reversed(at.latitude), ..at },
                seq![target_km[0], target_km[1], target_km[2].negated()],
            ),
        ),
{
    let zero = Double { bits: 0 };
    let other = Bearings { latitude: reversed(at.latitude), ..at };
    let target = seq![target_km[0], target_km[1], target_km[2].negated()];
    let here = satellite::place_of(spheroid, at, zero);
    let there = satellite::place_of(spheroid, other, zero);
    law_hemispheres_mirror(spheroid, at, zero);
    let dx = arithmetic::difference(target_km[0], here[0]);
    let dy = arithmetic::difference(target_km[1], here[1]);
    let dz = arithmetic::difference(target_km[2], here[2]);
    let ez = arithmetic::difference(target[2], there[2]);
    order::law_negatives_are_opposite(target_km[2]);
    order::law_opposite_differences(target_km[2], here[2], target[2], there[2]);
    lemma_way_mirrors_across_the_equator(at, other, dx, dy, dz, ez);
    lemma_elevation(spheroid, at, target_km);
    lemma_elevation(spheroid, other, target);
    lemma_same_elevation(way(at, dx, dy, dz), way(other, dx, dy, ez));
}

/// Across the meridian of Greenwich a way keeps its height and turns round to the east.
proof fn lemma_way_mirrors_across_greenwich(
    at: Bearings,
    other: Bearings,
    dx: Double,
    dy: Double,
    dz: Double,
    ey: Double,
)
    requires
        other.longitude.sine == at.longitude.sine.negated(),
        other.longitude.cosine == at.longitude.cosine,
        other.latitude == at.latitude,
        order::opposite(dy, ey),
    ensures
        same_size(way(at, dx, dy, dz)[0], way(other, dx, ey, dz)[0]),
        same_size(way(at, dx, dy, dz)[1], way(other, dx, ey, dz)[1]),
        order::alike(way(at, dx, dy, dz)[2], way(other, dx, ey, dz)[2]),
{
    let s = at.latitude.sine;
    let c = at.latitude.cosine;
    let lc = at.longitude.cosine;
    let ls = at.longitude.sine;
    order::law_negatives_are_opposite(ls);
    let first = arithmetic::product(arithmetic::product(s.negated(), lc), dx);
    order::law_opposite_products(ls, s, ls.negated(), s);
    let e = arithmetic::product(s, ls);
    let f = arithmetic::product(s, ls.negated());
    order::law_doubly_opposite_products(e, dy, f, ey);
    order::law_alike_differences(
        first,
        arithmetic::product(e, dy),
        first,
        arithmetic::product(f, ey),
    );
    order::law_alike_sums(
        arithmetic::difference(first, arithmetic::product(e, dy)),
        arithmetic::product(c, dz),
        arithmetic::difference(first, arithmetic::product(f, ey)),
        arithmetic::product(c, dz),
    );
    order::law_opposite_products(ls.negated(), dx, ls, dx);
    order::law_opposite_products(dy, lc, ey, lc);
    order::law_opposite_sums(
        arithmetic::product(ls.negated(), dx),
        arithmetic::product(lc, dy),
        arithmetic::product(ls, dx),
        arithmetic::product(lc, ey),
    );
    order::law_opposite_products(ls, c, ls.negated(), c);
    let g = arithmetic::product(c, ls);
    let h = arithmetic::product(c, ls.negated());
    order::law_doubly_opposite_products(g, dy, h, ey);
    let along = arithmetic::product(arithmetic::product(c, lc), dx);
    order::law_alike_sums(
        along,
        arithmetic::product(g, dy),
        along,
        arithmetic::product(h, ey),
    );
    order::law_alike_sums(
        arithmetic::sum(along, arithmetic::product(g, dy)),
        arithmetic::product(s, dz),
        arithmetic::sum(along, arithmetic::product(h, ey)),
        arithmetic::product(s, dz),
    );
    assert(ls.negated().negated() == ls);
}

/// East and west see alike: with the station and the target mirrored across the
/// meridian of Greenwich, the target stands as high.
#[verifier::rlimit(80)]
pub proof fn law_elevations_mirror_across_greenwich(
    spheroid: Wgs84,
    at: Bearings,
    target_km: Seq<Double>,
)
    requires
        target_km.len() == 3,
        satellite::elevation_sine_of(spheroid, at, target_km).finite(),
    ensures
        order::alike(
            satellite::elevation_sine_of(spheroid, at, target_km),
            satellite::elevation_sine_of(
                spheroid,
                Bearings { longitude: reversed(at.longitude), ..at },
                seq![target_km[0], target_km[1].negated(), target_km[2]],
            ),
        ),
{
    let zero = Double { bits: 0 };
    let other = Bearings { longitude: reversed(at.longitude), ..at };
    let target = seq![target_km[0], target_km[1].negated(), target_km[2]];
    let here = satellite::place_of(spheroid, at, zero);
    let there = satellite::place_of(spheroid, other, zero);
    law_east_and_west_mirror(spheroid, at, zero);
    let dx = arithmetic::difference(target_km[0], here[0]);
    let dy = arithmetic::difference(target_km[1], here[1]);
    let dz = arithmetic::difference(target_km[2], here[2]);
    let ey = arithmetic::difference(target[1], there[1]);
    order::law_negatives_are_opposite(target_km[1]);
    order::law_opposite_differences(target_km[1], here[1], target[1], there[1]);
    lemma_way_mirrors_across_greenwich(at, other, dx, dy, dz, ey);
    lemma_elevation(spheroid, at, target_km);
    lemma_elevation(spheroid, other, target);
    lemma_same_elevation(way(at, dx, dy, dz), way(other, dx, ey, dz));
}

/// A quarter turn further on a way is the same way.
proof fn lemma_way_turns(
    at: Bearings,
    further: Bearings,
    dx: Double,
    dy: Double,
    dz: Double,
    ex: Double,
)
    requires
        further.latitude == at.latitude,
        quarter_on(at.longitude, further.longitude),
        order::opposite(dy, ex),
    ensures
        same_size(way(at, dx, dy, dz)[0], way(further, ex, dx, dz)[0]),
        same_size(way(at, dx, dy, dz)[1], way(further, ex, dx, dz)[1]),
        order::alike(way(at, dx, dy, dz)[2], way(further, ex, dx, dz)[2]),
{
    let s = at.latitude.sine;
    let c = at.latitude.cosine;
    let lc = at.longitude.cosine;
    let ls = at.longitude.sine;
    order::law_negatives_are_opposite(s);
    order::law_negatives_are_opposite(ls);
    order::law_negatives_are_opposite(lc);
    // To the north.
    order::law_doubly_opposite_products(s.negated(), ls.negated(), s, ls);
    let p = arithmetic::product(s, ls);
    let q = arithmetic::product(s.negated(), ls.negated());
    order::law_opposite_products(ex, q, dy, p);
    let first = arithmetic::product(arithmetic::product(s.negated(), lc), dx);
    let second = arithmetic::product(p, dy);
    order::law_opposite_products(s.negated(), lc, s, lc);
    order::law_opposite_products(
        arithmetic::product(s.negated(), lc),
        dx,
        arithmetic::product(s, lc),
        dx,
    );
    let swapped = arithmetic::product(q, ex);
    let other = arithmetic::product(arithmetic::product(s, lc), dx);
    order::law_negatives_are_opposite(other);
    order::law_negatives_are_opposite(second);
    order::law_opposites_turn_twice(first, other, other.negated());
    order::law_opposites_turn_twice(second.negated(), second, swapped);
    order::law_alike_sums(first, second.negated(), other.negated(), swapped);
    arithmetic::law_terms_may_change_places(other.negated(), swapped);
    order::law_alike_sums(
        arithmetic::difference(first, second),
        arithmetic::product(c, dz),
        arithmetic::difference(swapped, other),
        arithmetic::product(c, dz),
    );
    // To the east.
    order::law_doubly_opposite_products(lc.negated(), ex, lc, dy);
    order::law_alike_sums(
        arithmetic::product(ls.negated(), dx),
        arithmetic::product(lc, dy),
        arithmetic::product(ls.negated(), dx),
        arithmetic::product(lc.negated(), ex),
    );
    arithmetic::law_terms_may_change_places(
        arithmetic::product(ls.negated(), dx),
        arithmetic::product(lc.negated(), ex),
    );
    // Up.
    order::law_opposite_products(ls.negated(), c, ls, c);
    order::law_doubly_opposite_products(
        arithmetic::product(c, ls.negated()),
        ex,
        arithmetic::product(c, ls),
        dy,
    );
    let along = arithmetic::product(arithmetic::product(c, lc), dx);
    let across = arithmetic::product(arithmetic::product(c, ls), dy);
    let turned = arithmetic::product(arithmetic::product(c, ls.negated()), ex);
    order::law_alike_sums(along, across, along, turned);
    arithmetic::law_terms_may_change_places(along, turned);
    order::law_alike_sums(
        arithmetic::sum(along, across),
        arithmetic::product(s, dz),
        arithmetic::sum(turned, along),
        arithmetic::product(s, dz),
    );
}

/// Every meridian sees alike: with the station and the target a quarter turn further
/// on, the target stands as high.
#[verifier::rlimit(80)]
pub proof fn law_elevations_turn_with_the_earth(
    spheroid: Wgs84,
    at: Bearings,
    further: Bearings,
    target_km: Seq<Double>,
)
    requires
        target_km.len() == 3,
        further.latitude == at.latitude,
        quarter_on(at.longitude, further.longitude),
        satellite::elevation_sine_of(spheroid, at, target_km).finite(),
    ensures
        order::alike(
            satellite::elevation_sine_of(spheroid, at, target_km),
            satellite::elevation_sine_of(
                spheroid,
                further,
                seq![target_km[1].negated(), target_km[0], target_km[2]],
            ),
        ),
{
    let zero = Double { bits: 0 };
    let target = seq![target_km[1].negated(), target_km[0], target_km[2]];
    let here = satellite::place_of(spheroid, at, zero);
    let there = satellite::place_of(spheroid, further, zero);
    law_places_turn_with_their_longitude(spheroid, at, further, zero);
    let dx = arithmetic::difference(target_km[0], here[0]);
    let dy = arithmetic::difference(target_km[1], here[1]);
    let dz = arithmetic::difference(target_km[2], here[2]);
    let ex = arithmetic::difference(target[0], there[0]);
    order::law_negatives_are_opposite(target_km[1]);
    order::law_opposite_differences(target_km[1], here[1], target[0], there[0]);
    lemma_way_turns(at, further, dx, dy, dz, ex);
    lemma_elevation(spheroid, at, target_km);
    lemma_elevation(spheroid, further, target);
    lemma_same_elevation(way(at, dx, dy, dz), way(further, ex, dx, dz));
}

/// A zero of either sign adds nothing to a finite number.
proof fn lemma_padded(number: Double, zero: Double)
    requires
        number.finite(),
        zero.magnitude() == 0,
    ensures
        order::alike(arithmetic::sum(number, zero), number),
        order::alike(arithmetic::sum(zero, number), number),
        order::alike(arithmetic::difference(zero, number), number.negated()),
        arithmetic::sum(number, zero).finite(),
        arithmetic::sum(zero, number).finite(),
        arithmetic::difference(number, zero).finite(),
        order::alike(arithmetic::difference(number, zero), number),
{
    arithmetic::law_zero_adds_nothing(number, zero);
    arithmetic::law_zero_adds_nothing(number, zero.negated());
    arithmetic::law_terms_may_change_places(number, zero);
    arithmetic::law_zero_adds_nothing(number.negated(), zero);
    arithmetic::law_terms_may_change_places(number.negated(), zero);
}

/// Zero times a finite number, from either side.
proof fn lemma_nothing_of(zero: Double, number: Double)
    requires
        number.finite(),
        zero.magnitude() == 0,
    ensures
        arithmetic::product(zero, number).magnitude() == 0,
        arithmetic::product(number, zero).magnitude() == 0,
{
    arithmetic::law_zero_times_a_number(number, zero);
    arithmetic::law_factors_may_change_places(number, zero);
}

/// Where the equator meets the meridian of Greenwich, X is up, Y is east and Z is
/// north.
proof fn lemma_way_on_the_equator(at: Bearings, dx: Double, dy: Double, dz: Double)
    requires
        at.latitude.sine == (Double { bits: 0 }),
        at.latitude.cosine == (Double { bits: geomagnetism::ONE }),
        at.longitude.sine == (Double { bits: 0 }),
        at.longitude.cosine == (Double { bits: geomagnetism::ONE }),
        dx.finite(),
        dy.finite(),
        dz.finite(),
    ensures
        order::alike(way(at, dx, dy, dz)[0], dy),
        order::alike(way(at, dx, dy, dz)[1], dz),
        order::alike(way(at, dx, dy, dz)[2], dx),
{
    let zero = Double { bits: 0 };
    let one = Double { bits: geomagnetism::ONE };
    arithmetic::law_one_times_a_number(dx);
    arithmetic::law_one_times_a_number(dy);
    arithmetic::law_one_times_a_number(dz);
    arithmetic::law_one_times_a_number(one);
    lemma_nothing_of(zero, one);
    lemma_nothing_of(zero.negated(), one);
    lemma_nothing_of(zero, zero);
    lemma_nothing_of(arithmetic::product(zero.negated(), one), dx);
    lemma_nothing_of(arithmetic::product(zero, zero), dy);
    lemma_nothing_of(zero.negated(), dx);
    lemma_nothing_of(arithmetic::product(one, zero), dy);
    lemma_nothing_of(zero, dz);
    let first = arithmetic::product(arithmetic::product(zero.negated(), one), dx);
    let second = arithmetic::product(arithmetic::product(zero, zero), dy);
    arithmetic::law_zero_adds_nothing(first, second.negated());
    let level = arithmetic::difference(first, second);
    lemma_padded(dz, level);
    lemma_padded(dy, arithmetic::product(zero.negated(), dx));
    lemma_padded(dx, arithmetic::product(arithmetic::product(one, zero), dy));
    let flat = arithmetic::sum(dx, arithmetic::product(arithmetic::product(one, zero), dy));
    lemma_padded(flat, arithmetic::product(zero, dz));
    order::law_opposites_turn_twice(way(at, dx, dy, dz)[2], flat, dx);
}

/// Where the equator meets the meridian of Greenwich lies at the equatorial axis on X.
proof fn lemma_origin(spheroid: Wgs84, at: Bearings)
    requires
        satellite::eccentricity_squared(spheroid).finite(),
        geomagnetism::axis_km(spheroid).finite(),
        arithmetic::product(
            geomagnetism::axis_km(spheroid),
            arithmetic::difference(
                Double { bits: geomagnetism::ONE },
                satellite::eccentricity_squared(spheroid),
            ),
        ).finite(),
        at.latitude.sine == (Double { bits: 0 }),
        at.latitude.cosine == (Double { bits: geomagnetism::ONE }),
        at.longitude.sine == (Double { bits: 0 }),
        at.longitude.cosine == (Double { bits: geomagnetism::ONE }),
    ensures
        ({
            let here = satellite::place_of(spheroid, at, Double { bits: 0 });
            &&& order::alike(here[0], geomagnetism::axis_km(spheroid))
            &&& here[1].magnitude() == 0
            &&& here[2].magnitude() == 0
        }),
{
    let zero = Double { bits: 0 };
    let one = Double { bits: geomagnetism::ONE };
    let axis = geomagnetism::axis_km(spheroid);
    let polar = arithmetic::product(
        axis,
        arithmetic::difference(one, satellite::eccentricity_squared(spheroid)),
    );
    lemma_padded(axis, zero);
    lemma_padded(polar, zero);
    law_the_equator_is_a_circle(spheroid, at, zero);
    let out = arithmetic::sum(axis, zero);
    arithmetic::law_times_one(out);
    lemma_nothing_of(zero, out);
}

/// An elevation is the upward part of the way over its length.
proof fn lemma_elevation(spheroid: Wgs84, at: Bearings, target_km: Seq<Double>)
    ensures
        ({
            let here = satellite::place_of(spheroid, at, Double { bits: 0 });
            let ways = way(
                at,
                arithmetic::difference(target_km[0], here[0]),
                arithmetic::difference(target_km[1], here[1]),
                arithmetic::difference(target_km[2], here[2]),
            );
            satellite::elevation_sine_of(spheroid, at, target_km) == arithmetic::quotient(
                ways[2],
                setpoint::length_of(ways),
            )
        }),
{
}

/// Where the equator meets the meridian of Greenwich, X is up, Y is east and Z is
/// north: the sine of an elevation is what the target lies further out along X than
/// the equatorial axis reaches, over its distance.
#[verifier::rlimit(80)]
#[verifier::spinoff_prover]
pub proof fn law_up_is_out_on_the_equator(spheroid: Wgs84, at: Bearings, target_km: Seq<Double>)
    requires
        target_km.len() == 3,
        satellite::eccentricity_squared(spheroid).finite(),
        geomagnetism::axis_km(spheroid).finite(),
        arithmetic::product(
            geomagnetism::axis_km(spheroid),
            arithmetic::difference(
                Double { bits: geomagnetism::ONE },
                satellite::eccentricity_squared(spheroid),
            ),
        ).finite(),
        at.latitude.sine == (Double { bits: 0 }),
        at.latitude.cosine == (Double { bits: geomagnetism::ONE }),
        at.longitude.sine == (Double { bits: 0 }),
        at.longitude.cosine == (Double { bits: geomagnetism::ONE }),
        target_km[0].finite(),
        target_km[1].finite(),
        target_km[2].finite(),
        arithmetic::difference(target_km[0], geomagnetism::axis_km(spheroid)).finite(),
        satellite::elevation_sine_of(spheroid, at, target_km).finite(),
    ensures
        ({
            let up = arithmetic::difference(target_km[0], geomagnetism::axis_km(spheroid));
            order::alike(
                satellite::elevation_sine_of(spheroid, at, target_km),
                arithmetic::quotient(
                    up,
                    setpoint::length_of(seq![target_km[1], target_km[2], up]),
                ),
            )
        }),
{
    let zero = Double { bits: 0 };
    let axis = geomagnetism::axis_km(spheroid);
    lemma_origin(spheroid, at);
    let here = satellite::place_of(spheroid, at, zero);
    let dx = arithmetic::difference(target_km[0], here[0]);
    let dy = arithmetic::difference(target_km[1], here[1]);
    let dz = arithmetic::difference(target_km[2], here[2]);
    let up = arithmetic::difference(target_km[0], axis);
    order::law_alike_differences(target_km[0], here[0], target_km[0], axis);
    lemma_padded(target_km[1], here[1]);
    lemma_padded(target_km[2], here[2]);
    assert(dx.finite());
    lemma_way_on_the_equator(at, dx, dy, dz);
    lemma_elevation(spheroid, at, target_km);
    let ways = way(at, dx, dy, dz);
    order::law_opposites_turn_twice(ways[0], dy, target_km[1]);
    order::law_opposites_turn_twice(ways[1], dz, target_km[2]);
    order::law_opposites_turn_twice(ways[2], dx, up);
    let plain = seq![target_km[1], target_km[2], up];
    lemma_same_elevation(ways, plain);
}

/// A position and its mirror image across the equator have opposite latitudes: the leg
/// along the axis is turned round, the other one is not, and the height is the same.
pub proof fn law_latitudes_mirror(
    spheroid: Wgs84,
    ecef_km: Seq<Double>,
    auxiliary: Turn,
    latitude: Turn,
)
    requires
        ecef_km.len() == 3,
    ensures
        ({
            let mirrored = seq![ecef_km[0], ecef_km[1], ecef_km[2].negated()];
            let first = satellite::legs_of_auxiliary(spheroid, ecef_km);
            let other = satellite::legs_of_auxiliary(spheroid, mirrored);
            let legs = satellite::legs_of_latitude(spheroid, ecef_km, auxiliary);
            let turned = satellite::legs_of_latitude(spheroid, mirrored, reversed(auxiliary));
            &&& order::opposite(first.0, other.0)
            &&& first.1 == other.1
            &&& order::opposite(legs.0, turned.0)
            &&& legs.1 == turned.1
            &&& satellite::height_of(spheroid, mirrored, reversed(latitude))
                == satellite::height_of(spheroid, ecef_km, latitude)
        }),
{
    let z = ecef_km[2];
    let a = geomagnetism::axis_km(spheroid);
    let b = satellite::polar_km(spheroid);
    order::law_negatives_are_opposite(z);
    order::law_opposite_products(z, a, z.negated(), a);
    let sine = auxiliary.sine;
    order::law_signs_pass_through_products(sine, sine);
    order::law_negatives_are_opposite(sine);
    let square = arithmetic::product(sine, sine);
    order::law_opposite_products(sine, square, sine.negated(), square);
    let ep2 = arithmetic::quotient(
        arithmetic::difference(arithmetic::product(a, a), arithmetic::product(b, b)),
        arithmetic::product(b, b),
    );
    let scale = arithmetic::product(ep2, b);
    order::law_opposite_products(
        satellite::cubed(sine),
        scale,
        satellite::cubed(sine.negated()),
        scale,
    );
    order::law_opposite_sums(
        z,
        arithmetic::product(scale, satellite::cubed(sine)),
        z.negated(),
        arithmetic::product(scale, satellite::cubed(sine.negated())),
    );
    lemma_normals_mirror(spheroid, latitude.sine);
}

/// Latitude and height do not know the longitude: a position and the same a quarter
/// turn further on have the same legs and the same height.
pub proof fn law_latitudes_do_not_turn(
    spheroid: Wgs84,
    ecef_km: Seq<Double>,
    auxiliary: Turn,
    latitude: Turn,
)
    requires
        ecef_km.len() == 3,
    ensures
        ({
            let further = seq![ecef_km[1].negated(), ecef_km[0], ecef_km[2]];
            &&& satellite::legs_of_auxiliary(spheroid, further) == satellite::legs_of_auxiliary(
                spheroid,
                ecef_km,
            )
            &&& satellite::legs_of_latitude(spheroid, further, auxiliary)
                == satellite::legs_of_latitude(spheroid, ecef_km, auxiliary)
            &&& satellite::height_of(spheroid, further, latitude) == satellite::height_of(
                spheroid,
                ecef_km,
                latitude,
            )
        }),
{
    let x = ecef_km[0];
    let y = ecef_km[1];
    order::law_signs_pass_through_products(y, y);
    arithmetic::law_terms_may_change_places(
        arithmetic::product(x, x),
        arithmetic::product(y, y),
    );
}

/// Over the equator a height is what a position lies further from the Earth's axis
/// than the equatorial axis reaches.
pub proof fn law_heights_over_the_equator(
    spheroid: Wgs84,
    ecef_km: Seq<Double>,
    latitude: Turn,
)
    requires
        ecef_km.len() == 3,
        satellite::eccentricity_squared(spheroid).finite(),
        geomagnetism::axis_km(spheroid).finite(),
        satellite::axis_distance(ecef_km).finite(),
        latitude.sine == (Double { bits: 0 }),
        latitude.cosine == (Double { bits: geomagnetism::ONE }),
    ensures
        satellite::height_of(spheroid, ecef_km, latitude) == arithmetic::difference(
            satellite::axis_distance(ecef_km),
            geomagnetism::axis_km(spheroid),
        ),
{
    lemma_equator(spheroid);
    arithmetic::law_over_one(satellite::axis_distance(ecef_km));
}

/// Both hemispheres have the same spherical coordinates, but for the side of the
/// equator: the leg along the axis is turned round, the other leg and the radius are
/// not.
pub proof fn law_spherical_coordinates_mirror(
    spheroid: Wgs84,
    elevation: Double,
    sine: Double,
    cosine: Double,
)
    ensures
        ({
            let north = geomagnetism::spherical(spheroid, elevation, sine, cosine);
            let south = geomagnetism::spherical(spheroid, elevation, sine.negated(), cosine);
            &&& south.0 == north.0
            &&& order::opposite(north.1, south.1)
            &&& south.2 == north.2
        }),
{
    order::law_signs_pass_through_products(sine, sine);
    order::law_negatives_are_opposite(sine);
    let a = geomagnetism::axis_km(spheroid);
    let b = arithmetic::product(
        a,
        arithmetic::difference(Double { bits: geomagnetism::ONE }, spheroid.flattened()),
    );
    let a2 = geomagnetism::squared(a);
    let b2 = geomagnetism::squared(b);
    let sr = arithmetic::root(
        arithmetic::sum(
            arithmetic::product(a2, geomagnetism::squared(cosine)),
            arithmetic::product(b2, geomagnetism::squared(sine)),
        ),
    );
    let along = arithmetic::sum(arithmetic::product(elevation, sr), b2);
    order::law_opposite_products(sine, along, sine.negated(), along);
}

/// An ellipsoid without flattening is a sphere: its polar axis is its equatorial one,
/// it has no eccentricity, and every vertical on it is a radius.
pub proof fn law_without_flattening_there_is_a_sphere(spheroid: Wgs84, sine: Double)
    requires
        spheroid.equatorial_axis_m.finite(),
        spheroid.inverse_flattening == (Double { bits: double::INFINITE }),
        geomagnetism::axis_km(spheroid).finite(),
        sine.finite(),
    ensures
        spheroid.flattened() == (Double { bits: 0 }),
        spheroid.polar() == spheroid.equatorial_axis_m,
        spheroid.eccentric() == (Double { bits: 0 }),
        satellite::normal_km(spheroid, sine) == geomagnetism::axis_km(spheroid),
{
    let zero = Double { bits: 0 };
    let one = Double { bits: geomagnetism::ONE };
    let two = Double { bits: geomagnetism::TWO };
    assert(spheroid.flattened() == zero);
    arithmetic::law_zero_adds_nothing(one, zero.negated());
    assert(arithmetic::difference(one, zero) == one);
    arithmetic::law_times_one(spheroid.equatorial_axis_m);
    lemma_nothing_of(zero, two);
    lemma_nothing_of(zero, zero);
    let first = arithmetic::product(two, zero);
    let second = arithmetic::product(zero, zero);
    order::lemma_plain_product(two, zero);
    order::lemma_plain_product(zero, zero);
    assert(first == zero && second == zero);
    arithmetic::law_a_number_less_itself_is_zero(zero);
    assert(spheroid.eccentric() == zero);
    let e2 = satellite::eccentricity_squared(spheroid);
    assert(e2 == zero);
    lemma_nothing_of(zero, sine);
    let once = arithmetic::product(e2, sine);
    lemma_nothing_of(once, sine);
    let twice = arithmetic::product(once, sine);
    arithmetic::law_zero_adds_nothing(one, twice.negated());
    arithmetic::lemma_one();
    arithmetic::law_roots_undo_squares(0x3ff0_0000_0000_0000);
    assert(arithmetic::root(one) == one);
    arithmetic::law_over_one(geomagnetism::axis_km(spheroid));
}

/// On a sphere the legs of a place are those of its latitude, scaled alike: where they
/// are taken up by the same number, the colatitude is what the latitude leaves of a
/// right angle.
pub proof fn law_a_sphere_keeps_its_latitudes(
    spheroid: Wgs84,
    elevation: Double,
    sine: Double,
    cosine: Double,
)
    requires
        spheroid.inverse_flattening == (Double { bits: double::INFINITE }),
        geomagnetism::axis_km(spheroid).finite(),
    ensures
        exists|scale: Double|
            {
                &&& geomagnetism::spherical(spheroid, elevation, sine, cosine).0
                    == #[trigger] arithmetic::product(cosine, scale)
                &&& geomagnetism::spherical(spheroid, elevation, sine, cosine).1
                    == arithmetic::product(sine, scale)
            },
{
    let zero = Double { bits: 0 };
    let one = Double { bits: geomagnetism::ONE };
    assert(spheroid.flattened() == zero);
    arithmetic::law_zero_adds_nothing(one, zero.negated());
    assert(arithmetic::difference(one, zero) == one);
    let a = geomagnetism::axis_km(spheroid);
    arithmetic::law_times_one(a);
    let a2 = geomagnetism::squared(a);
    let sr = arithmetic::root(
        arithmetic::sum(
            arithmetic::product(a2, geomagnetism::squared(cosine)),
            arithmetic::product(a2, geomagnetism::squared(sine)),
        ),
    );
    let scale = arithmetic::sum(arithmetic::product(elevation, sr), a2);
    assert(geomagnetism::spherical(spheroid, elevation, sine, cosine).0 == arithmetic::product(
        cosine,
        scale,
    ));
}

} // verus!

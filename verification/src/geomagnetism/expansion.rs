//! The spherical-harmonic expansion of the field.
use crate::angle::Turn;
use crate::arithmetic;
use crate::double::Double;
use crate::geomagnetism::{FieldVector, ONE, TWO};
use vstd::prelude::*;

verus! {

/// The radius that the expansion is defined against, in kilometres. It is a
/// constant of the model, not a property of the ellipsoid.
pub const REFERENCE_RADIUS_KM: u64 = 0x40b8_e333_3333_3333;

/// The distance from one to the next number.
pub const EPSILON: u64 = 0x3cb0_0000_0000_0000;

/// A hundred-millionth.
pub const NUDGE: u64 = 0x3e45_798e_e230_8c3a;

/// A quarter turn, in radians.
pub const QUARTER_TURN: u64 = 0x3ff9_21fb_5444_2d18;

/// The coefficients up to degree and order 12. The one of degree `n` and order
/// `m` stands at `13 * n + m`.
pub struct Coefficients {
    pub main_g: [Double; 169],
    pub main_h: [Double; 169],
    pub secular_g: [Double; 169],
    pub secular_h: [Double; 169],
}

/// The angles of a place: its geodetic latitude, its spherical colatitude, the
/// multiples of its longitude, and the tilt between the two verticals. Place 0 of
/// `longitudes` is not read.
#[derive(Debug, Clone, Copy, PartialEq)]
pub struct Angles {
    pub latitude: Turn,
    pub colatitude: Turn,
    pub longitudes: [Turn; 13],
    pub tilt: Turn,
}

/// The angle between the spherical and the geodetic vertical, in radians.
pub open spec fn tilted(colatitude: Double, latitude: Double) -> Double {
    arithmetic::difference(
        colatitude,
        arithmetic::difference(Double { bits: QUARTER_TURN }, latitude),
    )
}

/// The angle between the spherical and the geodetic vertical, in radians.
pub fn tilt(colatitude: Double, latitude: Double) -> (result: Double)
    ensures
        result == tilted(colatitude, latitude),
{
    colatitude.minus(Double::from_bits(QUARTER_TURN).minus(latitude))
}

/// `2n - 1`.
pub open spec fn odd(degree: int) -> Double {
    arithmetic::difference(
        arithmetic::product(Double { bits: TWO }, arithmetic::whole_number(degree)),
        Double { bits: ONE },
    )
}

/// The normalisation of a function whose degree is its order.
pub open spec fn sectoral(degree: int) -> Double {
    arithmetic::root(
        arithmetic::quotient(
            odd(degree),
            arithmetic::product(Double { bits: TWO }, arithmetic::whole_number(degree)),
        ),
    )
}

/// The two normalisations of the recursion over the degree.
pub open spec fn upper(degree: int, order: int) -> Double {
    arithmetic::root(
        arithmetic::difference(
            arithmetic::whole_number((degree - 1) * (degree - 1)),
            arithmetic::whole_number(order * order),
        ),
    )
}

pub open spec fn lower(degree: int, order: int) -> Double {
    arithmetic::quotient(
        Double { bits: ONE },
        arithmetic::root(
            arithmetic::difference(
                arithmetic::whole_number(degree * degree),
                arithmetic::whole_number(order * order),
            ),
        ),
    )
}

/// The semi-normalised associated Legendre function of a degree and an order at
/// the colatitude with the given cosine and sine, and its derivative.
pub open spec fn legendre(degree: int, order: int, cosine: Double, sine: Double) -> (Double, Double)
    decreases degree,
{
    if order < 0 || degree < order {
        (Double { bits: 0 }, Double { bits: 0 })
    } else if degree == 0 {
        (Double { bits: ONE }, Double { bits: 0 })
    } else if degree == 1 && order == 1 {
        (sine, cosine)
    } else if degree == 1 {
        (cosine, sine.negated())
    } else if degree == order {
        let (value, slope) = legendre(degree - 1, order - 1, cosine, sine);
        (
            arithmetic::product(arithmetic::product(value, sine), sectoral(degree)),
            arithmetic::product(
                arithmetic::sum(arithmetic::product(slope, sine), arithmetic::product(value, cosine)),
                sectoral(degree),
            ),
        )
    } else {
        let (value, slope) = legendre(degree - 1, order, cosine, sine);
        let (earlier, earlier_slope) = legendre(degree - 2, order, cosine, sine);
        (
            arithmetic::product(
                arithmetic::difference(
                    arithmetic::product(arithmetic::product(value, cosine), odd(degree)),
                    arithmetic::product(earlier, upper(degree, order)),
                ),
                lower(degree, order),
            ),
            arithmetic::product(
                arithmetic::difference(
                    arithmetic::product(
                        arithmetic::difference(
                            arithmetic::product(slope, cosine),
                            arithmetic::product(value, sine),
                        ),
                        odd(degree),
                    ),
                    arithmetic::product(earlier_slope, upper(degree, order)),
                ),
                lower(degree, order),
            ),
        )
    }
}

/// That the table holds the functions before place `done`.
spec fn tabled(table: Seq<(Double, Double)>, done: int, cosine: Double, sine: Double) -> bool {
    forall|degree: int, order: int|
        0 <= degree && 0 <= order < 13 && 13 * degree + order < done ==> #[trigger] table[13 * degree
            + order] == #[trigger] legendre(degree, order, cosine, sine)
}

fn odd_of(degree: usize) -> (result: Double)
    requires
        degree < 13,
    ensures
        result == odd(degree as int),
{
    Double::from_bits(TWO).times(Double::whole(degree as i64)).minus(Double::from_bits(ONE))
}

/// The functions of all degrees and orders, degree by degree.
fn legendre_table(cosine: Double, sine: Double) -> (result: Vec<(Double, Double)>)
    ensures
        result@.len() == 169,
        tabled(result@, 169, cosine, sine),
{
    let mut table: Vec<(Double, Double)> = Vec::new();
    let mut degree: usize = 0;
    while degree < 13
        invariant
            degree <= 13,
            table@.len() == 13 * degree,
            tabled(table@, 13 * degree as int, cosine, sine),
        decreases 13 - degree,
    {
        let mut order: usize = 0;
        while order < 13
            invariant
                degree < 13,
                order <= 13,
                table@.len() == 13 * degree + order,
                tabled(table@, 13 * degree + order, cosine, sine),
            decreases 13 - order,
        {
            let entry: (Double, Double) = if degree < order {
                (Double::zero(), Double::zero())
            } else if degree == 0 {
                (Double::from_bits(ONE), Double::zero())
            } else if degree == 1 && order == 1 {
                (sine, cosine)
            } else if degree == 1 {
                (cosine, sine.neg())
            } else if degree == order {
                let (value, slope): (Double, Double) = table[13 * (degree - 1) + (order - 1)];
                assert((value, slope) == legendre(degree - 1, order - 1, cosine, sine));
                let root: Double = odd_of(degree).over(
                    Double::from_bits(TWO).times(Double::whole(degree as i64)),
                ).sqrt();
                (value.times(sine).times(root), slope.times(sine).plus(value.times(cosine)).times(root))
            } else {
                let (value, slope): (Double, Double) = table[13 * (degree - 1) + order];
                let (earlier, earlier_slope): (Double, Double) = table[13 * (degree - 2) + order];
                assert((value, slope) == legendre(degree - 1, order as int, cosine, sine));
                assert((earlier, earlier_slope) == legendre(
                    degree - 2,
                    order as int,
                    cosine,
                    sine,
                ));
                assert((degree - 1) * (degree - 1) <= 144 && degree * degree <= 144 && order * order
                    <= 144) by (nonlinear_arith)
                    requires
                        2 <= degree < 13,
                        order < 13,
                ;
                let square: Double = Double::whole((order * order) as i64);
                let root1: Double = Double::whole(((degree - 1) * (degree - 1)) as i64).minus(
                    square,
                ).sqrt();
                let root2: Double = Double::from_bits(ONE).over(
                    Double::whole((degree * degree) as i64).minus(square).sqrt(),
                );
                let odd: Double = odd_of(degree);
                (
                    value.times(cosine).times(odd).minus(earlier.times(root1)).times(root2),
                    slope.times(cosine).minus(value.times(sine)).times(odd).minus(
                        earlier_slope.times(root1),
                    ).times(root2),
                )
            };
            assert(entry == legendre(degree as int, order as int, cosine, sine));
            let ghost before = table@;
            table.push(entry);
            proof {
                assert forall|n: int, m: int|
                    0 <= n && 0 <= m < 13 && 13 * n + m < 13 * degree + order
                        + 1 implies #[trigger] table@[13 * n + m] == #[trigger] legendre(
                    n,
                    m,
                    cosine,
                    sine,
                ) by {
                    if 13 * n + m < 13 * degree + order {
                        assert(table@[13 * n + m] == before[13 * n + m]);
                    } else {
                        assert(n == degree && m == order);
                    }
                }
            }
            order = order + 1;
        }
        degree = degree + 1;
    }
    table
}

/// The sine of a multiple of the longitude.
pub open spec fn sine_of(angles: Angles, order: int) -> Double {
    if order == 0 {
        Double { bits: 0 }
    } else {
        angles.longitudes[order].sine
    }
}

pub open spec fn cosine_of(angles: Angles, order: int) -> Double {
    if order == 0 {
        Double { bits: ONE }
    } else {
        angles.longitudes[order].cosine
    }
}

/// A coefficient as it has come to be after `years`.
pub open spec fn grown(main: Double, secular: Double, years: Double) -> Double {
    arithmetic::sum(main, arithmetic::product(years, secular))
}

/// What the orders below `count` of one degree add up to, for the radial, the
/// southward and the eastward component.
pub open spec fn orders(
    angles: Angles,
    model: Coefficients,
    years: Double,
    degree: int,
    count: int,
) -> (Double, Double, Double)
    decreases count,
{
    if count <= 0 {
        (Double { bits: 0 }, Double { bits: 0 }, Double { bits: 0 })
    } else {
        let (radial, south, east) = orders(angles, model, years, degree, count - 1);
        let order = count - 1;
        let at = 13 * degree + order;
        let g = grown(model.main_g[at], model.secular_g[at], years);
        let h = grown(model.main_h[at], model.secular_h[at], years);
        let (value, slope) = legendre(
            degree,
            order,
            angles.colatitude.cosine,
            angles.colatitude.sine,
        );
        let level = arithmetic::sum(
            arithmetic::product(g, cosine_of(angles, order)),
            arithmetic::product(h, sine_of(angles, order)),
        );
        let turn = arithmetic::product(
            arithmetic::whole_number(order),
            arithmetic::difference(
                arithmetic::product(g, sine_of(angles, order)),
                arithmetic::product(h, cosine_of(angles, order)),
            ),
        );
        (
            arithmetic::sum(radial, arithmetic::product(level, value)),
            arithmetic::sum(south, arithmetic::product(level, slope)),
            arithmetic::sum(east, arithmetic::product(turn, value)),
        )
    }
}

/// The reference radius over that of the place.
pub open spec fn shrink(radius_km: Double) -> Double {
    arithmetic::quotient(Double { bits: REFERENCE_RADIUS_KM }, radius_km)
}

/// One over the sine of the colatitude, nudged off zero at the poles.
pub open spec fn inverse_sine(sine: Double) -> Double {
    if arithmetic::difference(sine, Double { bits: 0 }).absolute().less(Double { bits: EPSILON }) {
        arithmetic::quotient(
            Double { bits: ONE },
            arithmetic::sum(sine, Double { bits: NUDGE }),
        )
    } else {
        arithmetic::quotient(Double { bits: ONE }, sine)
    }
}

/// What the degrees up to `degree` add up to: the power of the radius that has
/// been reached, and the radial, southward and eastward components.
pub open spec fn degrees(
    angles: Angles,
    radius_km: Double,
    model: Coefficients,
    years: Double,
    degree: int,
) -> (Double, Double, Double, Double)
    decreases degree,
{
    if degree <= 0 {
        (
            arithmetic::product(shrink(radius_km), shrink(radius_km)),
            Double { bits: 0 },
            Double { bits: 0 },
            Double { bits: 0 },
        )
    } else {
        let (power, radial, south, east) = degrees(angles, radius_km, model, years, degree - 1);
        let (c1, c2, c3) = orders(angles, model, years, degree, degree + 1);
        let factor = arithmetic::product(power, shrink(radius_km));
        let count = arithmetic::sum(arithmetic::whole_number(degree), Double { bits: ONE });
        (
            factor,
            arithmetic::sum(
                radial,
                arithmetic::product(arithmetic::product(count, c1), factor),
            ),
            arithmetic::difference(south, arithmetic::product(c2, factor)),
            arithmetic::sum(
                east,
                arithmetic::product(
                    arithmetic::product(c3, factor),
                    inverse_sine(angles.colatitude.sine),
                ),
            ),
        )
    }
}

/// The field: the twelve degrees, turned from the spherical into the geodetic
/// vertical.
pub open spec fn field(
    angles: Angles,
    radius_km: Double,
    model: Coefficients,
    years: Double,
) -> FieldVector {
    let (power, radial, south, east) = degrees(angles, radius_km, model, years, 12);
    FieldVector {
        x: arithmetic::difference(
            arithmetic::product(south.negated(), angles.tilt.cosine),
            arithmetic::product(radial, angles.tilt.sine),
        ),
        y: east,
        z: arithmetic::difference(
            arithmetic::product(south, angles.tilt.sine),
            arithmetic::product(radial, angles.tilt.cosine),
        ),
    }
}

/// Adds up the orders of one degree.
fn sum_orders(
    angles: &Angles,
    model: &Coefficients,
    years: Double,
    table: &Vec<(Double, Double)>,
    degree: usize,
) -> (result: (Double, Double, Double))
    requires
        table@.len() == 169,
        tabled(table@, 169, angles.colatitude.cosine, angles.colatitude.sine),
        1 <= degree <= 12,
    ensures
        result == orders(*angles, *model, years, degree as int, degree + 1),
{
    let mut radial: Double = Double::zero();
    let mut south: Double = Double::zero();
    let mut east: Double = Double::zero();
    let mut order: usize = 0;
    while order <= degree
        invariant
            table@.len() == 169,
            tabled(table@, 169, angles.colatitude.cosine, angles.colatitude.sine),
            1 <= degree <= 12,
            order <= degree + 1,
            (radial, south, east) == orders(*angles, *model, years, degree as int, order as int),
        decreases degree + 1 - order,
    {
        let at: usize = 13 * degree + order;
        let g: Double = model.main_g[at].plus(years.times(model.secular_g[at]));
        let h: Double = model.main_h[at].plus(years.times(model.secular_h[at]));
        let (sine, cosine): (Double, Double) = if order == 0 {
            (Double::zero(), Double::from_bits(ONE))
        } else {
            (angles.longitudes[order].sine, angles.longitudes[order].cosine)
        };
        let (value, slope): (Double, Double) = table[at];
        assert((value, slope) == legendre(degree as int, order as int, angles.colatitude.cosine, angles.colatitude.sine));
        let level: Double = g.times(cosine).plus(h.times(sine));
        let turn: Double = Double::whole(order as i64).times(g.times(sine).minus(h.times(cosine)));
        radial = radial.plus(level.times(value));
        south = south.plus(level.times(slope));
        east = east.plus(turn.times(value));
        order = order + 1;
    }
    (radial, south, east)
}

/// The field that a model gives at a place, `years` after the model's first day.
pub fn field_of(
    angles: &Angles,
    radius_km: Double,
    model: &Coefficients,
    years: Double,
) -> (result: FieldVector)
    ensures
        result == field(*angles, radius_km, *model, years),
{
    let table: Vec<(Double, Double)> = legendre_table(angles.colatitude.cosine, angles.colatitude.sine);
    let inverse: Double = if angles.colatitude.sine.minus(Double::zero()).abs().lt(
        Double::from_bits(EPSILON),
    ) {
        Double::from_bits(ONE).over(angles.colatitude.sine.plus(Double::from_bits(NUDGE)))
    } else {
        Double::from_bits(ONE).over(angles.colatitude.sine)
    };
    let shrinking: Double = Double::from_bits(REFERENCE_RADIUS_KM).over(radius_km);
    let mut factor: Double = shrinking.times(shrinking);
    let mut radial: Double = Double::zero();
    let mut south: Double = Double::zero();
    let mut east: Double = Double::zero();
    let mut degree: usize = 1;
    while degree <= 12
        invariant
            1 <= degree <= 13,
            table@.len() == 169,
            tabled(table@, 169, angles.colatitude.cosine, angles.colatitude.sine),
            inverse == inverse_sine(angles.colatitude.sine),
            shrinking == shrink(radius_km),
            (factor, radial, south, east) == degrees(*angles, radius_km, *model, years, degree - 1),
        decreases 13 - degree,
    {
        let (c1, c2, c3): (Double, Double, Double) = sum_orders(
            angles,
            model,
            years,
            &table,
            degree,
        );
        factor = factor.times(shrinking);
        radial = radial.plus(
            Double::whole(degree as i64).plus(Double::from_bits(ONE)).times(c1).times(factor),
        );
        south = south.minus(c2.times(factor));
        east = east.plus(c3.times(factor).times(inverse));
        degree = degree + 1;
    }
    FieldVector {
        x: south.neg().times(angles.tilt.cosine).minus(radial.times(angles.tilt.sine)),
        y: east,
        z: south.times(angles.tilt.sine).minus(radial.times(angles.tilt.cosine)),
    }
}

/// That two sets of angles are those of one place but for the given order, whose
/// multiple of the longitude is a quarter turn further on: what was the cosine is
/// the sine, and what was the sine is the negative of the cosine.
pub open spec fn quarter_turn_on(angles: Angles, further: Angles, order: int) -> bool {
    &&& further.colatitude == angles.colatitude
    &&& further.tilt == angles.tilt
    &&& forall|m: int|
        1 <= m <= 12 && m != order ==> #[trigger] further.longitudes[m] == angles.longitudes[m]
    &&& further.longitudes[order].sine == angles.longitudes[order].cosine
    &&& further.longitudes[order].cosine == angles.longitudes[order].sine.negated()
}

/// That two models are one but for the coefficients of the given order, which go a
/// quarter turn back: in place of `g` and `h` stand `-h` and `g`, as they have come
/// to be after `years`.
pub open spec fn quarter_turn_back(
    model: Coefficients,
    other: Coefficients,
    years: Double,
    order: int,
) -> bool {
    forall|n: int, m: int|
        #![trigger other.main_g[13 * n + m], model.main_g[13 * n + m]]
        1 <= n <= 12 && 0 <= m <= n ==> {
            let at = 13 * n + m;
            let g = grown(model.main_g[at], model.secular_g[at], years);
            let h = grown(model.main_h[at], model.secular_h[at], years);
            let other_g = grown(other.main_g[at], other.secular_g[at], years);
            let other_h = grown(other.main_h[at], other.secular_h[at], years);
            if m == order {
                other_g == h.negated() && other_h == g
            } else {
                other_g == g && other_h == h
            }
        }
}

/// What one order adds does not change when its angle goes on by a quarter turn and
/// its coefficients go back by one.
proof fn lemma_quarter_turn(g: Double, h: Double, sine: Double, cosine: Double)
    ensures
        arithmetic::sum(
            arithmetic::product(h.negated(), sine.negated()),
            arithmetic::product(g, cosine),
        ) == arithmetic::sum(arithmetic::product(g, cosine), arithmetic::product(h, sine)),
        arithmetic::difference(
            arithmetic::product(h.negated(), cosine),
            arithmetic::product(g, sine.negated()),
        ) == arithmetic::difference(arithmetic::product(g, sine), arithmetic::product(h, cosine)),
{
    assert(arithmetic::product(h.negated(), sine.negated()) == arithmetic::product(h, sine));
    arithmetic::law_terms_may_change_places(
        arithmetic::product(h, sine),
        arithmetic::product(g, cosine),
    );
    let hc = arithmetic::product(h, cosine);
    let gs = arithmetic::product(g, sine);
    arithmetic::law_products_are_numbers(h, cosine);
    arithmetic::law_products_are_numbers(g, sine);
    arithmetic::law_products_are_numbers(h.negated(), cosine);
    arithmetic::law_products_are_numbers(g, sine.negated());
    arithmetic::law_there_is_a_nearest(
        crate::double::double_units(h.magnitude()) * crate::double::double_units(
            cosine.magnitude(),
        ),
        vstd::arithmetic::power2::pow2(1074),
    );
    arithmetic::law_there_is_a_nearest(
        crate::double::double_units(g.magnitude()) * crate::double::double_units(sine.magnitude()),
        vstd::arithmetic::power2::pow2(1074),
    );
    if !hc.nan() {
        assert(arithmetic::product(h.negated(), cosine) == hc.negated());
    }
    if !gs.nan() {
        assert(arithmetic::product(g, sine.negated()) == gs.negated());
        assert(gs.negated().negated() == gs);
    }
    arithmetic::law_terms_may_change_places(hc.negated(), gs);
}

proof fn lemma_orders_turn(
    angles: Angles,
    further: Angles,
    model: Coefficients,
    other: Coefficients,
    years: Double,
    order: int,
    degree: int,
    count: int,
)
    requires
        1 <= order <= 12,
        1 <= degree <= 12,
        count <= degree + 1,
        quarter_turn_on(angles, further, order),
        quarter_turn_back(model, other, years, order),
    ensures
        orders(angles, model, years, degree, count) == orders(further, other, years, degree, count),
    decreases count,
{
    if count > 0 {
        lemma_orders_turn(angles, further, model, other, years, order, degree, count - 1);
        let m = count - 1;
        let at = 13 * degree + m;
        assert(other.main_g[13 * degree + m] == other.main_g[at] && model.main_g[13 * degree + m]
            == model.main_g[at]);
        if m == order {
            lemma_quarter_turn(
                grown(model.main_g[at], model.secular_g[at], years),
                grown(model.main_h[at], model.secular_h[at], years),
                angles.longitudes[m].sine,
                angles.longitudes[m].cosine,
            );
        } else if m > 0 {
            assert(further.longitudes[m] == angles.longitudes[m]);
        }
    }
}

proof fn lemma_degrees_turn(
    angles: Angles,
    further: Angles,
    radius_km: Double,
    model: Coefficients,
    other: Coefficients,
    years: Double,
    order: int,
    degree: int,
)
    requires
        1 <= order <= 12,
        degree <= 12,
        quarter_turn_on(angles, further, order),
        quarter_turn_back(model, other, years, order),
    ensures
        degrees(angles, radius_km, model, years, degree) == degrees(
            further,
            radius_km,
            other,
            years,
            degree,
        ),
    decreases degree,
{
    if degree > 0 {
        lemma_degrees_turn(angles, further, radius_km, model, other, years, order, degree - 1);
        lemma_orders_turn(angles, further, model, other, years, order, degree, degree + 1);
    }
}

/// Each order turns with its own multiple of the longitude: with that multiple a
/// quarter turn further on, and the coefficients of that order a quarter turn back,
/// the field is the same to the last bit. That holds of every order by itself, so
/// no other angle can stand in for its own.
pub proof fn law_every_order_turns_with_its_angle(
    angles: Angles,
    further: Angles,
    radius_km: Double,
    model: Coefficients,
    other: Coefficients,
    years: Double,
    order: int,
)
    requires
        1 <= order <= 12,
        quarter_turn_on(angles, further, order),
        quarter_turn_back(model, other, years, order),
    ensures
        field(angles, radius_km, model, years) == field(further, radius_km, other, years),
{
    lemma_degrees_turn(angles, further, radius_km, model, other, years, order, 12);
}

} // verus!

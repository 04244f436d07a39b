//! How the results of arithmetic stand to one another when the numbers that go in
//! do.
use crate::arithmetic;
use crate::double;
use crate::double::{Double, INFINITE};
use vstd::arithmetic::power2::*;
use vstd::prelude::*;

verus! {

/// That two results are the same number, or both none. The two zeros are one.
pub open spec fn alike(left: Double, right: Double) -> bool {
    (left.nan() && right.nan()) || left.equals(right)
}

/// That two results are the same number with opposite signs, or both none.
pub open spec fn opposite(left: Double, right: Double) -> bool {
    (left.nan() && right.nan()) || (!left.nan() && !right.nan() && left.rank() == -right.rank())
}

/// What a number is in units, by where it stands.
pub proof fn law_units_follow_rank(left: Double, right: Double)
    ensures
        left.rank() == right.rank() ==> left.units() == right.units(),
        left.rank() == -right.rank() ==> left.units() == -right.units(),
        left.units() == 0 <==> left.magnitude() == 0,
        left.units() < 0 <==> left.rank() < 0,
{
    assert(double::double_units(0) == 0);
    if left.magnitude() > 0 {
        double::law_larger_patterns_are_larger(0, left.magnitude());
    }
}

/// The negative of a number is its opposite.
pub proof fn law_negatives_are_opposite(number: Double)
    ensures
        opposite(number, number.negated()),
        opposite(number.negated(), number),
        number.negated().negated() == number,
{
}

/// What is opposite to the same is alike, and the other way round.
pub proof fn law_opposites_turn_twice(first: Double, second: Double, third: Double)
    ensures
        opposite(first, second) && opposite(second, third) ==> alike(first, third),
        opposite(first, second) && alike(second, third) ==> opposite(first, third),
        alike(first, second) && opposite(second, third) ==> opposite(first, third),
        alike(first, second) && alike(second, third) ==> alike(first, third),
        alike(first, second) ==> alike(second, first),
        opposite(first, second) ==> opposite(second, first),
        alike(first, first),
{
}

/// Alike numbers have alike sums.
pub proof fn law_alike_sums(a: Double, b: Double, c: Double, d: Double)
    requires
        alike(a, c),
        alike(b, d),
    ensures
        alike(arithmetic::sum(a, b), arithmetic::sum(c, d)),
{
    arithmetic::law_sums_are_numbers(a, b);
    arithmetic::law_sums_are_numbers(c, d);
    law_units_follow_rank(a, c);
    law_units_follow_rank(b, d);
    if a.magnitude() == 0 {
        assert(a.units() == 0 && c.units() == 0);
    }
    if b.magnitude() == 0 {
        assert(b.units() == 0 && d.units() == 0);
    }
}

/// The sum of two opposites is the opposite of the sum.
pub proof fn law_opposite_sums(a: Double, b: Double, c: Double, d: Double)
    requires
        opposite(a, c),
        opposite(b, d),
    ensures
        opposite(arithmetic::sum(a, b), arithmetic::sum(c, d)),
{
    arithmetic::law_sums_are_numbers(a, b);
    arithmetic::law_sums_are_numbers(c, d);
    law_units_follow_rank(a, c);
    law_units_follow_rank(b, d);
    let total = a.units() + b.units();
    arithmetic::law_there_is_a_nearest(total as nat, 1);
    arithmetic::law_there_is_a_nearest((-total) as nat, 1);
    arithmetic::lemma_nothing(1);
}

/// Alike numbers have alike products.
pub proof fn law_alike_products(a: Double, b: Double, c: Double, d: Double)
    requires
        alike(a, c),
        alike(b, d),
    ensures
        alike(arithmetic::product(a, b), arithmetic::product(c, d)),
{
    arithmetic::law_products_are_numbers(a, b);
    arithmetic::law_products_are_numbers(c, d);
    lemma_plain_product(a, b);
    lemma_plain_product(c, d);
}

/// A product is a zero where a factor is one, and its sign is that of the factors.
pub proof fn lemma_plain_product(a: Double, b: Double)
    ensures
        !arithmetic::product(a, b).nan() ==> arithmetic::product(a, b).negative() == (a.negative() != b.negative()),
        !arithmetic::product(a, b).nan() && (a.magnitude() == 0 || b.magnitude() == 0) ==> arithmetic::product(
            a,
            b,
        ).magnitude() == 0,
        a.finite() && b.finite() ==> arithmetic::product(a, b).magnitude() == arithmetic::nearest(
            double::double_units(a.magnitude()) * double::double_units(b.magnitude()),
            pow2(1074),
        ),
{
    let x = double::double_units(a.magnitude());
    let y = double::double_units(b.magnitude());
    arithmetic::law_products_are_numbers(a, b);
    arithmetic::law_there_is_a_nearest(x * y, pow2(1074));
    assert(double::double_units(0) == 0);
    lemma_pow2_pos(1074);
    if a.magnitude() == 0 || b.magnitude() == 0 {
        assert(x * y == 0) by (nonlinear_arith)
            requires
                x == 0 || y == 0,
        ;
        arithmetic::lemma_nothing(pow2(1074));
    }
}

/// A factor of opposite sign gives a product of opposite sign.
pub proof fn law_opposite_products(a: Double, b: Double, c: Double, d: Double)
    requires
        opposite(a, c),
        alike(b, d),
    ensures
        opposite(arithmetic::product(a, b), arithmetic::product(c, d)),
        opposite(arithmetic::product(b, a), arithmetic::product(d, c)),
{
    arithmetic::law_products_are_numbers(a, b);
    arithmetic::law_products_are_numbers(c, d);
    lemma_plain_product(a, b);
    lemma_plain_product(c, d);
    arithmetic::law_factors_may_change_places(a, b);
    arithmetic::law_factors_may_change_places(c, d);
}

/// Two factors of opposite sign give the same product.
pub proof fn law_doubly_opposite_products(a: Double, b: Double, c: Double, d: Double)
    requires
        opposite(a, c),
        opposite(b, d),
    ensures
        alike(arithmetic::product(a, b), arithmetic::product(c, d)),
{
    arithmetic::law_products_are_numbers(a, b);
    arithmetic::law_products_are_numbers(c, d);
    lemma_plain_product(a, b);
    lemma_plain_product(c, d);
}

/// The sign and the size of a quotient.
pub proof fn lemma_plain_quotient(a: Double, b: Double)
    ensures
        !arithmetic::quotient(a, b).nan() ==> arithmetic::quotient(a, b).negative() == (a.negative() != b.negative()),
        !arithmetic::quotient(a, b).nan() && a.magnitude() == 0 ==> arithmetic::quotient(a, b).magnitude() == 0,
        a.finite() && b.finite() && b.magnitude() > 0 ==> arithmetic::quotient(a, b).magnitude() == arithmetic::nearest(
            double::double_units(a.magnitude()) * pow2(1074),
            double::double_units(b.magnitude()),
        ),
{
    let x = double::double_units(a.magnitude());
    let y = double::double_units(b.magnitude());
    arithmetic::law_quotients_are_numbers(a, b);
    arithmetic::law_there_is_a_nearest(x * pow2(1074), y);
    if a.magnitude() == 0 && 0 < b.magnitude() <= INFINITE {
        arithmetic::law_zero_over_a_number(a, b);
    }
}

/// Alike numbers have alike quotients, as long as the divisor is no zero.
pub proof fn law_alike_quotients(a: Double, b: Double, c: Double, d: Double)
    requires
        alike(a, c),
        alike(b, d),
        b == d || b.magnitude() > 0,
    ensures
        alike(arithmetic::quotient(a, b), arithmetic::quotient(c, d)),
{
    arithmetic::law_quotients_are_numbers(a, b);
    arithmetic::law_quotients_are_numbers(c, d);
    lemma_plain_quotient(a, b);
    lemma_plain_quotient(c, d);
}

/// A dividend of opposite sign gives a quotient of opposite sign.
pub proof fn law_opposite_quotients(a: Double, b: Double, c: Double, d: Double)
    requires
        opposite(a, c),
        alike(b, d),
        b.magnitude() > 0,
    ensures
        opposite(arithmetic::quotient(a, b), arithmetic::quotient(c, d)),
{
    arithmetic::law_quotients_are_numbers(a, b);
    arithmetic::law_quotients_are_numbers(c, d);
    lemma_plain_quotient(a, b);
    lemma_plain_quotient(c, d);
}

/// Alike numbers have alike roots.
pub proof fn law_alike_roots(left: Double, right: Double)
    requires
        alike(left, right),
    ensures
        alike(arithmetic::root(left), arithmetic::root(right)),
{
}

/// Rounding keeps the order of what is rounded.
proof fn lemma_rounded_order(smaller: int, larger: int)
    requires
        smaller <= larger,
    ensures
        arithmetic::rounded(smaller, 1).rank() <= arithmetic::rounded(larger, 1).rank(),
        !arithmetic::rounded(smaller, 1).nan(),
        !arithmetic::rounded(larger, 1).nan(),
        arithmetic::rounded(0, 1).rank() == 0,
{
    arithmetic::law_there_is_a_nearest(smaller as nat, 1);
    arithmetic::law_there_is_a_nearest((-smaller) as nat, 1);
    arithmetic::law_there_is_a_nearest(larger as nat, 1);
    arithmetic::law_there_is_a_nearest((-larger) as nat, 1);
    arithmetic::lemma_nothing(1);
    if smaller >= 0 {
        arithmetic::law_nearest_keeps_order(
            smaller as nat,
            larger as nat,
            1,
            arithmetic::nearest(smaller as nat, 1),
            arithmetic::nearest(larger as nat, 1),
        );
    } else if larger < 0 {
        arithmetic::law_nearest_keeps_order(
            (-larger) as nat,
            (-smaller) as nat,
            1,
            arithmetic::nearest((-larger) as nat, 1),
            arithmetic::nearest((-smaller) as nat, 1),
        );
    }
}

/// Where a finite sum stands.
proof fn lemma_plain_sum(a: Double, b: Double)
    requires
        a.finite(),
        b.finite(),
    ensures
        arithmetic::sum(a, b).rank() == arithmetic::rounded(a.units() + b.units(), 1).rank(),
        !arithmetic::sum(a, b).nan(),
{
    lemma_rounded_order(a.units() + b.units(), a.units() + b.units());
    arithmetic::law_sums_are_numbers(a, b);
}

/// Larger numbers have larger sums.
pub proof fn law_sums_keep_order(a: Double, b: Double, c: Double, d: Double)
    requires
        a.at_most(c),
        b.at_most(d),
        !arithmetic::sum(a, b).nan(),
        !arithmetic::sum(c, d).nan(),
    ensures
        arithmetic::sum(a, b).at_most(arithmetic::sum(c, d)),
{
    arithmetic::law_sums_are_numbers(a, b);
    arithmetic::law_sums_are_numbers(c, d);
    if a.finite() && b.finite() && c.finite() && d.finite() {
        double::law_rank_is_the_order_of_the_numbers(a, c);
        double::law_rank_is_the_order_of_the_numbers(b, d);
        law_units_follow_rank(a, c);
        law_units_follow_rank(b, d);
        lemma_rounded_order(a.units() + b.units(), c.units() + d.units());
        lemma_plain_sum(a, b);
        lemma_plain_sum(c, d);
    } else {
        if a.finite() && b.finite() {
            lemma_plain_sum(a, b);
        }
        if c.finite() && d.finite() {
            lemma_plain_sum(c, d);
        }
    }
}

/// Times a number that is not negative, larger numbers have larger products.
pub proof fn law_products_keep_order(a: Double, c: Double, factor: Double)
    requires
        a.at_most(c),
        (Double { bits: 0 }).at_most(factor),
        !arithmetic::product(a, factor).nan(),
        !arithmetic::product(c, factor).nan(),
    ensures
        arithmetic::product(a, factor).at_most(arithmetic::product(c, factor)),
{
    arithmetic::law_products_are_numbers(a, factor);
    arithmetic::law_products_are_numbers(c, factor);
    lemma_plain_product(a, factor);
    lemma_plain_product(c, factor);
    if a.finite() && c.finite() && factor.finite() {
        let x = double::double_units(a.magnitude());
        let y = double::double_units(c.magnitude());
        let f = double::double_units(factor.magnitude());
        lemma_pow2_pos(1074);
        arithmetic::law_there_is_a_nearest(x * f, pow2(1074));
        arithmetic::law_there_is_a_nearest(y * f, pow2(1074));
        if a.magnitude() <= c.magnitude() {
            double::law_magnitudes_keep_order(a.magnitude(), c.magnitude());
            assert(x * f <= y * f) by (nonlinear_arith)
                requires
                    x <= y,
            ;
            arithmetic::law_nearest_keeps_order(
                x * f,
                y * f,
                pow2(1074),
                arithmetic::nearest(x * f, pow2(1074)),
                arithmetic::nearest(y * f, pow2(1074)),
            );
        } else {
            double::law_magnitudes_keep_order(c.magnitude(), a.magnitude());
            assert(y * f <= x * f) by (nonlinear_arith)
                requires
                    y <= x,
            ;
            arithmetic::law_nearest_keeps_order(
                y * f,
                x * f,
                pow2(1074),
                arithmetic::nearest(y * f, pow2(1074)),
                arithmetic::nearest(x * f, pow2(1074)),
            );
        }
    }
}

/// Over a number above zero, larger numbers have larger quotients.
pub proof fn law_quotients_keep_order(a: Double, c: Double, divisor: Double)
    requires
        a.at_most(c),
        (Double { bits: 0 }).less(divisor),
        !arithmetic::quotient(a, divisor).nan(),
        !arithmetic::quotient(c, divisor).nan(),
    ensures
        arithmetic::quotient(a, divisor).at_most(arithmetic::quotient(c, divisor)),
{
    arithmetic::law_quotients_are_numbers(a, divisor);
    arithmetic::law_quotients_are_numbers(c, divisor);
    lemma_plain_quotient(a, divisor);
    lemma_plain_quotient(c, divisor);
    if a.finite() && c.finite() && divisor.finite() {
        let x = double::double_units(a.magnitude());
        let y = double::double_units(c.magnitude());
        let f = double::double_units(divisor.magnitude());
        let unit = pow2(1074);
        assert(double::double_units(0) == 0);
        double::law_larger_patterns_are_larger(0, divisor.magnitude());
        arithmetic::law_there_is_a_nearest(x * unit, f);
        arithmetic::law_there_is_a_nearest(y * unit, f);
        if a.magnitude() <= c.magnitude() {
            double::law_magnitudes_keep_order(a.magnitude(), c.magnitude());
            assert(x * unit <= y * unit) by (nonlinear_arith)
                requires
                    x <= y,
            ;
            arithmetic::law_nearest_keeps_order(
                x * unit,
                y * unit,
                f,
                arithmetic::nearest(x * unit, f),
                arithmetic::nearest(y * unit, f),
            );
        } else {
            double::law_magnitudes_keep_order(c.magnitude(), a.magnitude());
            assert(y * unit <= x * unit) by (nonlinear_arith)
                requires
                    y <= x,
            ;
            arithmetic::law_nearest_keeps_order(
                y * unit,
                x * unit,
                f,
                arithmetic::nearest(y * unit, f),
                arithmetic::nearest(x * unit, f),
            );
        }
    }
}

/// The difference of a pair is opposite to that of its opposites.
pub proof fn law_opposite_differences(a: Double, b: Double, c: Double, d: Double)
    requires
        opposite(a, c),
        opposite(b, d),
    ensures
        opposite(arithmetic::difference(a, b), arithmetic::difference(c, d)),
{
    law_opposite_sums(a, b.negated(), c, d.negated());
}

/// Alike numbers have alike differences.
pub proof fn law_alike_differences(a: Double, b: Double, c: Double, d: Double)
    requires
        alike(a, c),
        alike(b, d),
    ensures
        alike(arithmetic::difference(a, b), arithmetic::difference(c, d)),
{
    law_alike_sums(a, b.negated(), c, d.negated());
}

/// A larger number less a smaller one is the larger difference.
pub proof fn law_differences_keep_order(a: Double, b: Double, c: Double, d: Double)
    requires
        a.at_most(c),
        d.at_most(b),
        !arithmetic::difference(a, b).nan(),
        !arithmetic::difference(c, d).nan(),
    ensures
        arithmetic::difference(a, b).at_most(arithmetic::difference(c, d)),
{
    law_sums_keep_order(a, b.negated(), c, d.negated());
}

/// A number and itself make twice the number, exactly, as long as that is one.
pub proof fn law_twice_a_number(number: Double)
    requires
        !number.negative(),
        number.magnitude() < 0x7fe0_0000_0000_0000,
    ensures
        arithmetic::sum(number, number).finite(),
        !arithmetic::sum(number, number).negative(),
        arithmetic::sum(number, number).units() == 2 * number.units(),
{
    let half: nat = 0x10_0000_0000_0000;
    let pattern = number.magnitude();
    let units = double::double_units(pattern);
    lemma2_to64_rest();
    let twice: nat = if pattern < half {
        2 * pattern
    } else {
        pattern + half
    };
    if pattern < half {
        if twice >= half {
            assert(twice / half == 1);
            assert(twice % half == (twice - half) as nat);
            lemma2_to64();
            assert((half + (twice - half)) * pow2(0) == twice) by (nonlinear_arith)
                requires
                    pow2(0) == 1,
            ;
        }
    } else {
        let exponent = pattern / half;
        assert(twice / half == exponent + 1);
        assert(twice % half == pattern % half);
        lemma_pow2_unfold(exponent);
        let scale = pow2((exponent - 1) as nat);
        assert((half + pattern % half) * (2 * scale) == 2 * ((half + pattern % half) * scale))
            by (nonlinear_arith);
    }
    assert(double::double_units(twice) == 2 * units);
    arithmetic::law_exact_results_are_kept(twice, 1);
    assert(double::double_units(twice) * 1 == 2 * units);
}

/// One half is half of one, and what it leaves of one.
pub proof fn law_half_of_one()
    ensures
        2 * double::double_units(0x3fe0_0000_0000_0000) == pow2(1074),
        arithmetic::difference(
            Double { bits: 0x3ff0_0000_0000_0000 },
            Double { bits: 0x3fe0_0000_0000_0000 },
        ) == (Double { bits: 0x3fe0_0000_0000_0000 }),
{
    let half: nat = 0x3fe0_0000_0000_0000;
    assert(half / 0x10_0000_0000_0000 == 1022);
    assert(half % 0x10_0000_0000_0000 == 0);
    lemma2_to64_rest();
    lemma_pow2_adds(52, 1021);
    lemma_pow2_unfold(1074);
    lemma_pow2_pos(1073);
    arithmetic::lemma_one();
    arithmetic::law_exact_results_are_kept(half, 1);
    assert(double::double_units(half) * 1 == double::double_units(half));
}

/// A number over twice itself is one half.
pub proof fn law_a_number_over_its_double(number: Double)
    requires
        !number.negative(),
        0 < number.magnitude() < 0x7fe0_0000_0000_0000,
    ensures
        arithmetic::quotient(number, arithmetic::sum(number, number)) == (Double {
            bits: 0x3fe0_0000_0000_0000,
        }),
{
    law_twice_a_number(number);
    law_half_of_one();
    let units = double::double_units(number.magnitude());
    assert(double::double_units(0) == 0);
    double::law_larger_patterns_are_larger(0, number.magnitude());
    let twice = arithmetic::sum(number, number);
    arithmetic::law_exact_results_are_kept(0x3fe0_0000_0000_0000, 2 * units);
    let part = double::double_units(0x3fe0_0000_0000_0000);
    assert(part * (2 * units) == units * (2 * part)) by (nonlinear_arith);
    assert(twice.magnitude() > 0);
}

/// A sign passes through a product, and two of them cancel.
pub proof fn law_signs_pass_through_products(a: Double, b: Double)
    ensures
        arithmetic::product(a.negated(), b.negated()) == arithmetic::product(a, b),
        arithmetic::product(a, b).nan() ==> arithmetic::product(a.negated(), b)
            == arithmetic::product(a, b) && arithmetic::product(a, b.negated())
            == arithmetic::product(a, b),
        !arithmetic::product(a, b).nan() ==> arithmetic::product(a.negated(), b)
            == arithmetic::product(a, b).negated() && arithmetic::product(a, b.negated())
            == arithmetic::product(a, b).negated(),
{
    arithmetic::law_products_are_numbers(a, b);
    arithmetic::law_products_are_numbers(a.negated(), b);
    arithmetic::law_products_are_numbers(a, b.negated());
    arithmetic::law_there_is_a_nearest(
        double::double_units(a.magnitude()) * double::double_units(b.magnitude()),
        pow2(1074),
    );
}

/// That two results are the same, or the same turned round.
pub open spec fn related(turned: bool, left: Double, right: Double) -> bool {
    if turned {
        opposite(left, right)
    } else {
        alike(left, right)
    }
}

/// A product is turned round where one of its factors is.
pub proof fn law_related_products(
    first: bool,
    second: bool,
    a: Double,
    b: Double,
    c: Double,
    d: Double,
)
    requires
        related(first, a, c),
        related(second, b, d),
    ensures
        related(first != second, arithmetic::product(a, b), arithmetic::product(c, d)),
{
    if first && second {
        law_doubly_opposite_products(a, b, c, d);
    } else if first {
        law_opposite_products(a, b, c, d);
    } else if second {
        law_opposite_products(b, a, d, c);
    } else {
        law_alike_products(a, b, c, d);
    }
}

/// A sum is turned round where both of its terms are.
pub proof fn law_related_sums(turned: bool, a: Double, b: Double, c: Double, d: Double)
    requires
        related(turned, a, c),
        related(turned, b, d),
    ensures
        related(turned, arithmetic::sum(a, b), arithmetic::sum(c, d)),
        related(turned, arithmetic::difference(a, b), arithmetic::difference(c, d)),
{
    if turned {
        law_opposite_sums(a, b, c, d);
        law_opposite_differences(a, b, c, d);
    } else {
        law_alike_sums(a, b, c, d);
        law_alike_differences(a, b, c, d);
    }
}

} // verus!

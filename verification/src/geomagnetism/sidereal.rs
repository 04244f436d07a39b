//! How the Earth turns under the stars.
use crate::accuracy;
use crate::arithmetic;
use crate::double::Double;
use crate::geomagnetism::calendar;
use crate::geomagnetism::UtcDateTime;
use crate::satellite;
use vstd::arithmetic::power2::*;
use vstd::prelude::*;

verus! {

/// The turn at noon of 1 January 2000, in degrees.
pub open spec fn first_turn() -> Double {
    Double { bits: 0x4071_875e_b15e_3164 }
}

/// The turn in a day, in degrees: 360.98564736629.
pub open spec fn daily_turn() -> Double {
    Double { bits: 0x4076_8fc5_362c_39aa }
}

/// The constants of the turn, by the powers of two around them.
proof fn lemma_constants()
    ensures
        accuracy::reaches_to(first_turn(), 1083),
        accuracy::reaches_to(daily_turn(), 1083),
        accuracy::reaches_to(Double { bits: 0x3f39_6c6f_8c4c_4b7f }, 1063),
        (Double { bits: 0x40e1_d5a0_0000_0000 }).units() >= pow2(1089),
        (Double { bits: 0x4182_7557_8000_0000 }).units() >= pow2(1099),
        (Double { bits: 0x4142_b42c_8000_0000 }).units() == 2_451_545 * pow2(1074),
        accuracy::reaches_to(Double { bits: 0x4142_b42c_8000_0000 }, 1096),
{
    lemma2_to64_rest();
    lemma2_to64();
    let first: nat = 0x4071_875e_b15e_3164;
    assert(first / 0x10_0000_0000_0000 == 1031);
    assert(first % 0x10_0000_0000_0000 == 0x1_875e_b15e_3164);
    let daily: nat = 0x4076_8fc5_362c_39aa;
    assert(daily / 0x10_0000_0000_0000 == 1031);
    assert(daily % 0x10_0000_0000_0000 == 0x6_8fc5_362c_39aa);
    lemma_pow2_adds(53, 1030);
    lemma_pow2_pos(1030);
    let small: nat = 0x3f39_6c6f_8c4c_4b7f;
    assert(small / 0x10_0000_0000_0000 == 1011);
    assert(small % 0x10_0000_0000_0000 == 0x9_6c6f_8c4c_4b7f);
    lemma_pow2_adds(53, 1010);
    lemma_pow2_pos(1010);
    let century: nat = 0x40e1_d5a0_0000_0000;
    assert(century / 0x10_0000_0000_0000 == 1038);
    assert(century % 0x10_0000_0000_0000 == 0x1_d5a0_0000_0000);
    lemma_pow2_adds(52, 1037);
    lemma_pow2_pos(1037);
    let large: nat = 0x4182_7557_8000_0000;
    assert(large / 0x10_0000_0000_0000 == 1048);
    assert(large % 0x10_0000_0000_0000 == 0x2_7557_8000_0000);
    lemma_pow2_adds(52, 1047);
    lemma_pow2_pos(1047);
    let epoch: nat = 0x4142_b42c_8000_0000;
    assert(epoch / 0x10_0000_0000_0000 == 1044);
    assert(epoch % 0x10_0000_0000_0000 == 0x2_b42c_8000_0000);
    lemma_pow2_adds(31, 1043);
    lemma_pow2_adds(53, 1043);
    lemma_pow2_pos(1043);
    assert(crate::double::double_units(first) == 0x11_875e_b15e_3164 * pow2(1030));
    assert(crate::double::double_units(daily) == 0x16_8fc5_362c_39aa * pow2(1030));
    assert(crate::double::double_units(small) == 0x19_6c6f_8c4c_4b7f * pow2(1010));
    assert(crate::double::double_units(century) == 0x11_d5a0_0000_0000 * pow2(1037));
    assert(crate::double::double_units(large) == 0x12_7557_8000_0000 * pow2(1047));
    assert(crate::double::double_units(epoch) == 0x12_b42c_8000_0000 * pow2(1043));
    assert(pow2(1083) == 0x20_0000_0000_0000 * pow2(1030));
    assert(pow2(1063) == 0x20_0000_0000_0000 * pow2(1010));
    assert(pow2(1089) == 0x10_0000_0000_0000 * pow2(1037));
    assert(pow2(1099) == 0x10_0000_0000_0000 * pow2(1047));
    assert(pow2(1096) == 0x20_0000_0000_0000 * pow2(1043));
    assert(pow2(1074) == 0x8000_0000 * pow2(1043));
}

/// The quadratic and the cubic term are a small part of a degree.
proof fn lemma_small_terms(days: Double)
    requires
        accuracy::reaches_to(days, 1091),
    ensures
        ({
            let centuries = arithmetic::quotient(days, Double { bits: 0x40e1_d5a0_0000_0000 });
            let quadratic = arithmetic::product(
                arithmetic::product(Double { bits: 0x3f39_6c6f_8c4c_4b7f }, centuries),
                centuries,
            );
            let cubic = arithmetic::quotient(
                arithmetic::product(arithmetic::product(centuries, centuries), centuries),
                Double { bits: 0x4182_7557_8000_0000 },
            );
            &&& accuracy::reaches_to(quadratic, 1067)
            &&& accuracy::reaches_to(cubic, 1067)
            &&& accuracy::apart(cubic.units(), 0) <= pow2(1055)
        }),
{
    lemma_constants();
    let century = Double { bits: 0x40e1_d5a0_0000_0000 };
    let small = Double { bits: 0x3f39_6c6f_8c4c_4b7f };
    let large = Double { bits: 0x4182_7557_8000_0000 };
    accuracy::law_quotients_reach(days, century, 1091, 1089);
    let centuries = arithmetic::quotient(days, century);
    accuracy::law_products_reach(small, centuries, 1063, 1076);
    let once = arithmetic::product(small, centuries);
    accuracy::law_products_reach(once, centuries, 1065, 1076);
    accuracy::law_products_reach(centuries, centuries, 1076, 1076);
    let square = arithmetic::product(centuries, centuries);
    accuracy::law_products_reach(square, centuries, 1078, 1076);
    let cube = arithmetic::product(square, centuries);
    lemma_cube_over(cube, large);
}

/// A cube over the divisor of the cubic term.
proof fn lemma_cube_over(cube: Double, large: Double)
    requires
        accuracy::reaches_to(cube, 1080),
        large.finite(),
        large.units() >= pow2(1099),
    ensures
        accuracy::reaches_to(arithmetic::quotient(cube, large), 1055),
        accuracy::reaches_to(arithmetic::quotient(cube, large), 1067),
{
    lemma_pow2_pos(1099);
    accuracy::law_quotients_reach(cube, large, 1080, 1099);
    lemma_pow2_strictly_increases(1055, 1067);
}

/// The Earth turns evenly. Within three and a half centuries of the year 2000, it has
/// turned by its turn at noon of 1 January 2000 and by its daily turn for every day
/// since, to within a sixty-fourth of a degree.
pub proof fn law_the_earth_turns_evenly(date: UtcDateTime)
    requires
        accuracy::reaches_to(date.epoch_days(), 1091),
    ensures
        date.turned_degrees().finite(),
        64 * accuracy::apart(
            date.turned_degrees().units() * pow2(1074),
            first_turn().units() * pow2(1074) + daily_turn().units() * date.epoch_days().units(),
        ) <= pow2(1074) * pow2(1074),
{
    let unit = pow2(1074);
    let days = date.epoch_days();
    lemma_constants();
    lemma_small_terms(days);
    let centuries = arithmetic::quotient(days, Double { bits: 0x40e1_d5a0_0000_0000 });
    let quadratic = arithmetic::product(
        arithmetic::product(Double { bits: 0x3f39_6c6f_8c4c_4b7f }, centuries),
        centuries,
    );
    let cubic = arithmetic::quotient(
        arithmetic::product(arithmetic::product(centuries, centuries), centuries),
        Double { bits: 0x4182_7557_8000_0000 },
    );
    let going = arithmetic::product(daily_turn(), days);
    accuracy::law_products_reach(daily_turn(), days, 1083, 1091);
    accuracy::law_products_are_close(daily_turn(), days);
    lemma_pow2_strictly_increases(1083, 1100);
    accuracy::law_sums_reach(first_turn(), going, 1100);
    accuracy::law_sums_are_close(first_turn(), going);
    let steady = arithmetic::sum(first_turn(), going);
    lemma_pow2_strictly_increases(1067, 1101);
    lemma_pow2_strictly_increases(1067, 1102);
    accuracy::law_sums_reach(steady, quadratic, 1101);
    accuracy::law_sums_are_close(steady, quadratic);
    let curved = arithmetic::sum(steady, quadratic);
    accuracy::law_sums_reach(curved, cubic, 1102);
    accuracy::law_sums_are_close(curved, cubic.negated());
    assert(cubic.negated().units() == -cubic.units());
    let turned = arithmetic::difference(curved, cubic);
    assert(turned == date.turned_degrees());
    let step = pow2(1050) as int;
    lemma_steps();
    lemma_pow2_strictly_increases(1100, 1103);
    lemma_pow2_strictly_increases(1101, 1103);
    lemma_pow2_strictly_increases(1102, 1103);
    let rd = daily_turn().units() * days.units();
    lemma_turn_errors(
        unit as int,
        step,
        rd,
        first_turn().units(),
        going.units(),
        steady.units(),
        quadratic.units(),
        curved.units(),
        cubic.units(),
        turned.units(),
    );
}

proof fn lemma_steps()
    ensures
        pow2(1074) == 0x100_0000 * pow2(1050),
        pow2(1067) == 0x2_0000 * pow2(1050),
        pow2(1055) == 0x20 * pow2(1050),
        pow2(1103) == 0x20_0000_0000_0000 * pow2(1050),
        0x10_0000_0000_0000 <= pow2(1050),
{
    lemma2_to64();
    lemma2_to64_rest();
    lemma_pow2_adds(24, 1050);
    lemma_pow2_adds(17, 1050);
    lemma_pow2_adds(5, 1050);
    lemma_pow2_adds(53, 1050);
    lemma_pow2_strictly_increases(52, 1050);
}

/// How the errors of the turn add up.
proof fn lemma_turn_errors(
    unit: int,
    step: int,
    rd: int,
    first: int,
    going: int,
    steady: int,
    quadratic: int,
    curved: int,
    cubic: int,
    turned: int,
)
    requires
        unit == 0x100_0000 * step,
        0x10_0000_0000_0000 <= step,
        0x20_0000_0000_0000 * accuracy::apart(rd, going * unit) <= (accuracy::apart(going, 0)
            + 0x10_0000_0000_0000) * unit,
        accuracy::apart(going, 0) <= 0x20_0000_0000_0000 * step,
        0x20_0000_0000_0000 * accuracy::apart(first + going, steady) <= accuracy::apart(steady, 0)
            + 0x10_0000_0000_0000,
        accuracy::apart(steady, 0) <= 0x20_0000_0000_0000 * step,
        0x20_0000_0000_0000 * accuracy::apart(steady + quadratic, curved) <= accuracy::apart(
            curved,
            0,
        ) + 0x10_0000_0000_0000,
        accuracy::apart(curved, 0) <= 0x20_0000_0000_0000 * step,
        0x20_0000_0000_0000 * accuracy::apart(curved - cubic, turned) <= accuracy::apart(turned, 0)
            + 0x10_0000_0000_0000,
        accuracy::apart(turned, 0) <= 0x20_0000_0000_0000 * step,
        accuracy::apart(quadratic, 0) <= 0x2_0000 * step,
        accuracy::apart(cubic, 0) <= 0x20 * step,
    ensures
        64 * accuracy::apart(turned * unit, first * unit + rd) <= unit * unit,
{
    // Each rounding is off by less than two steps.
    assert(accuracy::apart(first + going, steady) <= 2 * step);
    assert(accuracy::apart(steady + quadratic, curved) <= 2 * step);
    assert(accuracy::apart(curved - cubic, turned) <= 2 * step);
    let gap = accuracy::apart(rd, going * unit);
    let size = accuracy::apart(going, 0);
    assert(gap <= 2 * step * unit) by (nonlinear_arith)
        requires
            0x20_0000_0000_0000 * gap <= (size + 0x10_0000_0000_0000) * unit,
            size <= 0x20_0000_0000_0000 * step,
            0x10_0000_0000_0000 <= step,
            0 <= unit,
            0 <= size,
    ;
    let off = accuracy::apart(turned, first + going);
    assert(off <= 0x2_0000 * step + 0x20 * step + 6 * step);
    let way = accuracy::apart(turned * unit, (first + going) * unit);
    assert(way == off * unit) by (nonlinear_arith)
        requires
            way == accuracy::apart(turned * unit, (first + going) * unit),
            off == accuracy::apart(turned, first + going),
            0 <= unit,
    ;
    assert((first + going) * unit == first * unit + going * unit) by (nonlinear_arith);
    assert(64 * (off * unit + 2 * step * unit) <= unit * unit) by (nonlinear_arith)
        requires
            off <= 0x2_0000 * step + 0x20 * step + 6 * step,
            unit == 0x100_0000 * step,
            0 <= step,
            0 <= off,
    {
        assert(64 * (off + 2 * step) <= unit);
        assert((64 * (off + 2 * step)) * unit <= unit * unit);
    }
}

/// The days are those of the calendar: the days since noon of 1 January 2000 are the
/// milliseconds of the calendar since then, to within half a millisecond.
pub proof fn law_days_count_from_the_year_2000(date: UtcDateTime)
    requires
        date.valid(),
        !date.julian(),
    ensures
        date.epoch_days().finite(),
        0x800_0000 * accuracy::apart(
            86_400_000 * date.epoch_days().units(),
            (satellite::count_of(date) - 63_082_411_200_000) * pow2(1074),
        ) <= 86_400_000 * pow2(1074),
{
    let unit = pow2(1074);
    lemma_constants();
    lemma_pow2_pos(1074);
    calendar::law_julian_days_count_the_calendar(date);
    calendar::lemma_julian_days_are_bounded(date);
    let epoch = Double { bits: 0x4142_b42c_8000_0000 };
    let days = date.julian_days();
    lemma2_to64();
    lemma_pow2_adds(23, 1074);
    lemma_pow2_strictly_increases(1096, 1097);
    accuracy::law_sums_reach(days, epoch, 1097);
    assert(epoch.negated().units() == -epoch.units());
    accuracy::law_sums_are_close(days, epoch.negated());
    lemma_steps();
    lemma_pow2_adds(24, 1074);
    let count = satellite::count_of(date);
    assert((count + 148_731_076_800_000) * unit == (count - 63_082_411_200_000) * unit
        + 211_813_488_000_000 * unit) by (nonlinear_arith);
}

} // verus!

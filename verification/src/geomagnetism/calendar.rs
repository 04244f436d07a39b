//! That Julian days count the days of the calendar.
use crate::accuracy;
use crate::arithmetic;
use crate::double;
use crate::double::Double;
use crate::geomagnetism;
use crate::geomagnetism::{UtcDateTime, YEAR_DAYS};
use crate::order;
use crate::satellite;
use crate::whole;
use vstd::arithmetic::div_mod::*;
use vstd::arithmetic::power2::*;
use vstd::prelude::*;

verus! {

/// Cutting off what stands behind the point leaves the whole number below.
proof fn lemma_cut(number: Double, count: nat)
    requires
        number.finite(),
        !number.negative(),
        count < 0x20_0000_0000_0000,
        count * pow2(1074) <= number.units() < (count + 1) * pow2(1074),
    ensures
        whole::truncated(number).finite(),
        whole::truncated(number).units() == count * pow2(1074),
{
    let unit = pow2(1074);
    let units = number.units();
    lemma_pow2_pos(1074);
    lemma_fundamental_div_mod(units, unit as int);
    let ones = units / (unit as int);
    let rest = units % (unit as int);
    assert(ones == count) by (nonlinear_arith)
        requires
            units == unit * ones + rest,
            0 <= rest < unit,
            count * unit <= units < (count + 1) * unit,
    ;
    let pattern = whole::lemma_short(count, 1074);
    arithmetic::law_exact_results_are_kept(pattern, 1);
    assert(count * unit * 1 == count * unit);
}

/// The days of whole years.
proof fn lemma_years(count: int)
    requires
        0 < count <= 20000,
    ensures
        ({
            let years = whole::truncated(
                arithmetic::product(
                    Double { bits: YEAR_DAYS },
                    arithmetic::whole_number(count),
                ),
            );
            years.finite() && years.units() == ((1461 * count) / 4) * pow2(1074)
        }),
{
    let unit = pow2(1074);
    let year = Double { bits: YEAR_DAYS };
    let number = arithmetic::whole_number(count);
    whole::law_whole_numbers_are_exact(count);
    lemma_pow2_pos(1074);
    assert(count * unit > 0) by (nonlinear_arith)
        requires
            count > 0,
            unit > 0,
    ;
    let quarter = pow2(1072);
    assert(double::double_units(YEAR_DAYS as nat) == 1461 * quarter) by {
        assert(YEAR_DAYS / 0x10_0000_0000_0000 == 1031);
        assert(YEAR_DAYS % 0x10_0000_0000_0000 == 0x6d400_0000_0000);
        lemma_pow2_adds(42, 1030);
        lemma2_to64_rest();
        let scale = pow2(1030);
        assert(0x16d400_0000_0000 * scale == 1461 * (0x400_0000_0000 * scale)) by (nonlinear_arith);
    }
    let days = (1461 * count) as nat;
    let pattern = whole::lemma_short(days, 1072);
    arithmetic::law_exact_results_are_kept(pattern, unit);
    let n = count as nat;
    assert((1461 * quarter) * (n * unit) == ((1461 * n) * quarter) * unit) by (nonlinear_arith);
    let product = arithmetic::product(year, number);
    assert(product.units() == days * quarter);
    lemma_pow2_adds(2, 1072);
    lemma2_to64();
    let full = (days / 4) as nat;
    assert(full * (4 * quarter) <= days * quarter < (full + 1) * (4 * quarter)) by (nonlinear_arith)
        requires
            quarter > 0,
            4 * full <= days < 4 * full + 4,
    {
        assert(full * (4 * quarter) == (4 * full) * quarter);
        assert((full + 1) * (4 * quarter) == (4 * full + 4) * quarter);
    }
    lemma_cut(product, full);
}

/// The days of whole months, counted from March: 30.6001 for each.
proof fn lemma_months(count: int)
    requires
        4 <= count <= 15,
    ensures
        ({
            let months = whole::truncated(
                arithmetic::product(
                    Double { bits: 0x403e_99a0_2752_5461 },
                    arithmetic::whole_number(count),
                ),
            );
            months.finite() && months.units() == ((306001 * count) / 10000) * pow2(1074)
        }),
{
    let unit = pow2(1074);
    let grain = pow2(1026);
    let month = Double { bits: 0x403e_99a0_2752_5461 };
    let number = arithmetic::whole_number(count);
    whole::law_whole_numbers_are_exact(count);
    lemma_pow2_pos(1074);
    lemma_pow2_pos(1026);
    assert(count * unit > 0) by (nonlinear_arith)
        requires
            count > 0,
            unit > 0,
    ;
    let part: nat = 0x1e_99a0_2752_5461;
    assert(double::double_units(0x403e_99a0_2752_5461) == part * grain) by {
        let bits: nat = 0x403e_99a0_2752_5461;
        assert(bits / 0x10_0000_0000_0000 == 1027);
        assert(bits % 0x10_0000_0000_0000 == 0xe_99a0_2752_5461);
    }
    let full = ((306001 * count) / 10000) as nat;
    let n = count as nat;
    assert(full * 0x1_0000_0000_0000 <= part * n);
    assert(8 * (part * n) <= (8 * full + 7) * 0x1_0000_0000_0000);
    lemma_pow2_adds(48, 1026);
    lemma_pow2_adds(45, 1026);
    lemma2_to64_rest();
    let eighth = pow2(1071);
    assert(eighth == 0x2000_0000_0000 * grain);
    assert(unit == 0x1_0000_0000_0000 * grain);
    let low = whole::lemma_short(full, 1074);
    let high = whole::lemma_short(8 * full + 7, 1071);
    let exact = (part * grain) * (n * unit);
    assert(exact == ((part * n) * grain) * unit) by (nonlinear_arith)
        requires
            exact == (part * grain) * (n * unit),
    ;
    assert((full * unit) * unit <= exact) by (nonlinear_arith)
        requires
            exact == ((part * n) * grain) * unit,
            full * 0x1_0000_0000_0000 <= part * n,
            unit == 0x1_0000_0000_0000 * grain,
    {
        assert(full * unit == (full * 0x1_0000_0000_0000) * grain);
        assert((full * 0x1_0000_0000_0000) * grain <= (part * n) * grain);
    }
    assert(exact <= ((8 * full + 7) * eighth) * unit) by (nonlinear_arith)
        requires
            exact == ((part * n) * grain) * unit,
            8 * (part * n) <= (8 * full + 7) * 0x1_0000_0000_0000,
            eighth == 0x2000_0000_0000 * grain,
    {
        assert(part * n <= (8 * full + 7) * 0x2000_0000_0000);
        assert((8 * full + 7) * eighth == ((8 * full + 7) * 0x2000_0000_0000) * grain);
        assert((part * n) * grain <= ((8 * full + 7) * 0x2000_0000_0000) * grain);
    }
    arithmetic::law_exact_results_are_kept(low, unit);
    arithmetic::law_exact_results_are_kept(high, unit);
    arithmetic::law_there_is_a_nearest((full * unit) * unit, unit);
    arithmetic::law_there_is_a_nearest(exact, unit);
    arithmetic::law_there_is_a_nearest(((8 * full + 7) * eighth) * unit, unit);
    let middle = arithmetic::nearest(exact, unit);
    arithmetic::law_nearest_keeps_order((full * unit) * unit, exact, unit, low, middle);
    arithmetic::law_nearest_keeps_order(
        exact,
        ((8 * full + 7) * eighth) * unit,
        unit,
        middle,
        high,
    );
    double::law_magnitudes_keep_order(low, middle);
    double::law_magnitudes_keep_order(middle, high);
    let product = arithmetic::product(month, number);
    assert(product.magnitude() == middle);
    assert((8 * full + 7) * eighth < (full + 1) * unit) by (nonlinear_arith)
        requires
            eighth == 0x2000_0000_0000 * grain,
            unit == 0x1_0000_0000_0000 * grain,
            grain > 0,
    ;
    lemma_cut(product, full);
}

/// The whole of a date, in half days: what the years, the months and the leap days
/// add up to is what the calendar counts.
proof fn lemma_calendar(date: UtcDateTime)
    requires
        date.valid(),
        !date.julian(),
    ensures
        (1461 * (date.shifted_year() + 4716)) / 4 + (306001 * (date.shifted_month() + 1)) / 10000
            + date.day + date.reform() == satellite::day_number(
            date.year as int,
            date.month as int,
            date.day as int,
        ) + 1722949,
{
    let year = date.year as int;
    let month = date.month as int;
    reveal_with_fuel(satellite::days_before, 13);
    let y = date.shifted_year();
    assert((y / 100) / 4 == y / 400);
    assert((1461 * (y + 4716)) / 4 == 365 * y + y / 4 + 1722519);
    if month <= 2 {
        assert(y == year - 1);
    } else {
        assert(y == year);
        assert(year / 4 - (year - 1) / 4 == (if year % 4 == 0 {
            1int
        } else {
            0
        }));
        assert(year / 100 - (year - 1) / 100 == (if year % 100 == 0 {
            1int
        } else {
            0
        }));
        assert(year / 400 - (year - 1) / 400 == (if year % 400 == 0 {
            1int
        } else {
            0
        }));
    }
}

/// The step that errors are counted in: a day is `2^52` of them.
pub open spec fn grain() -> nat {
    pow2(1022)
}

/// How a day and the step stand to each other.
pub proof fn lemma_grain()
    ensures
        pow2(1074) == 0x10_0000_0000_0000 * grain(),
        0x10_0000_0000_0000 < grain(),
{
    lemma_pow2_adds(52, 1022);
    lemma2_to64_rest();
    lemma_pow2_strictly_increases(52, 1022);
}

/// A sum that stays below a whole number, and how far off it may be.
pub proof fn lemma_bounded_sum(left: Double, right: Double, count: nat)
    requires
        left.finite(),
        right.finite(),
        count < 0x20_0000_0000_0000,
        0 <= left.units() + right.units() <= count * pow2(1074),
    ensures
        ({
            let here = arithmetic::sum(left, right);
            let half: int = 0x10_0000_0000_0000;
            &&& here.finite()
            &&& 0 <= here.units() <= count * pow2(1074)
            &&& 2 * half * accuracy::apart(left.units() + right.units(), here.units())
                <= here.units() + half
        }),
{
    let total = (left.units() + right.units()) as nat;
    let top = whole::lemma_short(count, 1074);
    arithmetic::law_exact_results_are_kept(top, 1);
    assert(count * pow2(1074) * 1 == count * pow2(1074));
    arithmetic::law_there_is_a_nearest(total, 1);
    arithmetic::law_there_is_a_nearest(count * pow2(1074), 1);
    let pattern = arithmetic::nearest(total, 1);
    arithmetic::law_nearest_keeps_order(total, count * pow2(1074), 1, pattern, top);
    double::law_magnitudes_keep_order(pattern, top);
    assert(double::double_units(0) == 0);
    accuracy::law_sums_are_close(left, right);
}

/// A part of a whole number, and how far off it may be.
pub proof fn lemma_part(number: Double, divisor: Double, count: nat)
    requires
        number.finite(),
        divisor.finite(),
        0 < count < 0x20_0000_0000_0000,
        divisor.units() == count * pow2(1074),
        0 <= number.units() < count * pow2(1074),
    ensures
        ({
            let here = arithmetic::quotient(number, divisor);
            &&& here.finite()
            &&& 0 <= here.units() <= pow2(1074)
            &&& accuracy::apart(count * here.units(), number.units()) <= count * grain()
        }),
{
    let unit = pow2(1074);
    let here = arithmetic::quotient(number, divisor);
    let half: int = 0x10_0000_0000_0000;
    lemma_grain();
    lemma_pow2_pos(1074);
    assert(count * unit > 0) by (nonlinear_arith)
        requires
            count > 0,
            unit > 0,
    ;
    assert(double::double_units(0) == 0);
    order::law_units_follow_rank(number, number);
    order::law_units_follow_rank(divisor, divisor);
    double::law_rank_is_the_order_of_the_numbers(number, divisor);
    if number.negative() {
        assert(number.magnitude() == 0);
        arithmetic::law_zero_over_a_number(number, divisor);
    } else {
        arithmetic::law_a_smaller_over_a_larger(number, divisor);
    }
    arithmetic::lemma_one();
    double::law_magnitudes_keep_order(here.magnitude(), 0x3ff0_0000_0000_0000);
    accuracy::law_quotients_are_close(number, divisor);
    let q = here.units();
    assert(0 <= q <= unit);
    let n = number.units();
    let gap = accuracy::apart(count * q, n);
    assert((count * unit) * q == (count * q) * unit) by (nonlinear_arith);
    assert(accuracy::apart((count * q) * unit, n * unit) == gap * unit) by (nonlinear_arith)
        requires
            unit > 0,
            gap == accuracy::apart(count * q, n),
    ;
    let step = grain() as int;
    assert(gap <= count * step) by (nonlinear_arith)
        requires
            2 * half * (gap * unit) <= (q + half) * (count * unit),
            0 <= q <= unit,
            unit == half * step,
            half == 0x10_0000_0000_0000,
            half < step,
            unit > 0,
            count > 0,
    {
        assert((q + half) * (count * unit) == ((q + half) * count) * unit);
        assert(2 * half * gap <= (q + half) * count) by (nonlinear_arith)
            requires
                2 * half * (gap * unit) <= ((q + half) * count) * unit,
                unit > 0,
        ;
        assert((q + half) * count <= (2 * half * step) * count) by (nonlinear_arith)
            requires
                q + half <= 2 * half * step,
                count > 0,
        ;
        assert(2 * half * gap <= 2 * half * (step * count)) by (nonlinear_arith)
            requires
                2 * half * gap <= (2 * half * step) * count,
        ;
    }
}

/// The divisors of a day and of a second.
proof fn lemma_divisors()
    ensures
        (Double { bits: 0x408f_4000_0000_0000 }).units() == 1000 * pow2(1074),
        (Double { bits: 0x4038_0000_0000_0000 }).units() == 24 * pow2(1074),
        (Double { bits: 0x4096_8000_0000_0000 }).units() == 1440 * pow2(1074),
        (Double { bits: 0x40f5_1800_0000_0000 }).units() == 86400 * pow2(1074),
        2 * (Double { bits: 0x4097_d200_0000_0000 }).units() == 3049 * pow2(1074),
{
    lemma2_to64_rest();
    lemma_pow2_adds(43, 1031);
    lemma_pow2_adds(48, 1026);
    lemma_pow2_adds(42, 1032);
    lemma_pow2_adds(36, 1038);
    let thousand: nat = 0x408f_4000_0000_0000;
    assert(thousand / 0x10_0000_0000_0000 == 1032);
    assert(thousand % 0x10_0000_0000_0000 == 0xf_4000_0000_0000);
    let hours: nat = 0x4038_0000_0000_0000;
    assert(hours / 0x10_0000_0000_0000 == 1027);
    assert(hours % 0x10_0000_0000_0000 == 0x8_0000_0000_0000);
    let minutes: nat = 0x4096_8000_0000_0000;
    assert(minutes / 0x10_0000_0000_0000 == 1033);
    assert(minutes % 0x10_0000_0000_0000 == 0x6_8000_0000_0000);
    let seconds: nat = 0x40f5_1800_0000_0000;
    assert(seconds / 0x10_0000_0000_0000 == 1039);
    assert(seconds % 0x10_0000_0000_0000 == 0x5_1800_0000_0000);
    let start: nat = 0x4097_d200_0000_0000;
    assert(start / 0x10_0000_0000_0000 == 1033);
    assert(start % 0x10_0000_0000_0000 == 0x7_d200_0000_0000);
    assert(double::double_units(thousand) == 0x1f_4000_0000_0000 * pow2(1031));
    assert(pow2(1074) == 0x800_0000_0000 * pow2(1031));
    assert(double::double_units(hours) == 0x18_0000_0000_0000 * pow2(1026));
    assert(pow2(1074) == 0x1_0000_0000_0000 * pow2(1026));
    assert(double::double_units(minutes) == 0x16_8000_0000_0000 * pow2(1032));
    assert(pow2(1074) == 0x400_0000_0000 * pow2(1032));
    assert(double::double_units(seconds) == 0x15_1800_0000_0000 * pow2(1038));
    assert(pow2(1074) == 0x10_0000_0000 * pow2(1038));
    assert(double::double_units(start) == 0x17_d200_0000_0000 * pow2(1032));
}

/// The milliseconds of a time of day, with those of the days of its month.
spec fn clock(date: UtcDateTime) -> int {
    satellite::milliseconds(
        date.day as int,
        date.hour as int,
        date.minute as int,
        date.second as int,
        date.millisecond as int,
    )
}

proof fn lemma_below(count: int, bound: int)
    requires
        0 <= count <= bound,
    ensures
        0 <= count * pow2(1074) <= bound * pow2(1074),
        0 < pow2(1074),
{
    lemma_pow2_pos(1074);
    let unit = pow2(1074);
    assert(0 <= count * unit <= bound * unit) by (nonlinear_arith)
        requires
            0 <= count <= bound,
    ;
}

/// The same of a sum of a few days, in grains.
proof fn lemma_small_sum(left: Double, right: Double, count: nat)
    requires
        left.finite(),
        right.finite(),
        count < 64,
        0 <= left.units() + right.units() <= count * pow2(1074),
    ensures
        arithmetic::sum(left, right).finite(),
        0 <= arithmetic::sum(left, right).units() <= count * pow2(1074),
        accuracy::apart(left.units() + right.units(), arithmetic::sum(left, right).units()) <= 32
            * grain(),
{
    lemma_bounded_sum(left, right, count);
    lemma_grain();
    lemma_below(count as int, 63);
}

/// How the errors of a clock add up.
proof fn lemma_clock_errors(
    step: int,
    day: int,
    hour: int,
    minute: int,
    second: int,
    milli: int,
    fraction: int,
    seconds: int,
    t1: int,
    t2: int,
    t3: int,
    s1: int,
    s2: int,
    s3: int,
)
    requires
        0 <= step,
        accuracy::apart(1000 * fraction, milli) <= 1000 * step,
        accuracy::apart(second + fraction, seconds) <= 32 * step,
        accuracy::apart(24 * t1, hour) <= 24 * step,
        accuracy::apart(1440 * t2, minute) <= 1440 * step,
        accuracy::apart(86400 * t3, seconds) <= 86400 * step,
        accuracy::apart(day + t1, s1) <= 32 * step,
        accuracy::apart(s1 + t2, s2) <= 32 * step,
        accuracy::apart(s2 + t3, s3) <= 32 * step,
    ensures
        accuracy::apart(
            86_400_000 * s3,
            86_400_000 * day + 3_600_000 * hour + 60_000 * minute + 1000 * second + milli,
        ) <= 86_400_000 * (256 * step),
{
}

/// The day of the month with the time of day, to within a few grains.
proof fn lemma_clock(date: UtcDateTime)
    requires
        date.valid(),
    ensures
        date.day_and_time().finite(),
        0 <= date.day_and_time().units() <= 34 * pow2(1074),
        accuracy::apart(
            86_400_000 * date.day_and_time().units(),
            clock(date) * pow2(1074),
        ) <= 86_400_000 * (256 * grain()),
{
    let unit = pow2(1074);
    lemma_divisors();
    whole::law_whole_numbers_are_exact(date.day as int);
    whole::law_whole_numbers_are_exact(date.hour as int);
    whole::law_whole_numbers_are_exact(date.minute as int);
    whole::law_whole_numbers_are_exact(date.second as int);
    whole::law_whole_numbers_are_exact(date.millisecond as int);
    let day = arithmetic::whole_number(date.day as int);
    let hour = arithmetic::whole_number(date.hour as int);
    let minute = arithmetic::whole_number(date.minute as int);
    let second = arithmetic::whole_number(date.second as int);
    let milli = arithmetic::whole_number(date.millisecond as int);
    lemma_below(date.day as int, 31);
    lemma_below(date.hour as int, 23);
    lemma_below(date.minute as int, 59);
    lemma_below(date.second as int, 59);
    lemma_below(date.millisecond as int, 999);
    lemma_part(milli, Double { bits: 0x408f_4000_0000_0000 }, 1000);
    let fraction = arithmetic::quotient(milli, Double { bits: 0x408f_4000_0000_0000 });
    lemma_small_sum(second, fraction, 60);
    let seconds = arithmetic::sum(second, fraction);
    lemma_part(seconds, Double { bits: 0x40f5_1800_0000_0000 }, 86400);
    lemma_part(hour, Double { bits: 0x4038_0000_0000_0000 }, 24);
    lemma_part(minute, Double { bits: 0x4096_8000_0000_0000 }, 1440);
    let t1 = arithmetic::quotient(hour, Double { bits: 0x4038_0000_0000_0000 });
    let t2 = arithmetic::quotient(minute, Double { bits: 0x4096_8000_0000_0000 });
    let t3 = arithmetic::quotient(seconds, Double { bits: 0x40f5_1800_0000_0000 });
    lemma_small_sum(day, t1, 32);
    let s1 = arithmetic::sum(day, t1);
    lemma_small_sum(s1, t2, 33);
    let s2 = arithmetic::sum(s1, t2);
    lemma_small_sum(s2, t3, 34);
    let s3 = arithmetic::sum(s2, t3);
    assert(s3 == date.day_and_time());
    lemma_clock_errors(
        grain() as int,
        day.units(),
        hour.units(),
        minute.units(),
        second.units(),
        milli.units(),
        fraction.units(),
        seconds.units(),
        t1.units(),
        t2.units(),
        t3.units(),
        s1.units(),
        s2.units(),
        s3.units(),
    );
    let total = clock(date);
    assert(total * unit == 86_400_000 * (date.day * unit) + 3_600_000 * (date.hour * unit) + 60_000
        * (date.minute * unit) + 1000 * (date.second * unit) + date.millisecond * unit)
        by (nonlinear_arith)
        requires
            total == ((((date.day as int) * 24 + date.hour) * 60 + date.minute) * 60 + date.second)
                * 1000 + date.millisecond,
    ;
}

/// Julian days count the days of the calendar and the time of day: the Julian day of
/// a moment is the milliseconds of the calendar up to it, as days, and another
/// 1721424.5 days, to within a third of a millisecond.
pub proof fn law_julian_days_count_the_calendar(date: UtcDateTime)
    requires
        date.valid(),
        !date.julian(),
    ensures
        date.julian_days().finite(),
        0x1000_0000 * accuracy::apart(
            86_400_000 * date.julian_days().units(),
            (satellite::count_of(date) + 148_731_076_800_000) * pow2(1074),
        ) <= 86_400_000 * pow2(1074),
{
    let unit = pow2(1074);
    lemma_grain();
    lemma_divisors();
    lemma_calendar(date);
    lemma_clock(date);
    let y = date.shifted_year();
    lemma_years(y + 4716);
    lemma_months(date.shifted_month() + 1);
    let years = whole::truncated(
        arithmetic::product(Double { bits: YEAR_DAYS }, arithmetic::whole_number(y + 4716)),
    );
    let months = whole::truncated(
        arithmetic::product(
            Double { bits: 0x403e_99a0_2752_5461 },
            arithmetic::whole_number(date.shifted_month() + 1),
        ),
    );
    let first = (1461 * (y + 4716)) / 4;
    let second = (306001 * (date.shifted_month() + 1)) / 10000;
    whole::law_short_sums_are_exact(years, months, first, second, 1074);
    let a = arithmetic::sum(years, months);
    let days = date.day_and_time();
    assert(2_300_000 <= first + second <= 5_400_000);
    let whole_days = first + second;
    assert(2_300_000 * unit <= whole_days * unit <= 5_400_000 * unit) by (nonlinear_arith)
        requires
            2_300_000 <= whole_days <= 5_400_000,
    ;
    lemma_bounded_sum(a, days, 6_000_000);
    let b = arithmetic::sum(a, days);
    let reform = date.reform();
    assert(-100 <= reform <= 30);
    whole::law_whole_numbers_are_exact(reform);
    assert(-100 * unit <= reform * unit <= 30 * unit) by (nonlinear_arith)
        requires
            -100 <= reform <= 30,
    ;
    lemma_bounded_sum(b, arithmetic::whole_number(reform), 6_100_000);
    let c = arithmetic::sum(b, arithmetic::whole_number(reform));
    let start = Double { bits: 0x4097_d200_0000_0000 };
    assert(start.negated().units() == -start.units());
    lemma_bounded_sum(c, start.negated(), 6_200_000);
    let d = arithmetic::difference(c, start);
    assert(d == date.julian_days());
    let day_number = satellite::day_number(date.year as int, date.month as int, date.day as int);
    let count = satellite::count_of(date);
    assert(count + 148_731_076_800_000 == clock(date) + 86_400_000 * (day_number - date.day)
        + 148_731_076_800_000) by (nonlinear_arith)
        requires
            count == (((day_number * 24 + date.hour) * 60 + date.minute) * 60 + date.second) * 1000
                + date.millisecond,
            clock(date) == ((((date.day as int) * 24 + date.hour) * 60 + date.minute) * 60
                + date.second) * 1000 + date.millisecond,
    ;
    assert(whole_days + reform == day_number - date.day + 1_722_949);
    let all = count + 148_731_076_800_000;
    assert(2 * all == 2 * clock(date) + 86_400_000 * (2 * (whole_days + reform) - 3049));
    let clocked = clock(date);
    assert(2 * (all * unit) == 2 * (clocked * unit) + 86_400_000 * (2 * (whole_days * unit) + 2 * (
    reform * unit) - 3049 * unit)) by (nonlinear_arith)
        requires
            2 * all == 2 * clocked + 86_400_000 * (2 * (whole_days + reform) - 3049),
    ;
}

/// A later moment has a later Julian day, and never the same.
pub proof fn law_later_moments_have_later_julian_days(earlier: UtcDateTime, later: UtcDateTime)
    requires
        earlier.valid(),
        later.valid(),
        !earlier.julian(),
        earlier.before(later),
    ensures
        earlier.julian_days().less(later.julian_days()),
{
    satellite::law_milliseconds_order_the_moments(earlier, later);
    law_julian_days_count_the_calendar(earlier);
    law_julian_days_count_the_calendar(later);
    let unit = pow2(1074);
    lemma_pow2_pos(1074);
    let first = satellite::count_of(earlier) + 148_731_076_800_000;
    let second = satellite::count_of(later) + 148_731_076_800_000;
    assert(first * unit + unit <= second * unit) by (nonlinear_arith)
        requires
            first + 1 <= second,
            unit > 0,
    ;
    double::law_rank_is_the_order_of_the_numbers(earlier.julian_days(), later.julian_days());
}

/// The years of the model start with its first day, and go on with the calendar.
pub proof fn law_years_start_with_the_model(earlier: UtcDateTime, later: UtcDateTime)
    requires
        earlier.valid(),
        later.valid(),
        !earlier.julian(),
        !later.julian(),
        earlier.before(later),
    ensures
        geomagnetism::years_since(geomagnetism::new_year(2025)) == (Double { bits: 0 }),
        geomagnetism::years_since(earlier).at_most(geomagnetism::years_since(later)),
{
    let first = geomagnetism::new_year(2025);
    let year = Double { bits: YEAR_DAYS };
    assert(first.valid());
    law_julian_days_count_the_calendar(first);
    law_julian_days_count_the_calendar(earlier);
    law_julian_days_count_the_calendar(later);
    law_later_moments_have_later_julian_days(earlier, later);
    let start = first.julian_days();
    arithmetic::law_a_number_less_itself_is_zero(start);
    arithmetic::law_zero_over_a_number(Double { bits: 0 }, year);
    order::lemma_plain_quotient(Double { bits: 0 }, year);
    let a = arithmetic::difference(earlier.julian_days(), start);
    let b = arithmetic::difference(later.julian_days(), start);
    arithmetic::law_sums_are_numbers(earlier.julian_days(), start.negated());
    arithmetic::law_sums_are_numbers(later.julian_days(), start.negated());
    order::law_differences_keep_order(earlier.julian_days(), start, later.julian_days(), start);
    arithmetic::law_quotients_are_numbers(a, year);
    arithmetic::law_quotients_are_numbers(b, year);
    order::law_quotients_keep_order(a, b, year);
}

/// A year of the model is 365.25 days: four times the days since its first day are
/// 1461 times its years, as closely as numbers can tell.
pub proof fn law_a_year_is_a_julian_year(date: UtcDateTime)
    requires
        arithmetic::difference(
            date.julian_days(),
            geomagnetism::new_year(2025).julian_days(),
        ).finite(),
        geomagnetism::years_since(date).finite(),
    ensures
        ({
            let years = geomagnetism::years_since(date).units();
            let days = arithmetic::difference(
                date.julian_days(),
                geomagnetism::new_year(2025).julian_days(),
            ).units();
            let half: int = 0x10_0000_0000_0000;
            2 * half * accuracy::apart(1461 * years, 4 * days) <= (accuracy::apart(years, 0) + half)
                * 1461
        }),
{
    let year = Double { bits: YEAR_DAYS };
    let days = arithmetic::difference(
        date.julian_days(),
        geomagnetism::new_year(2025).julian_days(),
    );
    let years = arithmetic::quotient(days, year);
    let quarter = pow2(1072);
    lemma_pow2_pos(1072);
    lemma_pow2_adds(2, 1072);
    lemma2_to64();
    assert(year.units() == 1461 * quarter) by {
        assert(YEAR_DAYS / 0x10_0000_0000_0000 == 1031);
        assert(YEAR_DAYS % 0x10_0000_0000_0000 == 0x6d400_0000_0000);
        lemma_pow2_adds(42, 1030);
        lemma2_to64_rest();
        let scale = pow2(1030);
        assert(0x16d400_0000_0000 * scale == 1461 * (0x400_0000_0000 * scale)) by (nonlinear_arith);
    }
    accuracy::law_quotients_are_close(days, year);
    let y = years.units();
    let d = days.units();
    let half: int = 0x10_0000_0000_0000;
    let gap = accuracy::apart(1461 * y, 4 * d);
    assert((1461 * quarter) * y == (1461 * y) * quarter) by (nonlinear_arith);
    assert(d * (4 * quarter) == (4 * d) * quarter) by (nonlinear_arith);
    assert(accuracy::apart((1461 * y) * quarter, (4 * d) * quarter) == gap * quarter)
        by (nonlinear_arith)
        requires
            quarter > 0,
            gap == accuracy::apart(1461 * y, 4 * d),
    ;
    let size = accuracy::apart(y, 0);
    assert(accuracy::apart(1461 * quarter as int, 0) == 1461 * quarter);
    assert(2 * half * gap <= (size + half) * 1461) by (nonlinear_arith)
        requires
            2 * half * (gap * quarter) <= (size + half) * (1461 * quarter),
            quarter > 0,
    ;
}

/// Julian days of the calendar stay below eight million and some.
pub proof fn lemma_julian_days_are_bounded(date: UtcDateTime)
    requires
        date.valid(),
        !date.julian(),
    ensures
        accuracy::reaches_to(date.julian_days(), 1097),
{
    let unit = pow2(1074);
    lemma_pow2_pos(1074);
    lemma2_to64();
    lemma_pow2_adds(23, 1074);
    law_julian_days_count_the_calendar(date);
    let count = satellite::count_of(date);
    let last = UtcDateTime {
        year: 9999,
        month: 12,
        day: 31,
        hour: 23,
        minute: 59,
        second: 59,
        millisecond: 999,
    };
    let first = UtcDateTime {
        year: 1,
        month: 1,
        day: 1,
        hour: 0,
        minute: 0,
        second: 0,
        millisecond: 0,
    };
    reveal_with_fuel(satellite::days_before, 13);
    assert(last.valid() && first.valid());
    satellite::law_milliseconds_order_the_moments(last, date);
    satellite::law_milliseconds_order_the_moments(date, first);
    assert(satellite::count_of(last) <= 320_000_000_000_000);
    assert(satellite::count_of(first) >= 0);
    let all = count + 148_731_076_800_000;
    assert(0 <= all <= 500_000_000_000_000);
    assert(0 <= all * unit <= 500_000_000_000_000 * unit) by (nonlinear_arith)
        requires
            0 <= all <= 500_000_000_000_000,
    ;
}

} // verus!

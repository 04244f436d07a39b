//! When the samples of a ground track are taken.
use crate::accuracy;
use crate::arithmetic;
use crate::double;
use crate::double::Double;
use crate::geomagnetism::calendar;
use crate::order;
use crate::satellite;
use crate::whole;
use vstd::arithmetic::div_mod::*;
use vstd::arithmetic::power2::*;
use vstd::prelude::*;

verus! {

/// Multiples of two numbers lie as many times apart.
proof fn lemma_scaled(x: int, y: int, factor: int, bound: int)
    requires
        accuracy::apart(x, y) <= bound,
        0 <= factor,
    ensures
        accuracy::apart(factor * x, factor * y) <= factor * bound,
{
    let gap = accuracy::apart(x, y);
    assert(accuracy::apart(factor * x, factor * y) == factor * gap) by (nonlinear_arith)
        requires
            0 <= factor,
            gap == accuracy::apart(x, y),
    ;
    assert(factor * gap <= factor * bound) by (nonlinear_arith)
        requires
            gap <= bound,
            0 <= factor,
    ;
}

/// How far into the orbit a sample lies.
proof fn lemma_fraction(index: int, last: int)
    requires
        0 <= index <= last,
        0 < last < u32::MAX,
    ensures
        ({
            let fraction = satellite::sample_fraction(index, last + 1);
            &&& accuracy::reaches_to(fraction, 1074)
            &&& accuracy::apart(
                2 * last * fraction.units(),
                (2 * index - last) * pow2(1074),
            ) <= 4 * last * calendar::grain()
        }),
{
    let unit = pow2(1074);
    let step = calendar::grain() as int;
    calendar::lemma_grain();
    lemma_pow2_pos(1074);
    let half = Double { bits: 0x3fe0_0000_0000_0000 };
    order::law_half_of_one();
    let a = arithmetic::whole_number(index);
    let b = arithmetic::whole_number(last);
    whole::law_whole_numbers_are_exact(index);
    whole::law_whole_numbers_are_exact(last);
    assert(0 <= index * unit <= last * unit && 0 < last * unit) by (nonlinear_arith)
        requires
            0 <= index <= last,
            0 < last,
            0 < unit,
    ;
    let part = arithmetic::quotient(a, b);
    let q = part.units();
    if index < last {
        assert(index * unit < last * unit) by (nonlinear_arith)
            requires
                index < last,
                0 < unit,
        ;
        calendar::lemma_part(a, b, last as nat);
    } else {
        order::law_units_follow_rank(b, b);
        arithmetic::law_a_number_over_itself(b);
        arithmetic::lemma_one();
        assert(last * q == index * unit);
        assert(0 <= last * step) by (nonlinear_arith)
            requires
                0 <= last,
                0 <= step,
        ;
    }
    assert(accuracy::apart(last * q, index * unit) <= last * step);
    assert(0 <= q <= unit);
    assert(half.negated().units() == -half.units());
    assert(2 * half.units() == unit);
    assert(accuracy::reaches_to(part, 1074));
    accuracy::law_sums_reach(part, half, 1074);
    let fraction = arithmetic::difference(part, half);
    accuracy::law_sums_are_close(part, half.negated());
    let f = fraction.units();
    lemma_pow2_unfold(1075);
    assert(accuracy::apart(q - half.units(), f) <= step);
    // Half a turn more or less.
    assert(accuracy::apart(f, 0) <= unit);
    lemma_scaled(2 * q - unit, 2 * f, last, 2 * step);
    lemma_scaled(last * q, index * unit, 2, last * step);
    assert(last * (2 * q - unit) == 2 * (last * q) - last * unit) by (nonlinear_arith);
    assert(last * (2 * f) == 2 * last * f) by (nonlinear_arith);
    assert((2 * index - last) * unit == 2 * (index * unit) - last * unit) by (nonlinear_arith);
    assert(last * (2 * step) == 2 * (last * step)) by (nonlinear_arith);
    assert(4 * last * step == 4 * (last * step)) by (nonlinear_arith);
}

/// The nearest whole number is no further off than a half.
proof fn lemma_nearest(number: Double)
    requires
        accuracy::reaches_to(number, 1130),
    ensures
        2 * accuracy::apart(whole::nearest_whole(number) * pow2(1074), number.units()) <= pow2(
            1074,
        ),
{
    let unit = pow2(1074) as int;
    lemma_pow2_pos(1074);
    let size = double::double_units(number.magnitude()) as int;
    let count = whole::nearest_ones(number.magnitude()) as int;
    lemma_fundamental_div_mod(2 * size + unit, 2 * unit);
    let rest = (2 * size + unit) % (2 * unit);
    assert((2 * unit) * count == 2 * (count * unit)) by (nonlinear_arith);
    lemma_pow2_adds(56, 1074);
    lemma2_to64_rest();
    assert(count <= 0x100_0000_0000_0001) by (nonlinear_arith)
        requires
            2 * (count * unit) <= 2 * size + unit,
            size <= 0x100_0000_0000_0000 * unit,
            0 < unit,
    ;
    assert((-count) * unit == -(count * unit)) by (nonlinear_arith);
}

/// How the errors of a sample's time add up.
proof fn lemma_offset_errors(
    unit: int,
    step: int,
    last: int,
    lead: int,
    fraction: int,
    period: int,
    minutes: int,
    millis: int,
    offset: int,
)
    requires
        unit == 0x10_0000_0000_0000 * step,
        0x10_0000_0000_0000 < step,
        0 < last,
        0 <= period <= 0x10_0000 * unit,
        accuracy::apart(2 * last * fraction, lead * unit) <= 4 * last * step,
        accuracy::apart(fraction * period, minutes * unit) <= (0x10_0000 * step) * unit,
        accuracy::apart(60_000 * minutes, millis) <= 0x10_0000_0000 * step,
        2 * accuracy::apart(offset * unit, millis) <= unit,
    ensures
        accuracy::apart(2 * last * offset * unit, 60_000 * (lead * period)) <= 2 * last * unit,
{
    let n = 2 * last;
    // From the offset to the milliseconds, to the minutes, to the fraction, to the lead.
    let a = offset * unit;
    lemma_scaled(2 * a, 2 * millis, last * unit, unit);
    lemma_scaled(60_000 * minutes, millis, n * unit, 0x10_0000_0000 * step);
    lemma_scaled(fraction * period, minutes * unit, 60_000 * n, (0x10_0000 * step) * unit);
    lemma_scaled(n * fraction, lead * unit, 60_000 * period, 4 * last * step);
    assert(0 <= last * unit && 0 <= n * unit) by (nonlinear_arith)
        requires
            0 < last,
            0 <= unit,
            n == 2 * last,
    ;
    let w0 = (last * unit) * (2 * a);
    let w1 = (last * unit) * (2 * millis);
    let w2 = (n * unit) * (60_000 * minutes);
    let w3 = (60_000 * n) * (fraction * period);
    let w4 = (60_000 * period) * (lead * unit);
    assert(w1 == (n * unit) * millis) by (nonlinear_arith)
        requires
            w1 == (last * unit) * (2 * millis),
            n == 2 * last,
    ;
    assert(w2 == (60_000 * n) * (minutes * unit)) by (nonlinear_arith)
        requires
            w2 == (n * unit) * (60_000 * minutes),
    ;
    assert(w3 == (60_000 * period) * (n * fraction)) by (nonlinear_arith)
        requires
            w3 == (60_000 * n) * (fraction * period),
    ;
    let tile = last * step;
    let b1 = (last * unit) * unit;
    let b2 = (n * unit) * (0x10_0000_0000 * step);
    let b3 = (60_000 * n) * ((0x10_0000 * step) * unit);
    let b4 = (60_000 * period) * (4 * last * step);
    assert(b2 == 0x20_0000_0000 * (tile * unit)) by (nonlinear_arith)
        requires
            b2 == (n * unit) * (0x10_0000_0000 * step),
            n == 2 * last,
            tile == last * step,
    ;
    assert(b3 == (120_000 * 0x10_0000) * (tile * unit)) by (nonlinear_arith)
        requires
            b3 == (60_000 * n) * ((0x10_0000 * step) * unit),
            n == 2 * last,
            tile == last * step,
    ;
    assert(b4 == 240_000 * (tile * period)) by (nonlinear_arith)
        requires
            b4 == (60_000 * period) * (4 * last * step),
            tile == last * step,
    ;
    assert(0 <= tile) by (nonlinear_arith)
        requires
            tile == last * step,
            0 < last,
            0 < step,
    ;
    assert(tile * period <= 0x10_0000 * (tile * unit)) by (nonlinear_arith)
        requires
            0 <= tile,
            period <= 0x10_0000 * unit,
    ;
    assert(b1 == 0x10_0000_0000_0000 * (tile * unit)) by (nonlinear_arith)
        requires
            b1 == (last * unit) * unit,
            unit == 0x10_0000_0000_0000 * step,
            tile == last * step,
    ;
    assert(0 <= tile * unit) by (nonlinear_arith)
        requires
            0 <= tile,
            0 <= unit,
    ;
    assert(accuracy::apart(w0, w1) <= b1);
    assert(accuracy::apart(w2, w1) <= b2);
    assert(accuracy::apart(w3, w2) <= b3);
    assert(accuracy::apart(w3, w4) <= b4);
    assert(accuracy::apart(w0, w4) <= b1 + b2 + b3 + b4);
    let t = tile * unit;
    let v = tile * period;
    assert(b1 + b2 + b3 + b4 <= 2 * b1) by (nonlinear_arith)
        requires
            b1 == 0x10_0000_0000_0000 * t,
            b2 == 0x20_0000_0000 * t,
            b3 == (120_000 * 0x10_0000) * t,
            b4 == 240_000 * v,
            v <= 0x10_0000 * t,
            0 <= t,
    ;
    // Down by one unit.
    let left = n * offset * unit;
    let right = 60_000 * (lead * period);
    assert(w0 == left * unit) by (nonlinear_arith)
        requires
            w0 == (last * unit) * (2 * (offset * unit)),
            left == n * offset * unit,
            n == 2 * last,
    ;
    assert(w4 == right * unit) by (nonlinear_arith)
        requires
            w4 == (60_000 * period) * (lead * unit),
            right == 60_000 * (lead * period),
    ;
    let gap = accuracy::apart(left, right);
    assert(accuracy::apart(left * unit, right * unit) == gap * unit) by (nonlinear_arith)
        requires
            0 <= unit,
            gap == accuracy::apart(left, right),
    ;
    assert(gap <= n * unit) by (nonlinear_arith)
        requires
            gap * unit <= 2 * ((last * unit) * unit),
            n == 2 * last,
            0 < unit,
    ;
}

/// The samples of a ground track are evenly spaced: each lies as many milliseconds from
/// the middle as its share of the way from the first to the last, less a half, is of
/// the period, to within a millisecond.
pub proof fn law_samples_are_evenly_spaced(period: Double, index: int, samples: int)
    requires
        0 <= index < samples,
        2 <= samples <= u32::MAX,
        accuracy::reaches_to(period, 1094),
        0 <= period.units(),
    ensures
        ({
            let last = samples - 1;
            accuracy::apart(
                2 * last * satellite::sample_offset(period, index, samples) * pow2(1074),
                60_000 * ((2 * index - last) * period.units()),
            ) <= 2 * last * pow2(1074)
        }),
{
    let last = samples - 1;
    let unit = pow2(1074);
    let step = calendar::grain() as int;
    calendar::lemma_grain();
    lemma_pow2_pos(1074);
    lemma_fraction(index, last);
    let fraction = satellite::sample_fraction(index, samples);
    let minute = Double { bits: 0x40ed_4c00_0000_0000 };
    assert(minute.units() == 60_000 * unit) by {
        let bits: nat = 0x40ed_4c00_0000_0000;
        assert(bits / 0x10_0000_0000_0000 == 1038);
        assert(bits % 0x10_0000_0000_0000 == 0xd_4c00_0000_0000);
        lemma2_to64_rest();
        lemma_pow2_adds(37, 1037);
        assert(double::double_units(bits) == 0x1d_4c00_0000_0000 * pow2(1037));
        assert(unit == 0x20_0000_0000 * pow2(1037));
    }
    lemma2_to64();
    lemma_pow2_adds(16, 1074);
    lemma_pow2_adds(20, 1074);
    lemma_pow2_adds(36, 1074);
    lemma2_to64_rest();
    assert(accuracy::reaches_to(minute, 1090));
    accuracy::law_products_reach(fraction, period, 1074, 1094);
    accuracy::law_products_are_close(fraction, period);
    let minutes = arithmetic::product(fraction, period);
    accuracy::law_products_reach(minutes, minute, 1094, 1090);
    accuracy::law_products_are_close(minutes, minute);
    let millis = arithmetic::product(minutes, minute);
    lemma_pow2_strictly_increases(1110, 1130);
    lemma_nearest(millis);
    let e = minutes.units();
    let g = millis.units();
    let half: int = 0x10_0000_0000_0000;
    let first = accuracy::apart(fraction.units() * period.units(), e * unit);
    let reach = accuracy::apart(e, 0);
    assert(first <= (0x10_0000 * step) * unit) by (nonlinear_arith)
        requires
            2 * half * first <= (reach + half) * unit,
            reach <= 0x10_0000 * unit,
            unit == half * step,
            half == 0x10_0000_0000_0000,
            half < step,
            0 < unit,
    {
        assert(reach + half <= 2 * half * (0x10_0000 * step));
        assert((reach + half) * unit <= (2 * half * (0x10_0000 * step)) * unit);
    }
    let gap = accuracy::apart(60_000 * e, g);
    assert(e * (60_000 * unit) == (60_000 * e) * unit) by (nonlinear_arith);
    assert(accuracy::apart((60_000 * e) * unit, g * unit) == gap * unit) by (nonlinear_arith)
        requires
            0 < unit,
            gap == accuracy::apart(60_000 * e, g),
    ;
    let size = accuracy::apart(g, 0);
    assert(2 * half * gap <= size + half) by (nonlinear_arith)
        requires
            2 * half * (gap * unit) <= (size + half) * unit,
            0 < unit,
    ;
    assert(gap <= 0x10_0000_0000 * step);
    lemma_offset_errors(
        unit as int,
        step,
        last,
        2 * index - last,
        fraction.units(),
        period.units(),
        e,
        g,
        satellite::sample_offset(period, index, samples),
    );
}

} // verus!

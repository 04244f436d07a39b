//! A Kalman filter for one number.
use crate::accuracy;
use crate::arithmetic;
use crate::double;
use crate::double::{Double, INFINITE};
use crate::order;
use crate::pid;
use crate::pid::{FEWEST_TICKS, MOST_TICKS};
use vstd::arithmetic::power2::*;
use vstd::prelude::*;

verus! {

#[derive(Debug, Clone, Copy, PartialEq, Eq, Structural)]
pub struct KalmanFilter {
    pub a: Double,
    pub h: Double,
    pub q: Double,
    pub r: Double,
    pub state: Double,
    pub covariance: Double,
}

pub open spec fn one() -> Double {
    Double { bits: 0x3ff0_0000_0000_0000 }
}

/// A filter with both factors at 1.
pub open spec fn fresh(state: Double, covariance: Double, q: Double, r: Double) -> KalmanFilter {
    KalmanFilter { a: one(), h: one(), q, r, state, covariance }
}

/// Where the filter expects the quantity to be.
pub open spec fn predicted(filter: KalmanFilter, control_input: Double) -> Double {
    arithmetic::sum(arithmetic::product(filter.a, filter.state), control_input)
}

/// How unsure it is of that after `ticks` intervals, held between 0.01 and 10.
pub open spec fn predicted_covariance(filter: KalmanFilter, ticks: Double) -> Double {
    arithmetic::sum(
        arithmetic::product(arithmetic::product(filter.a, filter.covariance), filter.a),
        arithmetic::product(
            filter.q,
            ticks.clamped(crate::pid::fewest_ticks(), crate::pid::most_ticks()),
        ),
    )
}

/// How far a measurement pulls the state.
pub open spec fn gain(filter: KalmanFilter, covariance: Double) -> Double {
    arithmetic::quotient(
        arithmetic::product(covariance, filter.h),
        arithmetic::sum(
            arithmetic::product(arithmetic::product(filter.h, covariance), filter.h),
            filter.r,
        ),
    )
}

/// One prediction and one correction.
pub open spec fn updated(
    filter: KalmanFilter,
    measurement: Double,
    control_input: Double,
    ticks: Double,
) -> KalmanFilter {
    let state = predicted(filter, control_input);
    let covariance = predicted_covariance(filter, ticks);
    let pull = gain(filter, covariance);
    KalmanFilter {
        state: arithmetic::sum(
            state,
            arithmetic::product(
                pull,
                arithmetic::difference(measurement, arithmetic::product(filter.h, state)),
            ),
        ),
        covariance: arithmetic::product(
            arithmetic::difference(one(), arithmetic::product(pull, filter.h)),
            covariance,
        ),
        ..filter
    }
}

impl KalmanFilter {
    pub fn new(initial_state: Double, initial_covariance: Double, q: Double, r: Double) -> (result:
        Self)
        ensures
            result == fresh(initial_state, initial_covariance, q, r),
    {
        KalmanFilter {
            a: Double::from_bits(0x3ff0_0000_0000_0000),
            h: Double::from_bits(0x3ff0_0000_0000_0000),
            q,
            r,
            state: initial_state,
            covariance: initial_covariance,
        }
    }

    pub fn state(&self) -> (result: Double)
        ensures
            result == self.state,
    {
        self.state
    }

    pub fn covariance(&self) -> (result: Double)
        ensures
            result == self.covariance,
    {
        self.covariance
    }

    /// Sets the measurement noise. Only a number at or below zero is refused:
    /// infinity and NaN pass.
    pub fn set_measurement_noise(&mut self, value: Double) -> (result: Result<(), String>)
        ensures
            result is Err == value.at_most(Double { bits: 0 }),
            result is Err ==> result->Err_0@ == "measurement noise R must be greater than zero"@,
            *final(self) == (KalmanFilter {
                r: if result is Ok {
                    value
                } else {
                    old(self).r
                },
                ..*old(self)
            }),
    {
        if value.le(Double::zero()) {
            return Err("measurement noise R must be greater than zero".to_owned());
        }
        self.r = value;
        Ok(())
    }

    /// One update over a nominal tick.
    pub fn filter(&mut self, measurement: Double, control_input: Double) -> (result: Double)
        ensures
            *final(self) == updated(*old(self), measurement, control_input, one()),
            result == final(self).state,
    {
        self.filter_ticks(measurement, control_input, Double::from_bits(0x3ff0_0000_0000_0000))
    }

    /// One update over `ticks` nominal intervals.
    ///
    /// `control_input` is how far the true quantity is known to have moved since
    /// the last update, so that a commanded ramp is predicted rather than
    /// chased. `q` is a variance per interval and is scaled by `ticks`.
    pub fn filter_ticks(&mut self, measurement: Double, control_input: Double, ticks: Double) -> (result:
        Double)
        ensures
            *final(self) == updated(*old(self), measurement, control_input, ticks),
            result == final(self).state,
    {
        let ticks: Double = ticks.clamp(
            Double::from_bits(FEWEST_TICKS),
            Double::from_bits(MOST_TICKS),
        );
        let x_pred: Double = self.a.times(self.state).plus(control_input);
        let p_pred: Double = self.a.times(self.covariance).times(self.a).plus(self.q.times(ticks));
        let gain: Double = p_pred.times(self.h).over(
            self.h.times(p_pred).times(self.h).plus(self.r),
        );
        self.state = x_pred.plus(gain.times(measurement.minus(self.h.times(x_pred))));
        self.covariance = Double::from_bits(0x3ff0_0000_0000_0000).minus(gain.times(self.h)).times(
            p_pred,
        );
        self.state
    }

    /// Starts over from a state; factors and noise terms stay.
    pub fn reset(&mut self, initial_state: Double, initial_covariance: Double)
        ensures
            *final(self) == (KalmanFilter {
                state: initial_state,
                covariance: initial_covariance,
                ..*old(self)
            }),
    {
        self.state = initial_state;
        self.covariance = initial_covariance;
    }
}

/// A known step is tracked without the gain having to find it: a measurement
/// that lands where the filter expects it leaves the expectation standing,
/// whatever the gain.
pub proof fn law_an_expected_measurement_changes_nothing(
    filter: KalmanFilter,
    control_input: Double,
    ticks: Double,
)
    requires
        filter.h == one(),
        predicted(filter, control_input).finite(),
        gain(filter, predicted_covariance(filter, ticks)).finite(),
    ensures
        updated(filter, predicted(filter, control_input), control_input, ticks).state.equals(
            predicted(filter, control_input),
        ),
{
    let state = predicted(filter, control_input);
    let pull = gain(filter, predicted_covariance(filter, ticks));
    arithmetic::law_one_times_a_number(state);
    arithmetic::law_a_number_less_itself_is_zero(state);
    arithmetic::law_zero_times_a_number(pull, Double { bits: 0 });
    let moved = arithmetic::product(pull, Double { bits: 0 });
    arithmetic::law_zero_adds_nothing(state, moved);
}

/// Without a measurement that tells anything, the filter only predicts: under
/// infinite measurement noise the state moves by the control input and by nothing
/// else, and the covariance that it had grows by `q` for every tick.
pub proof fn law_uncertainty_grows_until_it_is_measured(
    filter: KalmanFilter,
    measurement: Double,
    control_input: Double,
    ticks: Double,
)
    requires
        filter.a == one(),
        filter.h == one(),
        filter.r == (Double { bits: INFINITE }),
        filter.state.finite(),
        filter.covariance.finite(),
        measurement.finite(),
        arithmetic::sum(filter.state, control_input).finite(),
        arithmetic::difference(
            measurement,
            arithmetic::sum(filter.state, control_input),
        ).finite(),
        pid::fewest_ticks().at_most(ticks),
        ticks.at_most(pid::most_ticks()),
        arithmetic::sum(filter.covariance, arithmetic::product(filter.q, ticks)).finite(),
        !arithmetic::sum(filter.covariance, arithmetic::product(filter.q, ticks)).negative(),
    ensures
        ({
            let after = updated(filter, measurement, control_input, ticks);
            &&& after.state.equals(arithmetic::sum(filter.state, control_input))
            &&& after.covariance == arithmetic::sum(
                filter.covariance,
                arithmetic::product(filter.q, ticks),
            )
        }),
{
    let zero = Double { bits: 0 };
    let grown = arithmetic::sum(filter.covariance, arithmetic::product(filter.q, ticks));
    arithmetic::law_one_times_a_number(filter.state);
    arithmetic::law_one_times_a_number(filter.covariance);
    arithmetic::law_times_one(filter.covariance);
    arithmetic::law_sums_are_numbers(filter.state, control_input);
    let state = arithmetic::sum(filter.state, control_input);
    assert(predicted(filter, control_input) == state);
    assert(predicted_covariance(filter, ticks) == grown);
    arithmetic::law_times_one(grown);
    arithmetic::law_one_times_a_number(grown);
    assert(gain(filter, grown) == zero);
    arithmetic::law_one_times_a_number(state);
    let off = arithmetic::difference(measurement, state);
    arithmetic::law_zero_times_a_number(off, zero);
    arithmetic::law_factors_may_change_places(off, zero);
    arithmetic::law_zero_adds_nothing(state, arithmetic::product(zero, off));
    arithmetic::law_times_one(zero);
    lemma_one_less_nothing();
}

proof fn lemma_one_less_nothing()
    ensures
        arithmetic::difference(one(), Double { bits: 0 }) == one(),
{
    arithmetic::law_zero_adds_nothing(one(), (Double { bits: 0 }).negated());
}

/// Of a filter with plain factors: how far a measurement pulls lies between nothing
/// and everything.
proof fn lemma_gain(filter: KalmanFilter, covariance: Double)
    requires
        filter.h == one(),
        covariance.finite(),
        (Double { bits: 0 }).at_most(covariance),
        (Double { bits: 0 }).less(filter.r),
    ensures
        !gain(filter, covariance).nan(),
        (Double { bits: 0 }).at_most(gain(filter, covariance)),
        gain(filter, covariance).magnitude() <= 0x3ff0_0000_0000_0000,
        gain(filter, covariance) == arithmetic::quotient(
            covariance,
            arithmetic::sum(covariance, filter.r),
        ),
{
    let zero = Double { bits: 0 };
    arithmetic::law_times_one(covariance);
    arithmetic::law_one_times_a_number(covariance);
    let all = arithmetic::sum(covariance, filter.r);
    arithmetic::law_sums_are_numbers(covariance, filter.r);
    arithmetic::law_sums_are_numbers(covariance, zero);
    arithmetic::law_sums_are_numbers(zero, filter.r);
    order::law_sums_keep_order(covariance, zero, covariance, filter.r);
    arithmetic::law_zero_adds_nothing(covariance, zero);
    order::law_sums_keep_order(zero, filter.r, covariance, filter.r);
    if filter.r.finite() {
        arithmetic::law_zero_adds_nothing(filter.r, zero);
        arithmetic::law_terms_may_change_places(filter.r, zero);
    }
    arithmetic::law_quotients_are_numbers(covariance, all);
    if covariance.magnitude() == 0 {
        arithmetic::law_zero_over_a_number(covariance, all);
    } else if covariance.rank() == all.rank() {
        arithmetic::law_a_number_over_itself(covariance);
    } else {
        arithmetic::law_a_smaller_over_a_larger(covariance, all);
    }
}

/// A measurement never makes the filter less sure, and never carries the state past
/// it: with a noise above zero the covariance afterwards lies between zero and what
/// it had grown to, and the state between the prediction and the measurement.
pub proof fn law_measurements_pull_part_of_the_way(
    filter: KalmanFilter,
    measurement: Double,
    control_input: Double,
    ticks: Double,
)
    requires
        filter.a == one(),
        filter.h == one(),
        (Double { bits: 0 }).less(filter.r),
        filter.state.finite(),
        filter.covariance.finite(),
        measurement.finite(),
        arithmetic::sum(filter.state, control_input).finite(),
        arithmetic::difference(
            measurement,
            arithmetic::sum(filter.state, control_input),
        ).finite(),
        pid::fewest_ticks().at_most(ticks),
        ticks.at_most(pid::most_ticks()),
        arithmetic::sum(filter.covariance, arithmetic::product(filter.q, ticks)).finite(),
        (Double { bits: 0 }).at_most(
            arithmetic::sum(filter.covariance, arithmetic::product(filter.q, ticks)),
        ),
    ensures
        ({
            let after = updated(filter, measurement, control_input, ticks);
            let expected = arithmetic::sum(filter.state, control_input);
            let off = arithmetic::difference(measurement, expected);
            &&& (Double { bits: 0 }).at_most(after.covariance)
            &&& after.covariance.at_most(
                arithmetic::sum(filter.covariance, arithmetic::product(filter.q, ticks)),
            )
            &&& expected.at_most(measurement) ==> expected.at_most(after.state)
                && after.state.at_most(arithmetic::sum(expected, off))
            &&& measurement.at_most(expected) ==> after.state.at_most(expected)
                && arithmetic::sum(expected, off).at_most(after.state)
        }),
{
    let zero = Double { bits: 0 };
    let grown = arithmetic::sum(filter.covariance, arithmetic::product(filter.q, ticks));
    arithmetic::law_one_times_a_number(filter.state);
    arithmetic::law_one_times_a_number(filter.covariance);
    arithmetic::law_times_one(filter.covariance);
    let state = arithmetic::sum(filter.state, control_input);
    assert(predicted(filter, control_input) == state);
    assert(predicted_covariance(filter, ticks) == grown);
    lemma_gain(filter, grown);
    let pull = gain(filter, grown);
    arithmetic::law_times_one(pull);
    arithmetic::law_one_times_a_number(state);
    // The covariance.
    let kept = arithmetic::difference(one(), pull);
    arithmetic::law_sums_are_numbers(one(), pull.negated());
    lemma_one_less_nothing();
    arithmetic::law_a_number_less_itself_is_zero(one());
    assert(zero.at_most(kept) && kept.magnitude() <= 0x3ff0_0000_0000_0000) by {
        order::law_differences_keep_order(one(), pull, one(), zero);
        order::law_differences_keep_order(one(), one(), one(), pull);
    }
    arithmetic::law_factors_may_change_places(kept, grown);
    arithmetic::law_a_fraction_does_not_enlarge(grown, kept);
    if grown.negative() {
        arithmetic::law_zero_times_a_number(kept, grown);
    }
    if kept.negative() {
        arithmetic::law_zero_times_a_number(grown, kept);
    }
    arithmetic::law_products_are_numbers(grown, kept);
    // The state.
    let off = arithmetic::difference(measurement, state);
    let moved = arithmetic::product(pull, off);
    arithmetic::law_factors_may_change_places(pull, off);
    arithmetic::law_a_fraction_does_not_enlarge(off, pull);
    arithmetic::law_products_are_numbers(off, pull);
    if pull.negative() {
        arithmetic::law_zero_times_a_number(off, pull);
    }
    arithmetic::law_a_number_less_itself_is_zero(state);
    arithmetic::law_a_number_less_itself_is_zero(measurement);
    arithmetic::law_zero_adds_nothing(state, zero);
    arithmetic::law_sums_are_numbers(state, moved);
    arithmetic::law_sums_are_numbers(state, off);
    arithmetic::law_sums_are_numbers(state, zero);
    if state.at_most(measurement) {
        order::law_differences_keep_order(state, state, measurement, state);
        assert(zero.at_most(off));
        assert(zero.at_most(moved) && moved.at_most(off));
        order::law_sums_keep_order(state, zero, state, moved);
        order::law_sums_keep_order(state, moved, state, off);
    }
    if measurement.at_most(state) {
        order::law_differences_keep_order(measurement, state, state, state);
        assert(off.at_most(zero));
        assert(moved.at_most(zero) && off.at_most(moved));
        order::law_sums_keep_order(state, moved, state, zero);
        order::law_sums_keep_order(state, off, state, moved);
    }
}

/// The filter has no favourite side: with the state, the measurement and the control
/// input turned round, the state afterwards is turned round, and it is as sure of it.
pub proof fn law_both_sides_are_filtered_alike(
    filter: KalmanFilter,
    mirrored: KalmanFilter,
    measurement: Double,
    control_input: Double,
    ticks: Double,
)
    requires
        mirrored == (KalmanFilter { state: filter.state.negated(), ..filter }),
    ensures
        ({
            let after = updated(filter, measurement, control_input, ticks);
            let other = updated(mirrored, measurement.negated(), control_input.negated(), ticks);
            &&& order::opposite(after.state, other.state)
            &&& after.covariance == other.covariance
        }),
{
    let state = predicted(filter, control_input);
    let turned = predicted(mirrored, control_input.negated());
    let pull = gain(filter, predicted_covariance(filter, ticks));
    order::law_negatives_are_opposite(filter.state);
    order::law_negatives_are_opposite(control_input);
    order::law_negatives_are_opposite(measurement);
    order::law_opposite_products(filter.state, filter.a, mirrored.state, filter.a);
    order::law_opposite_sums(
        arithmetic::product(filter.a, filter.state),
        control_input,
        arithmetic::product(filter.a, mirrored.state),
        control_input.negated(),
    );
    order::law_opposite_products(state, filter.h, turned, filter.h);
    let seen = arithmetic::product(filter.h, state);
    let mirror_seen = arithmetic::product(filter.h, turned);
    order::law_opposite_differences(measurement, seen, measurement.negated(), mirror_seen);
    let off = arithmetic::difference(measurement, seen);
    let mirror_off = arithmetic::difference(measurement.negated(), mirror_seen);
    order::law_opposite_products(off, pull, mirror_off, pull);
    order::law_opposite_sums(
        state,
        arithmetic::product(pull, off),
        turned,
        arithmetic::product(pull, mirror_off),
    );
}

/// A measurement that is as unsure as the prediction counts as much: the state ends
/// half way between the two, and half as unsure as it was.
pub proof fn law_equals_meet_half_way(
    filter: KalmanFilter,
    measurement: Double,
    control_input: Double,
    ticks: Double,
)
    requires
        filter.a == one(),
        filter.h == one(),
        filter.state.finite(),
        filter.covariance.finite(),
        arithmetic::sum(filter.state, control_input).finite(),
        pid::fewest_ticks().at_most(ticks),
        ticks.at_most(pid::most_ticks()),
        filter.r == arithmetic::sum(filter.covariance, arithmetic::product(filter.q, ticks)),
        !filter.r.negative(),
        0 < filter.r.magnitude() < 0x7fe0_0000_0000_0000,
    ensures
        ({
            let after = updated(filter, measurement, control_input, ticks);
            let half = Double { bits: 0x3fe0_0000_0000_0000 };
            let expected = arithmetic::sum(filter.state, control_input);
            &&& after.state == arithmetic::sum(
                expected,
                arithmetic::product(half, arithmetic::difference(measurement, expected)),
            )
            &&& after.covariance == arithmetic::product(half, filter.r)
        }),
{
    let half = Double { bits: 0x3fe0_0000_0000_0000 };
    let grown = filter.r;
    let state = arithmetic::sum(filter.state, control_input);
    arithmetic::law_one_times_a_number(filter.state);
    arithmetic::law_one_times_a_number(filter.covariance);
    arithmetic::law_times_one(filter.covariance);
    assert(predicted(filter, control_input) == state);
    assert(predicted_covariance(filter, ticks) == grown);
    arithmetic::law_times_one(grown);
    arithmetic::law_one_times_a_number(grown);
    order::law_a_number_over_its_double(grown);
    order::law_half_of_one();
    assert(gain(filter, grown) == half);
    arithmetic::law_times_one(half);
    arithmetic::law_one_times_a_number(state);
}

/// How far a measurement pulls: a filter at zero that measures one moves to the share
/// that its own uncertainty has in the uncertainty of both, as closely as numbers can
/// tell.
pub proof fn law_the_pull_is_the_share_of_the_uncertainty(filter: KalmanFilter, ticks: Double)
    requires
        filter.a == one(),
        filter.h == one(),
        filter.state == (Double { bits: 0 }),
        filter.covariance.finite(),
        pid::fewest_ticks().at_most(ticks),
        ticks.at_most(pid::most_ticks()),
        arithmetic::sum(filter.covariance, arithmetic::product(filter.q, ticks)).finite(),
        (Double { bits: 0 }).at_most(
            arithmetic::sum(filter.covariance, arithmetic::product(filter.q, ticks)),
        ),
        (Double { bits: 0 }).less(filter.r),
        arithmetic::sum(
            arithmetic::sum(filter.covariance, arithmetic::product(filter.q, ticks)),
            filter.r,
        ).finite(),
    ensures
        ({
            let zero = Double { bits: 0 };
            let after = updated(filter, one(), zero, ticks);
            let own = arithmetic::sum(filter.covariance, arithmetic::product(filter.q, ticks));
            let both = arithmetic::sum(own, filter.r);
            &&& 0 <= after.state.units()
            &&& 0 < both.units()
            &&& accuracy::is_close(
                (own.units() * pow2(1074)) as nat,
                both.units() as nat,
                after.state.units() as nat,
            )
        }),
{
    let zero = Double { bits: 0 };
    let own = arithmetic::sum(filter.covariance, arithmetic::product(filter.q, ticks));
    let both = arithmetic::sum(own, filter.r);
    arithmetic::law_one_times_a_number(zero);
    arithmetic::law_one_times_a_number(filter.covariance);
    arithmetic::law_times_one(filter.covariance);
    arithmetic::law_zero_adds_nothing(zero, zero);
    assert(predicted(filter, zero) == zero);
    assert(predicted_covariance(filter, ticks) == own);
    lemma_gain(filter, own);
    let pull = gain(filter, own);
    lemma_one_less_nothing();
    assert(arithmetic::difference(one(), zero) == one());
    arithmetic::law_times_one(pull);
    arithmetic::law_terms_may_change_places(zero, pull);
    arithmetic::law_zero_adds_nothing(pull, zero);
    let moved = arithmetic::sum(zero, pull);
    assert(moved.rank() == pull.rank());
    assert(double::double_units(0) == 0);
    // Both together stand above zero.
    arithmetic::law_sums_are_numbers(zero, filter.r);
    order::law_sums_keep_order(zero, filter.r, own, filter.r);
    if filter.r.finite() {
        arithmetic::law_zero_adds_nothing(filter.r, zero);
        arithmetic::law_terms_may_change_places(filter.r, zero);
    }
    double::law_larger_patterns_are_larger(0, both.magnitude());
    let x = double::double_units(own.magnitude());
    let y = double::double_units(both.magnitude());
    arithmetic::law_there_is_a_nearest(x * pow2(1074), y);
    accuracy::law_results_are_close(x * pow2(1074), y);
    assert(pull.magnitude() == arithmetic::nearest(x * pow2(1074), y));
    if own.negative() {
        assert(own.units() == 0);
    }
}

/// A clock that stands still, runs backwards or has slept counts as one that is a
/// little off: no more than ten ticks are made up for at once, and no fewer than a
/// hundredth of one.
pub proof fn law_odd_clocks_are_held(
    filter: KalmanFilter,
    measurement: Double,
    control_input: Double,
    ticks: Double,
)
    ensures
        (Double { bits: 0x4024_0000_0000_0000 }).at_most(ticks) ==> updated(
            filter,
            measurement,
            control_input,
            ticks,
        ) == updated(filter, measurement, control_input, Double { bits: 0x4024_0000_0000_0000 }),
        ticks.at_most(Double { bits: 0x3f84_7ae1_47ae_147b }) ==> updated(
            filter,
            measurement,
            control_input,
            ticks,
        ) == updated(filter, measurement, control_input, Double { bits: 0x3f84_7ae1_47ae_147b }),
{
    let most = Double { bits: 0x4024_0000_0000_0000 };
    if most.at_most(ticks) {
        assert(predicted_covariance(filter, ticks) == predicted_covariance(filter, most));
    }
}

} // verus!

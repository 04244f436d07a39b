//! The PID controller of one axis.
use crate::accuracy;
use crate::arithmetic;
use crate::double::Double;
use crate::order;
use vstd::arithmetic::power2::*;
use vstd::prelude::*;

verus! {

/// 0.1: the tick that the gains are defined against, in seconds. `Ki` and `Kd`
/// are both per tick.
pub const NOMINAL_TICK_SECONDS: u64 = 0x3fb9_9999_9999_999a;

/// 0.01 and 10: a stalled or backwards clock must not divide the derivative by
/// zero or put an unbounded step into the integral.
pub const FEWEST_TICKS: u64 = 0x3f84_7ae1_47ae_147b;

pub const MOST_TICKS: u64 = 0x4024_0000_0000_0000;

#[derive(Debug, Clone, Copy, PartialEq, Eq, Structural)]
pub struct PidController {
    pub kp: Double,
    pub ki: Double,
    pub kd: Double,
    pub max_output: Double,
    pub min_output: Double,
    pub prev_error: Double,
    pub integral: Double,
}

/// `value` held between a pair of limits, the upper one tested first.
pub open spec fn limited(value: Double, min: Double, max: Double) -> Double {
    if max.less(value) {
        max
    } else if value.less(min) {
        min
    } else {
        value
    }
}

pub open spec fn fewest_ticks() -> Double {
    Double { bits: FEWEST_TICKS }
}

pub open spec fn most_ticks() -> Double {
    Double { bits: MOST_TICKS }
}

/// How many nominal ticks `dt` seconds are, between 0.01 and 10.
pub open spec fn ticks_in(dt: Double) -> Double {
    arithmetic::quotient(dt, Double { bits: NOMINAL_TICK_SECONDS }).clamped(
        fewest_ticks(),
        most_ticks(),
    )
}

/// The error summed up over another `ticks` ticks.
pub open spec fn summed(pid: PidController, error: Double, ticks: Double) -> Double {
    arithmetic::sum(pid.integral, arithmetic::product(error, ticks))
}

/// What a limit on the integral term leaves of the integral: the limit itself,
/// divided by the gain where there is one.
pub open spec fn wound_down(limit: Double, ki: Double) -> Double {
    arithmetic::quotient(
        limit,
        if ki.equals(Double { bits: 0 }) {
            Double { bits: 0x3ff0_0000_0000_0000 }
        } else {
            ki
        },
    )
}

/// The integral that is kept: wound down where its term lies past a limit.
pub open spec fn kept_integral(pid: PidController, integral: Double) -> Double {
    let term = arithmetic::product(pid.ki, integral);
    if pid.max_output.less(term) {
        wound_down(pid.max_output, pid.ki)
    } else if term.less(pid.min_output) {
        wound_down(pid.min_output, pid.ki)
    } else {
        integral
    }
}

/// The output: the proportional term, the integral term held inside the limits,
/// and the derivative term, all of it held inside the limits.
pub open spec fn output_of(pid: PidController, error: Double, ticks: Double) -> Double {
    let p_out = arithmetic::product(pid.kp, error);
    let i_out = limited(
        arithmetic::product(pid.ki, summed(pid, error, ticks)),
        pid.min_output,
        pid.max_output,
    );
    let d_out = arithmetic::quotient(
        arithmetic::product(pid.kd, arithmetic::difference(error, pid.prev_error)),
        ticks,
    );
    limited(
        arithmetic::sum(arithmetic::sum(p_out, i_out), d_out),
        pid.min_output,
        pid.max_output,
    )
}

/// One step: the controller afterwards and its output.
pub open spec fn step(pid: PidController, setpoint: Double, measurement: Double, dt: Double) -> (
    PidController,
    Double,
) {
    let ticks = ticks_in(dt);
    let error = arithmetic::difference(setpoint, measurement);
    (
        PidController {
            integral: kept_integral(pid, summed(pid, error, ticks)),
            prev_error: error,
            ..pid
        },
        output_of(pid, error, ticks),
    )
}

/// A controller that has been frozen: what it has learned stays.
pub open spec fn held(pid: PidController) -> PidController {
    PidController { prev_error: Double { bits: 0 }, ..pid }
}

impl Default for PidController {
    fn default() -> (result: Self)
        ensures
            result == (PidController {
                kp: Double { bits: 0 },
                ki: Double { bits: 0 },
                kd: Double { bits: 0 },
                max_output: Double { bits: 0x4059_0000_0000_0000 },
                min_output: Double { bits: 0xc059_0000_0000_0000 },
                prev_error: Double { bits: 0 },
                integral: Double { bits: 0 },
            }),
    {
        PidController {
            kp: Double::zero(),
            ki: Double::zero(),
            kd: Double::zero(),
            max_output: Double::from_bits(0x4059_0000_0000_0000),
            min_output: Double::from_bits(0xc059_0000_0000_0000),
            prev_error: Double::zero(),
            integral: Double::zero(),
        }
    }
}

fn limit(value: Double, min: Double, max: Double) -> (result: Double)
    ensures
        result == limited(value, min, max),
{
    if max.lt(value) {
        max
    } else if value.lt(min) {
        min
    } else {
        value
    }
}

fn wind_down(limit: Double, ki: Double) -> (result: Double)
    ensures
        result == wound_down(limit, ki),
{
    if ki.same(Double::zero()) {
        limit.over(Double::from_bits(0x3ff0_0000_0000_0000))
    } else {
        limit.over(ki)
    }
}

impl PidController {
    /// One step against the nominal tick.
    pub fn calculate(&mut self, setpoint: Double, measurement: Double) -> (output: Double)
        ensures
            (*final(self), output) == step(
                *old(self),
                setpoint,
                measurement,
                Double { bits: NOMINAL_TICK_SECONDS },
            ),
    {
        self.calculate_dt(setpoint, measurement, Double::from_bits(NOMINAL_TICK_SECONDS))
    }

    /// One step over an actual elapsed `dt` in seconds.
    ///
    /// The integral and derivative terms are scaled by how many nominal ticks
    /// `dt` really was, so a late tick contributes proportionally more integral
    /// and proportionally less derivative.
    pub fn calculate_dt(&mut self, setpoint: Double, measurement: Double, dt: Double) -> (output:
        Double)
        ensures
            (*final(self), output) == step(*old(self), setpoint, measurement, dt),
    {
        let ticks: Double = dt.over(Double::from_bits(NOMINAL_TICK_SECONDS)).clamp(
            Double::from_bits(FEWEST_TICKS),
            Double::from_bits(MOST_TICKS),
        );
        let error: Double = setpoint.minus(measurement);
        let p_out: Double = self.kp.times(error);
        self.integral = self.integral.plus(error.times(ticks));
        let mut i_out: Double = self.ki.times(self.integral);
        if self.max_output.lt(i_out) {
            i_out = self.max_output;
            self.integral = wind_down(self.max_output, self.ki);
        } else if i_out.lt(self.min_output) {
            i_out = self.min_output;
            self.integral = wind_down(self.min_output, self.ki);
        }
        let d_out: Double = self.kd.times(error.minus(self.prev_error)).over(ticks);
        let output: Double = limit(
            p_out.plus(i_out).plus(d_out),
            self.min_output,
            self.max_output,
        );
        self.prev_error = error;
        output
    }

    /// Clears the integral and derivative history. Only for a deliberate stop:
    /// see [`Self::hold`] for the watchdog.
    pub fn reset(&mut self)
        ensures
            *final(self) == (PidController {
                prev_error: Double { bits: 0 },
                integral: Double { bits: 0 },
                ..*old(self)
            }),
    {
        self.prev_error = Double::zero();
        self.integral = Double::zero();
    }

    /// Freezes the loop without discarding what it has learned.
    ///
    /// The coils are holding a standing current that lives almost entirely in
    /// the integral; clearing it on a short dropout would throw a full-scale
    /// transient through the drivers on the way back. Only the last error is
    /// dropped, so that the first tick back sees no derivative kick.
    pub fn hold(&mut self)
        ensures
            *final(self) == held(*old(self)),
    {
        self.prev_error = Double::zero();
    }

    /// The integral, in error units times ticks.
    pub fn integral(&self) -> (result: Double)
        ensures
            result == self.integral,
    {
        self.integral
    }

    /// Takes over gains and limits; what the controller has learned stays.
    pub fn apply_settings(&mut self, settings: &crate::config::PidSettings)
        ensures
            *final(self) == (PidController {
                kp: settings.kp,
                ki: settings.ki,
                kd: settings.kd,
                min_output: settings.min_output,
                max_output: settings.max_output,
                ..*old(self)
            }),
    {
        self.kp = settings.kp;
        self.ki = settings.ki;
        self.kd = settings.kd;
        self.min_output = settings.min_output;
        self.max_output = settings.max_output;
    }
}

/// Whatever comes in, an output is no number at all or lies inside the limits,
/// as long as those leave room.
pub proof fn law_outputs_stay_inside_the_limits(
    pid: PidController,
    setpoint: Double,
    measurement: Double,
    dt: Double,
)
    requires
        pid.min_output.at_most(pid.max_output),
    ensures
        ({
            let output = step(pid, setpoint, measurement, dt).1;
            output.nan() || (pid.min_output.at_most(output) && output.at_most(pid.max_output))
        }),
{
}

/// The number of ticks is never zero and never unbounded, whatever the clock
/// says, as long as it says a number.
pub proof fn law_ticks_are_bounded(dt: Double)
    requires
        !dt.nan(),
    ensures
        fewest_ticks().at_most(ticks_in(dt)),
        ticks_in(dt).at_most(most_ticks()),
{
    arithmetic::law_quotients_are_numbers(dt, Double { bits: NOMINAL_TICK_SECONDS });
}

/// One step of a loop that counts ticks and knows no clock.
pub open spec fn untimed_step(pid: PidController, setpoint: Double, measurement: Double) -> (
    PidController,
    Double,
) {
    let error = arithmetic::difference(setpoint, measurement);
    let integral = arithmetic::sum(pid.integral, error);
    let p_out = arithmetic::product(pid.kp, error);
    let i_out = limited(
        arithmetic::product(pid.ki, integral),
        pid.min_output,
        pid.max_output,
    );
    let d_out = arithmetic::product(pid.kd, arithmetic::difference(error, pid.prev_error));
    (
        PidController { integral: kept_integral(pid, integral), prev_error: error, ..pid },
        limited(
            arithmetic::sum(arithmetic::sum(p_out, i_out), d_out),
            pid.min_output,
            pid.max_output,
        ),
    )
}

/// The gains keep their meaning: a step over a nominal tick is, to the last bit,
/// a step of the loop that knows no clock.
pub proof fn law_a_nominal_tick_is_an_untimed_step(
    pid: PidController,
    setpoint: Double,
    measurement: Double,
)
    ensures
        step(pid, setpoint, measurement, Double { bits: NOMINAL_TICK_SECONDS }) == untimed_step(
            pid,
            setpoint,
            measurement,
        ),
{
    let one = Double { bits: 0x3ff0_0000_0000_0000 };
    let tick = Double { bits: NOMINAL_TICK_SECONDS };
    arithmetic::law_a_number_over_itself(tick);
    assert(ticks_in(tick) == one);
    let error = arithmetic::difference(setpoint, measurement);
    arithmetic::law_sums_are_numbers(setpoint, measurement.negated());
    arithmetic::law_times_one(error);
    let change = arithmetic::difference(error, pid.prev_error);
    arithmetic::law_products_are_numbers(pid.kd, change);
    arithmetic::law_over_one(arithmetic::product(pid.kd, change));
}

/// A pause costs nothing: on the first tick after one, a reading on the setpoint
/// puts out what the integral alone stands for.
pub proof fn law_a_pause_keeps_the_standing_output(pid: PidController, setpoint: Double, dt: Double)
    requires
        setpoint.finite(),
        !dt.nan(),
        pid.kp.finite(),
        pid.ki.finite(),
        pid.kd.finite(),
        pid.integral.finite(),
        pid.min_output.finite(),
        pid.max_output.finite(),
        pid.min_output.at_most(pid.max_output),
    ensures
        held(pid).integral == pid.integral,
        step(held(pid), setpoint, setpoint, dt).1.equals(
            limited(arithmetic::product(pid.ki, pid.integral), pid.min_output, pid.max_output),
        ),
{
    let zero = Double { bits: 0 };
    let paused = held(pid);
    let ticks = ticks_in(dt);
    law_ticks_are_bounded(dt);
    arithmetic::law_a_number_less_itself_is_zero(setpoint);
    arithmetic::law_a_number_less_itself_is_zero(zero);
    arithmetic::law_zero_times_a_number(ticks, zero);
    arithmetic::law_factors_may_change_places(zero, ticks);
    arithmetic::law_zero_adds_nothing(pid.integral, arithmetic::product(zero, ticks));
    let summed = summed(paused, zero, ticks);
    let term = arithmetic::product(pid.ki, pid.integral);
    arithmetic::law_products_are_numbers(pid.ki, pid.integral);
    let i_out = limited(arithmetic::product(pid.ki, summed), pid.min_output, pid.max_output);
    let standing = limited(term, pid.min_output, pid.max_output);
    if pid.integral.magnitude() == 0 {
        arithmetic::law_zero_times_a_number(pid.ki, pid.integral);
        arithmetic::law_zero_times_a_number(pid.ki, summed);
    }
    assert(i_out.equals(standing));
    arithmetic::law_zero_times_a_number(pid.kp, zero);
    arithmetic::law_zero_times_a_number(pid.kd, zero);
    let p_out = arithmetic::product(pid.kp, zero);
    let d_out = arithmetic::quotient(arithmetic::product(pid.kd, zero), ticks);
    arithmetic::law_zero_over_a_number(arithmetic::product(pid.kd, zero), ticks);
    assert(i_out.finite());
    arithmetic::law_terms_may_change_places(p_out, i_out);
    arithmetic::law_zero_adds_nothing(i_out, p_out);
    let first = arithmetic::sum(p_out, i_out);
    assert(first.equals(i_out));
    assert(first.finite());
    arithmetic::law_zero_adds_nothing(first, d_out);
}

/// The limits hold both sides alike.
proof fn lemma_mirrored_limits(value: Double, other: Double, min: Double, max: Double)
    requires
        order::opposite(value, other),
        min.at_most(max),
    ensures
        order::opposite(
            limited(value, min, max),
            limited(other, max.negated(), min.negated()),
        ),
{
}

/// The controller has no favourite side. With everything turned round that has a
/// side, the setpoint, the measurement, both limits and what the controller
/// remembers, the output and what it remembers afterwards are turned round too.
pub proof fn law_both_sides_are_steered_alike(
    pid: PidController,
    mirrored: PidController,
    setpoint: Double,
    measurement: Double,
    dt: Double,
)
    requires
        pid.min_output.at_most(pid.max_output),
        mirrored == (PidController {
            max_output: pid.min_output.negated(),
            min_output: pid.max_output.negated(),
            prev_error: pid.prev_error.negated(),
            integral: pid.integral.negated(),
            ..pid
        }),
    ensures
        ({
            let after = step(pid, setpoint, measurement, dt);
            let other = step(mirrored, setpoint.negated(), measurement.negated(), dt);
            &&& order::opposite(after.1, other.1)
            &&& order::opposite(after.0.integral, other.0.integral)
            &&& order::opposite(after.0.prev_error, other.0.prev_error)
        }),
{
    let ticks = ticks_in(dt);
    assert(ticks.magnitude() > 0);
    let error = arithmetic::difference(setpoint, measurement);
    let turned = arithmetic::difference(setpoint.negated(), measurement.negated());
    order::law_negatives_are_opposite(setpoint);
    order::law_negatives_are_opposite(measurement);
    order::law_opposite_differences(
        setpoint,
        measurement,
        setpoint.negated(),
        measurement.negated(),
    );
    order::law_opposite_products(error, pid.kp, turned, pid.kp);
    order::law_opposite_products(error, ticks, turned, ticks);
    let integral = summed(pid, error, ticks);
    let turned_integral = summed(mirrored, turned, ticks);
    order::law_opposite_sums(
        pid.integral,
        arithmetic::product(error, ticks),
        mirrored.integral,
        arithmetic::product(turned, ticks),
    );
    order::law_opposite_products(integral, pid.ki, turned_integral, pid.ki);
    let term = arithmetic::product(pid.ki, integral);
    let turned_term = arithmetic::product(pid.ki, turned_integral);
    lemma_mirrored_limits(term, turned_term, pid.min_output, pid.max_output);
    let divisor = if pid.ki.equals(Double { bits: 0 }) {
        Double { bits: 0x3ff0_0000_0000_0000 }
    } else {
        pid.ki
    };
    assert(divisor.magnitude() > 0);
    order::law_opposite_quotients(pid.max_output, divisor, mirrored.min_output, divisor);
    order::law_opposite_quotients(pid.min_output, divisor, mirrored.max_output, divisor);
    order::law_opposite_differences(error, pid.prev_error, turned, mirrored.prev_error);
    let change = arithmetic::difference(error, pid.prev_error);
    let turned_change = arithmetic::difference(turned, mirrored.prev_error);
    order::law_opposite_products(change, pid.kd, turned_change, pid.kd);
    order::law_opposite_quotients(
        arithmetic::product(pid.kd, change),
        ticks,
        arithmetic::product(pid.kd, turned_change),
        ticks,
    );
    let p_out = arithmetic::product(pid.kp, error);
    let turned_p_out = arithmetic::product(pid.kp, turned);
    let i_out = limited(term, pid.min_output, pid.max_output);
    let turned_i_out = limited(turned_term, mirrored.min_output, mirrored.max_output);
    order::law_opposite_sums(p_out, i_out, turned_p_out, turned_i_out);
    let d_out = arithmetic::quotient(arithmetic::product(pid.kd, change), ticks);
    let turned_d_out = arithmetic::quotient(arithmetic::product(pid.kd, turned_change), ticks);
    let first = arithmetic::sum(p_out, i_out);
    let turned_first = arithmetic::sum(turned_p_out, turned_i_out);
    order::law_opposite_sums(first, d_out, turned_first, turned_d_out);
    lemma_mirrored_limits(
        arithmetic::sum(first, d_out),
        arithmetic::sum(turned_first, turned_d_out),
        pid.min_output,
        pid.max_output,
    );
}

/// A controller of which only the integral term is left.
pub open spec fn integrating(pid: PidController) -> PidController {
    PidController { kp: Double { bits: 0 }, kd: Double { bits: 0 }, ..pid }
}

/// What a controller with nothing but its integral term puts out.
proof fn lemma_integral_alone(
    pid: PidController,
    setpoint: Double,
    measurement: Double,
    dt: Double,
)
    requires
        setpoint.finite(),
        measurement.finite(),
        arithmetic::difference(setpoint, measurement).finite(),
        pid.prev_error.finite(),
        arithmetic::difference(
            arithmetic::difference(setpoint, measurement),
            pid.prev_error,
        ).finite(),
        !dt.nan(),
        pid.min_output.finite(),
        pid.max_output.finite(),
        pid.min_output.at_most(pid.max_output),
        !arithmetic::product(
            pid.ki,
            summed(pid, arithmetic::difference(setpoint, measurement), ticks_in(dt)),
        ).nan(),
    ensures
        step(integrating(pid), setpoint, measurement, dt).1.equals(
            limited(
                arithmetic::product(
                    pid.ki,
                    summed(pid, arithmetic::difference(setpoint, measurement), ticks_in(dt)),
                ),
                pid.min_output,
                pid.max_output,
            ),
        ),
{
    let zero = Double { bits: 0 };
    let ticks = ticks_in(dt);
    law_ticks_are_bounded(dt);
    let error = arithmetic::difference(setpoint, measurement);
    let change = arithmetic::difference(error, pid.prev_error);
    arithmetic::law_zero_times_a_number(error, zero);
    arithmetic::law_factors_may_change_places(error, zero);
    arithmetic::law_zero_times_a_number(change, zero);
    arithmetic::law_factors_may_change_places(change, zero);
    let p_out = arithmetic::product(zero, error);
    let still = arithmetic::product(zero, change);
    arithmetic::law_zero_over_a_number(still, ticks);
    let i_out = limited(
        arithmetic::product(pid.ki, summed(pid, error, ticks)),
        pid.min_output,
        pid.max_output,
    );
    assert(i_out.finite());
    arithmetic::law_terms_may_change_places(p_out, i_out);
    arithmetic::law_zero_adds_nothing(i_out, p_out);
    let first = arithmetic::sum(p_out, i_out);
    arithmetic::law_zero_adds_nothing(first, arithmetic::quotient(still, ticks));
}

/// What is kept stands for what is put out. At either limit as well as between
/// them, the integral that a step leaves behind, times its gain, is what the
/// controller puts out for its integral term alone, as closely as numbers can tell:
/// the integral never runs on behind a limit that holds the output.
pub proof fn law_the_integral_kept_stands_for_its_output(
    pid: PidController,
    setpoint: Double,
    measurement: Double,
    dt: Double,
)
    requires
        setpoint.finite(),
        measurement.finite(),
        arithmetic::difference(setpoint, measurement).finite(),
        pid.prev_error.finite(),
        arithmetic::difference(
            arithmetic::difference(setpoint, measurement),
            pid.prev_error,
        ).finite(),
        !dt.nan(),
        pid.ki.finite(),
        pid.ki.magnitude() > 0,
        pid.min_output.finite(),
        pid.max_output.finite(),
        pid.min_output.at_most(pid.max_output),
        step(pid, setpoint, measurement, dt).0.integral.finite(),
    ensures
        ({
            let kept = step(pid, setpoint, measurement, dt).0.integral.units();
            let output = step(integrating(pid), setpoint, measurement, dt).1.units();
            let gain = pid.ki.units();
            let half: int = 0x10_0000_0000_0000;
            2 * half * accuracy::apart(gain * kept, output * pow2(1074)) <= (accuracy::apart(output, 0) + half) * pow2(
                1074,
            ) + (accuracy::apart(kept, 0) + half) * accuracy::apart(gain, 0)
        }),
{
    let error = arithmetic::difference(setpoint, measurement);
    let ticks = ticks_in(dt);
    let integral = summed(pid, error, ticks);
    let term = arithmetic::product(pid.ki, integral);
    let kept = step(pid, setpoint, measurement, dt).0.integral;
    arithmetic::law_products_are_numbers(pid.ki, integral);
    arithmetic::law_sums_are_numbers(pid.integral, arithmetic::product(error, ticks));
    arithmetic::law_products_are_numbers(error, ticks);
    if pid.integral.nan() {
        assert(integral.nan());
    }
    law_ticks_are_bounded(dt);
    assert(!integral.nan());
    assert(!term.nan());
    lemma_integral_alone(pid, setpoint, measurement, dt);
    let output = step(integrating(pid), setpoint, measurement, dt).1;
    let held = limited(term, pid.min_output, pid.max_output);
    order::law_units_follow_rank(output, held);
    if pid.max_output.less(term) || term.less(pid.min_output) {
        assert(kept == arithmetic::quotient(held, pid.ki));
        accuracy::law_quotients_are_close(held, pid.ki);
    } else {
        assert(kept == integral);
        accuracy::law_products_are_close(pid.ki, integral);
    }
}

/// The integral knows of no gain but its own.
pub proof fn law_other_gains_leave_the_integral_alone(
    pid: PidController,
    other: PidController,
    setpoint: Double,
    measurement: Double,
    dt: Double,
)
    requires
        other == (PidController {
            kp: other.kp,
            kd: other.kd,
            prev_error: other.prev_error,
            ..pid
        }),
    ensures
        step(pid, setpoint, measurement, dt).0.integral == step(
            other,
            setpoint,
            measurement,
            dt,
        ).0.integral,
{
}

/// A controller of which only the proportional term is left.
pub open spec fn proportional(pid: PidController) -> PidController {
    PidController { ki: Double { bits: 0 }, kd: Double { bits: 0 }, ..pid }
}

/// A controller of which only the derivative term is left.
pub open spec fn derivative(pid: PidController) -> PidController {
    PidController { kp: Double { bits: 0 }, ki: Double { bits: 0 }, ..pid }
}

/// That the numbers of a step stay inside the range of numbers.
pub open spec fn calculable(
    pid: PidController,
    setpoint: Double,
    measurement: Double,
    dt: Double,
) -> bool {
    let error = arithmetic::difference(setpoint, measurement);
    &&& !dt.nan()
    &&& pid.kp.finite() && pid.ki.finite() && pid.kd.finite()
    &&& pid.integral.finite()
    &&& pid.min_output.finite() && pid.max_output.finite()
    &&& error.finite()
    &&& arithmetic::product(pid.kp, error).finite()
    &&& summed(pid, error, ticks_in(dt)).finite()
    &&& arithmetic::difference(error, pid.prev_error).finite()
    &&& arithmetic::product(pid.kd, arithmetic::difference(error, pid.prev_error)).finite()
    &&& arithmetic::quotient(
        arithmetic::product(pid.kd, arithmetic::difference(error, pid.prev_error)),
        ticks_in(dt),
    ).finite()
}

/// That an output lies clear of both limits.
pub open spec fn unheld(pid: PidController, output: Double) -> bool {
    pid.min_output.less(output) && output.less(pid.max_output)
}

/// Zero with zero added, twice.
proof fn lemma_alone(first: Double, second: Double, third: Double)
    requires
        first.finite(),
        second.finite(),
        third.finite(),
    ensures
        second.magnitude() == 0 && third.magnitude() == 0 ==> arithmetic::sum(
            arithmetic::sum(first, second),
            third,
        ).equals(first),
        first.magnitude() == 0 && second.magnitude() == 0 ==> arithmetic::sum(
            arithmetic::sum(first, second),
            third,
        ).equals(third),
{
    let both = arithmetic::sum(first, second);
    if second.magnitude() == 0 {
        arithmetic::law_zero_adds_nothing(first, second);
        if third.magnitude() == 0 {
            arithmetic::law_zero_adds_nothing(both, third);
        }
        if first.magnitude() == 0 {
            arithmetic::law_terms_may_change_places(both, third);
            arithmetic::law_zero_adds_nothing(third, both);
        }
    }
}

/// What the controllers with a single term put out, where the limits allow it.
proof fn lemma_single_terms(pid: PidController, setpoint: Double, measurement: Double, dt: Double)
    requires
        calculable(pid, setpoint, measurement, dt),
        pid.min_output.at_most(Double { bits: 0 }),
        (Double { bits: 0 }).at_most(pid.max_output),
    ensures
        ({
            let ticks = ticks_in(dt);
            let error = arithmetic::difference(setpoint, measurement);
            let change = arithmetic::difference(error, pid.prev_error);
            let p_out = arithmetic::product(pid.kp, error);
            let d_out = arithmetic::quotient(arithmetic::product(pid.kd, change), ticks);
            &&& ticks.magnitude() > 0
            &&& ticks.finite()
            &&& !ticks.negative()
            &&& step(proportional(pid), setpoint, measurement, dt).1.equals(
                limited(p_out, pid.min_output, pid.max_output),
            )
            &&& step(derivative(pid), setpoint, measurement, dt).1.equals(
                limited(d_out, pid.min_output, pid.max_output),
            )
        }),
{
    let zero = Double { bits: 0 };
    let ticks = ticks_in(dt);
    law_ticks_are_bounded(dt);
    let error = arithmetic::difference(setpoint, measurement);
    let change = arithmetic::difference(error, pid.prev_error);
    let integral = summed(pid, error, ticks);
    assert(summed(proportional(pid), error, ticks) == integral);
    assert(summed(derivative(pid), error, ticks) == integral);
    arithmetic::law_zero_times_a_number(error, zero);
    arithmetic::law_factors_may_change_places(error, zero);
    arithmetic::law_zero_times_a_number(change, zero);
    arithmetic::law_factors_may_change_places(change, zero);
    arithmetic::law_zero_times_a_number(integral, zero);
    arithmetic::law_factors_may_change_places(integral, zero);
    let still = arithmetic::product(zero, change);
    arithmetic::law_zero_over_a_number(still, ticks);
    let none = limited(arithmetic::product(zero, integral), pid.min_output, pid.max_output);
    assert(none.magnitude() == 0);
    let p_out = arithmetic::product(pid.kp, error);
    let d_out = arithmetic::quotient(arithmetic::product(pid.kd, change), ticks);
    lemma_alone(p_out, none, arithmetic::quotient(still, ticks));
    lemma_alone(arithmetic::product(zero, error), none, d_out);
}

/// The terms of a controller add up: what it puts out is what three controllers put
/// out together that have one of its gains each, held inside the limits.
pub proof fn law_the_terms_add_up(
    pid: PidController,
    setpoint: Double,
    measurement: Double,
    dt: Double,
)
    requires
        setpoint.finite(),
        measurement.finite(),
        pid.prev_error.finite(),
        calculable(pid, setpoint, measurement, dt),
        pid.min_output.at_most(Double { bits: 0 }),
        (Double { bits: 0 }).at_most(pid.max_output),
        unheld(pid, step(proportional(pid), setpoint, measurement, dt).1),
        unheld(pid, step(derivative(pid), setpoint, measurement, dt).1),
    ensures
        ({
            let whole = step(pid, setpoint, measurement, dt).1;
            let p_out = step(proportional(pid), setpoint, measurement, dt).1;
            let i_out = step(integrating(pid), setpoint, measurement, dt).1;
            let d_out = step(derivative(pid), setpoint, measurement, dt).1;
            order::alike(
                whole,
                limited(
                    arithmetic::sum(arithmetic::sum(p_out, i_out), d_out),
                    pid.min_output,
                    pid.max_output,
                ),
            )
        }),
{
    let ticks = ticks_in(dt);
    let error = arithmetic::difference(setpoint, measurement);
    let change = arithmetic::difference(error, pid.prev_error);
    lemma_single_terms(pid, setpoint, measurement, dt);
    arithmetic::law_products_are_numbers(pid.ki, summed(pid, error, ticks));
    lemma_integral_alone(pid, setpoint, measurement, dt);
    let p_out = step(proportional(pid), setpoint, measurement, dt).1;
    let i_out = step(integrating(pid), setpoint, measurement, dt).1;
    let d_out = step(derivative(pid), setpoint, measurement, dt).1;
    let p = arithmetic::product(pid.kp, error);
    let i = limited(
        arithmetic::product(pid.ki, summed(pid, error, ticks)),
        pid.min_output,
        pid.max_output,
    );
    let d = arithmetic::quotient(arithmetic::product(pid.kd, change), ticks);
    assert(p.equals(p_out));
    assert(i.equals(i_out));
    assert(d.equals(d_out));
    order::law_alike_sums(p, i, p_out, i_out);
    order::law_alike_sums(
        arithmetic::sum(p, i),
        d,
        arithmetic::sum(p_out, i_out),
        d_out,
    );
}

/// The proportional term is the gain times what the setpoint lies above the
/// measurement, as closely as numbers can tell.
pub proof fn law_the_proportional_term_follows_the_error(
    pid: PidController,
    setpoint: Double,
    measurement: Double,
    dt: Double,
)
    requires
        calculable(pid, setpoint, measurement, dt),
        pid.min_output.at_most(Double { bits: 0 }),
        (Double { bits: 0 }).at_most(pid.max_output),
        unheld(pid, step(proportional(pid), setpoint, measurement, dt).1),
    ensures
        ({
            let output = step(proportional(pid), setpoint, measurement, dt).1.units();
            let error = arithmetic::difference(setpoint, measurement).units();
            let half: int = 0x10_0000_0000_0000;
            2 * half * accuracy::apart(pid.kp.units() * error, output * pow2(1074)) <= (
            accuracy::apart(output, 0) + half) * pow2(1074)
        }),
{
    let error = arithmetic::difference(setpoint, measurement);
    lemma_single_terms(pid, setpoint, measurement, dt);
    let output = step(proportional(pid), setpoint, measurement, dt).1;
    order::law_units_follow_rank(output, arithmetic::product(pid.kp, error));
    accuracy::law_products_are_close(pid.kp, error);
}

/// The derivative term is a rate: times the ticks that went by, it is the gain times
/// how far the error moved, as closely as numbers can tell. A late tick kicks less.
pub proof fn law_the_derivative_term_is_a_rate(
    pid: PidController,
    setpoint: Double,
    measurement: Double,
    dt: Double,
)
    requires
        calculable(pid, setpoint, measurement, dt),
        pid.min_output.at_most(Double { bits: 0 }),
        (Double { bits: 0 }).at_most(pid.max_output),
        unheld(pid, step(derivative(pid), setpoint, measurement, dt).1),
    ensures
        ({
            let output = step(derivative(pid), setpoint, measurement, dt).1.units();
            let error = arithmetic::difference(setpoint, measurement);
            let change = arithmetic::product(
                pid.kd,
                arithmetic::difference(error, pid.prev_error),
            ).units();
            let ticks = ticks_in(dt).units();
            let half: int = 0x10_0000_0000_0000;
            2 * half * accuracy::apart(ticks * output, change * pow2(1074)) <= (accuracy::apart(
                output,
                0,
            ) + half) * ticks
        }),
{
    let error = arithmetic::difference(setpoint, measurement);
    let change = arithmetic::difference(error, pid.prev_error);
    let ticks = ticks_in(dt);
    lemma_single_terms(pid, setpoint, measurement, dt);
    let output = step(derivative(pid), setpoint, measurement, dt).1;
    let term = arithmetic::product(pid.kd, change);
    order::law_units_follow_rank(output, arithmetic::quotient(term, ticks));
    order::law_units_follow_rank(ticks, ticks);
    accuracy::law_quotients_are_close(term, ticks);
}

/// The integral gathers the error times the ticks that went by, as closely as numbers
/// can tell: a late tick counts for more.
pub proof fn law_the_integral_gathers_the_error(
    pid: PidController,
    setpoint: Double,
    measurement: Double,
    dt: Double,
)
    requires
        setpoint.finite(),
        measurement.finite(),
        pid.prev_error.finite(),
        calculable(pid, setpoint, measurement, dt),
        pid.integral == (Double { bits: 0 }),
        pid.min_output.at_most(pid.max_output),
        unheld(pid, step(integrating(pid), setpoint, measurement, dt).1),
    ensures
        ({
            let gathered = step(pid, setpoint, measurement, dt).0.integral.units();
            let error = arithmetic::difference(setpoint, measurement).units();
            let ticks = ticks_in(dt).units();
            let half: int = 0x10_0000_0000_0000;
            2 * half * accuracy::apart(error * ticks, gathered * pow2(1074)) <= (accuracy::apart(
                gathered,
                0,
            ) + half) * pow2(1074)
        }),
{
    let zero = Double { bits: 0 };
    let error = arithmetic::difference(setpoint, measurement);
    let ticks = ticks_in(dt);
    law_ticks_are_bounded(dt);
    let share = arithmetic::product(error, ticks);
    arithmetic::law_products_are_numbers(error, ticks);
    arithmetic::law_terms_may_change_places(zero, share);
    if share.finite() {
        arithmetic::law_zero_adds_nothing(share, zero);
    }
    arithmetic::law_products_are_numbers(pid.ki, summed(pid, error, ticks));
    lemma_integral_alone(pid, setpoint, measurement, dt);
    let gathered = step(pid, setpoint, measurement, dt).0.integral;
    assert(gathered == summed(pid, error, ticks));
    order::law_units_follow_rank(gathered, share);
    accuracy::law_products_are_close(error, ticks);
}

/// A clock is read in ticks of a tenth of a second, as closely as numbers can tell,
/// as long as it says no less than a hundredth of a tick and no more than ten.
pub proof fn law_ticks_are_tenths_of_a_second(dt: Double)
    requires
        dt.finite(),
        fewest_ticks().less(ticks_in(dt)),
        ticks_in(dt).less(most_ticks()),
    ensures
        ({
            let ticks = ticks_in(dt).units();
            let tenth = (Double { bits: NOMINAL_TICK_SECONDS }).units();
            let half: int = 0x10_0000_0000_0000;
            2 * half * accuracy::apart(tenth * ticks, dt.units() * pow2(1074)) <= (ticks + half)
                * tenth
        }),
{
    let tick = Double { bits: NOMINAL_TICK_SECONDS };
    arithmetic::law_quotients_are_numbers(dt, tick);
    assert(ticks_in(dt) == arithmetic::quotient(dt, tick));
    order::law_units_follow_rank(ticks_in(dt), ticks_in(dt));
    order::law_units_follow_rank(tick, tick);
    accuracy::law_quotients_are_close(dt, tick);
}

} // verus!

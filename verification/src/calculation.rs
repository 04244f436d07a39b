//! Filtering, glitch rejection and scoring of sensor samples.
use crate::arithmetic;
use crate::config;
use crate::double;
use crate::double::Double;
use crate::kalman;
use crate::kalman::KalmanFilter;
use crate::order;
use crate::sensor::RawSensorData;
use crate::setpoint;
use vstd::arithmetic::power2::*;
use vstd::prelude::*;

verus! {

/// A filtered sample and how far it is off, absolutely and in percent.
#[derive(Debug, Clone, Copy, PartialEq, Eq, Structural)]
pub struct ProcessedData {
    pub mag_x: Double,
    pub mag_y: Double,
    pub mag_z: Double,
    pub error_x: Double,
    pub error_y: Double,
    pub error_z: Double,
    pub error_per_x: Double,
    pub error_per_y: Double,
    pub error_per_z: Double,
}

/// Nothing measured and nothing off.
pub open spec fn nothing() -> ProcessedData {
    let zero = Double { bits: 0 };
    ProcessedData {
        mag_x: zero,
        mag_y: zero,
        mag_z: zero,
        error_x: zero,
        error_y: zero,
        error_z: zero,
        error_per_x: zero,
        error_per_y: zero,
        error_per_z: zero,
    }
}

impl Default for ProcessedData {
    fn default() -> (result: Self)
        ensures
            result == nothing(),
    {
        let zero: Double = Double::zero();
        ProcessedData {
            mag_x: zero,
            mag_y: zero,
            mag_z: zero,
            error_x: zero,
            error_y: zero,
            error_z: zero,
            error_per_x: zero,
            error_per_y: zero,
            error_per_z: zero,
        }
    }
}

#[derive(Debug, Clone, Copy, PartialEq, Eq, Structural)]
pub enum CalculationError {
    InvalidMeasurementNoise,
    InvalidSpikeThreshold,
}

/// 400000: the jump between consecutive samples, in nT, that is read as a glitch
/// rather than a field.
///
/// Deliberately no smaller than any jump the sensor can report, so that the
/// rejector is off unless someone sets a real number: no two readings of a
/// sensor that spans +-200000 nT differ by more. A usable value has to come
/// from how fast the cage can slew its field.
pub const DEFAULT_SPIKE_THRESHOLD_NT: u64 = 0x4118_6a00_0000_0000;

pub open spec fn default_threshold() -> Double {
    Double { bits: DEFAULT_SPIKE_THRESHOLD_NT }
}

/// Consecutive rejects on one axis before the sample stream is treated as
/// unusable rather than merely glitchy: 300 ms at 10 Hz.
pub const REJECTS_BEFORE_FAULT: i32 = 3;

/// Filters and scores the samples of three axes.
#[derive(Debug, Clone, Copy, PartialEq, Eq, Structural)]
pub struct CalculationService {
    pub filter_x: KalmanFilter,
    pub filter_y: KalmanFilter,
    pub filter_z: KalmanFilter,
    pub has_sample_x: bool,
    pub has_sample_y: bool,
    pub has_sample_z: bool,
    pub reject_count_x: i32,
    pub reject_count_y: i32,
    pub reject_count_z: i32,
    pub spike_threshold_x: Double,
    pub spike_threshold_y: Double,
    pub spike_threshold_z: Double,
    pub max_consecutive_rejects: i32,
}

/// What one axis remembers.
#[derive(Debug, Clone, Copy, PartialEq, Eq, Structural)]
pub struct AxisState {
    pub filter: KalmanFilter,
    pub has_sample: bool,
    pub reject_count: i32,
}

/// That a sample lies further than `threshold` from where the command says the
/// field should be.
pub open spec fn is_spike(
    state: AxisState,
    raw: Double,
    command_delta: Double,
    threshold: Double,
) -> bool {
    state.has_sample && threshold.less(
        arithmetic::difference(raw, arithmetic::sum(state.filter.state, command_delta)).absolute(),
    )
}

/// One sample on one axis. A spike is held back and counted, up to the last one
/// that is tolerated in a row: that one restarts the filter where it stands.
pub open spec fn filtered(
    state: AxisState,
    raw: Double,
    command_delta: Double,
    ticks: Double,
    threshold: Double,
    most_rejects: i32,
) -> (AxisState, Double) {
    let spike = is_spike(state, raw, command_delta, threshold);
    if spike && state.reject_count + 1 < most_rejects {
        (
            AxisState { reject_count: (state.reject_count + 1) as i32, ..state },
            state.filter.state,
        )
    } else {
        let start = if spike {
            KalmanFilter { state: raw, covariance: kalman::one(), ..state.filter }
        } else {
            state.filter
        };
        let filter = kalman::updated(start, raw, command_delta, ticks);
        (AxisState { filter, has_sample: true, reject_count: 0 }, filter.state)
    }
}

/// An error in percent of the setpoint, zero against a zero setpoint.
pub open spec fn percent(error: Double, setpoint: Double) -> Double {
    if setpoint.equals(Double { bits: 0 }) {
        Double { bits: 0 }
    } else {
        arithmetic::product(
            arithmetic::quotient(error, setpoint.absolute()),
            Double { bits: 0x4059_0000_0000_0000 },
        )
    }
}

/// How far a reading is from its setpoint.
pub open spec fn error_of(setpoint: Double, reading: Double) -> Double {
    arithmetic::difference(setpoint, reading).absolute()
}

/// A filter at zero with the default noise terms.
pub open spec fn default_axis_filter() -> KalmanFilter {
    kalman::fresh(
        Double { bits: 0 },
        kalman::one(),
        kalman::one(),
        Double { bits: 0x4059_0000_0000_0000 },
    )
}

impl CalculationService {
    /// That no run of rejects has outgrown its counter.
    pub open spec fn wf(self) -> bool {
        &&& 0 <= self.reject_count_x < i32::MAX
        &&& 0 <= self.reject_count_y < i32::MAX
        &&& 0 <= self.reject_count_z < i32::MAX
    }

    pub open spec fn axis_x(self) -> AxisState {
        AxisState {
            filter: self.filter_x,
            has_sample: self.has_sample_x,
            reject_count: self.reject_count_x,
        }
    }

    pub open spec fn axis_y(self) -> AxisState {
        AxisState {
            filter: self.filter_y,
            has_sample: self.has_sample_y,
            reject_count: self.reject_count_y,
        }
    }

    pub open spec fn axis_z(self) -> AxisState {
        AxisState {
            filter: self.filter_z,
            has_sample: self.has_sample_z,
            reject_count: self.reject_count_z,
        }
    }

    /// The service with other axis states.
    pub open spec fn with_axes(self, x: AxisState, y: AxisState, z: AxisState) -> Self {
        CalculationService {
            filter_x: x.filter,
            filter_y: y.filter,
            filter_z: z.filter,
            has_sample_x: x.has_sample,
            has_sample_y: y.has_sample,
            has_sample_z: z.has_sample,
            reject_count_x: x.reject_count,
            reject_count_y: y.reject_count,
            reject_count_z: z.reject_count,
            ..self
        }
    }
}

/// An axis that has seen no sample; its factors and noise terms stay.
pub open spec fn cleared(state: AxisState) -> AxisState {
    AxisState {
        filter: KalmanFilter {
            state: Double { bits: 0 },
            covariance: kalman::one(),
            ..state.filter
        },
        has_sample: false,
        reject_count: 0,
    }
}

fn filter_axis(
    state: AxisState,
    raw: Double,
    command_delta: Double,
    ticks: Double,
    spike_threshold: Double,
    max_consecutive_rejects: i32,
) -> (result: (AxisState, Double))
    requires
        0 <= state.reject_count < i32::MAX,
    ensures
        result == filtered(
            state,
            raw,
            command_delta,
            ticks,
            spike_threshold,
            max_consecutive_rejects,
        ),
        0 <= result.0.reject_count < i32::MAX,
{
    let mut filter: KalmanFilter = state.filter;
    if state.has_sample && spike_threshold.lt(raw.minus(filter.state.plus(command_delta)).abs()) {
        let count: i32 = state.reject_count + 1;
        if count < max_consecutive_rejects {
            return (AxisState { reject_count: count, ..state }, filter.state);
        }
        filter.reset(raw, Double::from_bits(0x3ff0_0000_0000_0000));
    }
    let value: Double = filter.filter_ticks(raw, command_delta, ticks);
    (AxisState { filter, has_sample: true, reject_count: 0 }, value)
}

fn calculate_percent(error: Double, setpoint: Double) -> (result: Double)
    ensures
        result == percent(error, setpoint),
{
    if setpoint.same(Double::zero()) {
        Double::zero()
    } else {
        error.over(setpoint.abs()).times(Double::from_bits(0x4059_0000_0000_0000))
    }
}

/// A glitch threshold that can be used: the given one where it is finite and above
/// zero, the default where it is not.
pub fn usable_threshold(spike_nt: Double) -> (result: Double)
    ensures
        result == (if config::positive(spike_nt) {
            spike_nt
        } else {
            default_threshold()
        }),
        config::positive(result),
{
    if config::is_positive(spike_nt) {
        spike_nt
    } else {
        Double::from_bits(DEFAULT_SPIKE_THRESHOLD_NT)
    }
}

impl Default for CalculationService {
    fn default() -> (result: Self)
        ensures
            result.wf(),
            result.filter_x == default_axis_filter(),
            result.axis_x() == cleared(result.axis_x()),
            result.axis_y() == result.axis_x(),
            result.axis_z() == result.axis_x(),
            result.spike_threshold_x.bits == DEFAULT_SPIKE_THRESHOLD_NT,
            result.spike_threshold_y.bits == DEFAULT_SPIKE_THRESHOLD_NT,
            result.spike_threshold_z.bits == DEFAULT_SPIKE_THRESHOLD_NT,
            result.max_consecutive_rejects == 10,
    {
        let filter: KalmanFilter = KalmanFilter::new(
            Double::zero(),
            Double::from_bits(0x3ff0_0000_0000_0000),
            Double::from_bits(0x3ff0_0000_0000_0000),
            Double::from_bits(0x4059_0000_0000_0000),
        );
        CalculationService {
            filter_x: filter,
            filter_y: filter,
            filter_z: filter,
            has_sample_x: false,
            has_sample_y: false,
            has_sample_z: false,
            reject_count_x: 0,
            reject_count_y: 0,
            reject_count_z: 0,
            spike_threshold_x: Double::from_bits(DEFAULT_SPIKE_THRESHOLD_NT),
            spike_threshold_y: Double::from_bits(DEFAULT_SPIKE_THRESHOLD_NT),
            spike_threshold_z: Double::from_bits(DEFAULT_SPIKE_THRESHOLD_NT),
            max_consecutive_rejects: 10,
        }
    }
}

/// What a sample does: the service afterwards, the filtered reading, and how far
/// that is from the setpoint.
pub open spec fn processes(
    before: CalculationService,
    after: CalculationService,
    raw: RawSensorData,
    setpoint: Seq<Double>,
    command_delta: Seq<Double>,
    ticks: Double,
    result: ProcessedData,
) -> bool {
    let most = before.max_consecutive_rejects;
    let (x, mag_x) = filtered(
        before.axis_x(),
        raw.mag_x,
        command_delta[0],
        ticks,
        before.spike_threshold_x,
        most,
    );
    let (y, mag_y) = filtered(
        before.axis_y(),
        raw.mag_y,
        command_delta[1],
        ticks,
        before.spike_threshold_y,
        most,
    );
    let (z, mag_z) = filtered(
        before.axis_z(),
        raw.mag_z,
        command_delta[2],
        ticks,
        before.spike_threshold_z,
        most,
    );
    &&& after == before.with_axes(x, y, z)
    &&& result.mag_x == mag_x
    &&& result.mag_y == mag_y
    &&& result.mag_z == mag_z
    &&& result.error_x == error_of(setpoint[0], mag_x)
    &&& result.error_y == error_of(setpoint[1], mag_y)
    &&& result.error_z == error_of(setpoint[2], mag_z)
    &&& result.error_per_x == percent(result.error_x, setpoint[0])
    &&& result.error_per_y == percent(result.error_y, setpoint[1])
    &&& result.error_per_z == percent(result.error_z, setpoint[2])
}

impl CalculationService {
    fn get_axis_x(&self) -> (result: AxisState)
        ensures
            result == self.axis_x(),
    {
        AxisState {
            filter: self.filter_x,
            has_sample: self.has_sample_x,
            reject_count: self.reject_count_x,
        }
    }

    fn get_axis_y(&self) -> (result: AxisState)
        ensures
            result == self.axis_y(),
    {
        AxisState {
            filter: self.filter_y,
            has_sample: self.has_sample_y,
            reject_count: self.reject_count_y,
        }
    }

    fn get_axis_z(&self) -> (result: AxisState)
        ensures
            result == self.axis_z(),
    {
        AxisState {
            filter: self.filter_z,
            has_sample: self.has_sample_z,
            reject_count: self.reject_count_z,
        }
    }

    fn set_axes(&mut self, x: AxisState, y: AxisState, z: AxisState)
        ensures
            *final(self) == old(self).with_axes(x, y, z),
    {
        self.filter_x = x.filter;
        self.filter_y = y.filter;
        self.filter_z = z.filter;
        self.has_sample_x = x.has_sample;
        self.has_sample_y = y.has_sample;
        self.has_sample_z = z.has_sample;
        self.reject_count_x = x.reject_count;
        self.reject_count_y = y.reject_count;
        self.reject_count_z = z.reject_count;
    }

    /// Filters one sample and scores it against the setpoint.
    ///
    /// `command_delta` is how far the commanded field moved since the previous
    /// sample, per axis: zeroes when it has not moved or is not known. `ticks`
    /// is the real interval since the previous sample in nominal ticks.
    pub fn process_sensor_data(
        &mut self,
        raw: &RawSensorData,
        setpoint: [Double; 3],
        command_delta: [Double; 3],
        ticks: Double,
    ) -> (result: ProcessedData)
        requires
            old(self).wf(),
        ensures
            final(self).wf(),
            processes(*old(self), *final(self), *raw, setpoint@, command_delta@, ticks, result),
    {
        let most: i32 = self.max_consecutive_rejects;
        let (x, mag_x) = filter_axis(
            self.get_axis_x(),
            raw.mag_x,
            command_delta[0],
            ticks,
            self.spike_threshold_x,
            most,
        );
        let (y, mag_y) = filter_axis(
            self.get_axis_y(),
            raw.mag_y,
            command_delta[1],
            ticks,
            self.spike_threshold_y,
            most,
        );
        let (z, mag_z) = filter_axis(
            self.get_axis_z(),
            raw.mag_z,
            command_delta[2],
            ticks,
            self.spike_threshold_z,
            most,
        );
        self.set_axes(x, y, z);
        let error_x: Double = setpoint[0].minus(mag_x).abs();
        let error_y: Double = setpoint[1].minus(mag_y).abs();
        let error_z: Double = setpoint[2].minus(mag_z).abs();
        ProcessedData {
            mag_x,
            mag_y,
            mag_z,
            error_x,
            error_y,
            error_z,
            error_per_x: calculate_percent(error_x, setpoint[0]),
            error_per_y: calculate_percent(error_y, setpoint[1]),
            error_per_z: calculate_percent(error_z, setpoint[2]),
        }
    }

    /// Retunes one axis' filter: 0 and 1 for X and Y, anything else for Z. Terms
    /// that are not finite and above zero are refused, because they would turn
    /// the Kalman gain into NaN.
    pub fn set_noise(&mut self, axis: usize, q: Double, r: Double) -> (result: Result<
        (),
        CalculationError,
    >)
        ensures
            result is Ok == (config::positive(q) && config::positive(r)),
            result is Err ==> {
                &&& result->Err_0 == CalculationError::InvalidMeasurementNoise
                &&& *final(self) == *old(self)
            },
            result is Ok ==> *final(self) == (CalculationService {
                filter_x: if axis == 0 {
                    KalmanFilter { q, r, ..old(self).filter_x }
                } else {
                    old(self).filter_x
                },
                filter_y: if axis == 1 {
                    KalmanFilter { q, r, ..old(self).filter_y }
                } else {
                    old(self).filter_y
                },
                filter_z: if axis > 1 {
                    KalmanFilter { q, r, ..old(self).filter_z }
                } else {
                    old(self).filter_z
                },
                ..*old(self)
            }),
    {
        if !config::is_positive(q) || !config::is_positive(r) {
            return Err(CalculationError::InvalidMeasurementNoise);
        }
        if axis == 0 {
            self.filter_x.q = q;
            self.filter_x.r = r;
        } else if axis == 1 {
            self.filter_y.q = q;
            self.filter_y.r = r;
        } else {
            self.filter_z.q = q;
            self.filter_z.r = r;
        }
        Ok(())
    }

    /// Sets one axis' glitch threshold, which has to be finite and above zero.
    pub fn set_spike_threshold(&mut self, axis: usize, spike_nt: Double) -> (result: Result<
        (),
        CalculationError,
    >)
        ensures
            result is Ok == config::positive(spike_nt),
            result is Err ==> {
                &&& result->Err_0 == CalculationError::InvalidSpikeThreshold
                &&& *final(self) == *old(self)
            },
            result is Ok ==> *final(self) == (CalculationService {
                spike_threshold_x: if axis == 0 {
                    spike_nt
                } else {
                    old(self).spike_threshold_x
                },
                spike_threshold_y: if axis == 1 {
                    spike_nt
                } else {
                    old(self).spike_threshold_y
                },
                spike_threshold_z: if axis > 1 {
                    spike_nt
                } else {
                    old(self).spike_threshold_z
                },
                ..*old(self)
            }),
    {
        if !config::is_positive(spike_nt) {
            return Err(CalculationError::InvalidSpikeThreshold);
        }
        if axis == 0 {
            self.spike_threshold_x = spike_nt;
        } else if axis == 1 {
            self.spike_threshold_y = spike_nt;
        } else {
            self.spike_threshold_z = spike_nt;
        }
        Ok(())
    }

    /// Sets the measurement noise of X; a number at or below zero is refused.
    pub fn set_measurement_noise_x(&mut self, r: Double) -> (result: Result<(), CalculationError>)
        ensures
            result is Err == r.at_most(Double { bits: 0 }),
            result is Err ==> {
                &&& result->Err_0 == CalculationError::InvalidMeasurementNoise
                &&& *final(self) == *old(self)
            },
            result is Ok ==> *final(self) == (CalculationService {
                filter_x: KalmanFilter { r, ..old(self).filter_x },
                ..*old(self)
            }),
    {
        match self.filter_x.set_measurement_noise(r) {
            Ok(_) => Ok(()),
            Err(_) => Err(CalculationError::InvalidMeasurementNoise),
        }
    }

    /// Sets the measurement noise of Y; a number at or below zero is refused.
    pub fn set_measurement_noise_y(&mut self, r: Double) -> (result: Result<(), CalculationError>)
        ensures
            result is Err == r.at_most(Double { bits: 0 }),
            result is Err ==> {
                &&& result->Err_0 == CalculationError::InvalidMeasurementNoise
                &&& *final(self) == *old(self)
            },
            result is Ok ==> *final(self) == (CalculationService {
                filter_y: KalmanFilter { r, ..old(self).filter_y },
                ..*old(self)
            }),
    {
        match self.filter_y.set_measurement_noise(r) {
            Ok(_) => Ok(()),
            Err(_) => Err(CalculationError::InvalidMeasurementNoise),
        }
    }

    /// Sets the measurement noise of Z; a number at or below zero is refused.
    pub fn set_measurement_noise_z(&mut self, r: Double) -> (result: Result<(), CalculationError>)
        ensures
            result is Err == r.at_most(Double { bits: 0 }),
            result is Err ==> {
                &&& result->Err_0 == CalculationError::InvalidMeasurementNoise
                &&& *final(self) == *old(self)
            },
            result is Ok ==> *final(self) == (CalculationService {
                filter_z: KalmanFilter { r, ..old(self).filter_z },
                ..*old(self)
            }),
    {
        match self.filter_z.set_measurement_noise(r) {
            Ok(_) => Ok(()),
            Err(_) => Err(CalculationError::InvalidMeasurementNoise),
        }
    }

    pub fn reset_filters(&mut self)
        requires
            old(self).wf(),
        ensures
            final(self).wf(),
            *final(self) == old(self).with_axes(
                cleared(old(self).axis_x()),
                cleared(old(self).axis_y()),
                cleared(old(self).axis_z()),
            ),
    {
        self.reset_filter_x();
        self.reset_filter_y();
        self.reset_filter_z();
    }

    pub fn reset_filter_x(&mut self)
        requires
            old(self).wf(),
        ensures
            final(self).wf(),
            *final(self) == old(self).with_axes(
                cleared(old(self).axis_x()),
                old(self).axis_y(),
                old(self).axis_z(),
            ),
    {
        self.filter_x.reset(Double::zero(), Double::from_bits(0x3ff0_0000_0000_0000));
        self.has_sample_x = false;
        self.reject_count_x = 0;
    }

    pub fn reset_filter_y(&mut self)
        requires
            old(self).wf(),
        ensures
            final(self).wf(),
            *final(self) == old(self).with_axes(
                old(self).axis_x(),
                cleared(old(self).axis_y()),
                old(self).axis_z(),
            ),
    {
        self.filter_y.reset(Double::zero(), Double::from_bits(0x3ff0_0000_0000_0000));
        self.has_sample_y = false;
        self.reject_count_y = 0;
    }

    pub fn reset_filter_z(&mut self)
        requires
            old(self).wf(),
        ensures
            final(self).wf(),
            *final(self) == old(self).with_axes(
                old(self).axis_x(),
                old(self).axis_y(),
                cleared(old(self).axis_z()),
            ),
    {
        self.filter_z.reset(Double::zero(), Double::from_bits(0x3ff0_0000_0000_0000));
        self.has_sample_z = false;
        self.reject_count_z = 0;
    }

    /// Longest run of consecutive rejected samples across the three axes.
    /// Non-zero means that held values are being passed on rather than
    /// measurements.
    pub fn consecutive_rejects(&self) -> (result: i32)
        ensures
            result >= self.reject_count_x && result >= self.reject_count_y && result
                >= self.reject_count_z,
            result == self.reject_count_x || result == self.reject_count_y || result
                == self.reject_count_z,
    {
        let mut most: i32 = self.reject_count_x;
        if self.reject_count_y > most {
            most = self.reject_count_y;
        }
        if self.reject_count_z > most {
            most = self.reject_count_z;
        }
        most
    }

    pub fn filter_states(&self) -> (result: [Double; 3])
        ensures
            result@ == seq![self.filter_x.state, self.filter_y.state, self.filter_z.state],
    {
        let result: [Double; 3] = [self.filter_x.state, self.filter_y.state, self.filter_z.state];
        assert(result@ =~= seq![self.filter_x.state, self.filter_y.state, self.filter_z.state]);
        result
    }
}

/// The default threshold is never passed: no reading of a sensor that spans
/// +-200000 nT lies that far from any field in the same range.
pub proof fn law_the_default_threshold_cannot_fire(raw: Double, expected: Double)
    requires
        raw.finite(),
        expected.finite(),
        -200000 * pow2(1074) <= raw.units() <= 200000 * pow2(1074),
        -200000 * pow2(1074) <= expected.units() <= 200000 * pow2(1074),
    ensures
        !default_threshold().less(arithmetic::difference(raw, expected).absolute()),
{
    let threshold: nat = 0x4118_6a00_0000_0000;
    let limit = 400000 * pow2(1074);
    assert(threshold / 0x10_0000_0000_0000 == 1041);
    assert(threshold % 0x10_0000_0000_0000 == 0x8_6a00_0000_0000);
    lemma2_to64();
    lemma2_to64_rest();
    lemma_pow2_adds(34, 1040);
    assert(pow2(1074) == 0x4_0000_0000 * pow2(1040));
    assert(double::double_units(threshold) == 0x18_6a00_0000_0000 * pow2(1040));
    assert(double::double_units(threshold) == limit);
    let total = raw.units() - expected.units();
    assert(expected.negated().units() == -expected.units());
    let size: nat = if total < 0 {
        (-total) as nat
    } else {
        total as nat
    };
    if total != 0 {
        arithmetic::law_there_is_a_nearest(size, 1);
        arithmetic::law_exact_results_are_kept(threshold, 1);
        arithmetic::law_there_is_a_nearest(limit, 1);
        assert(double::double_units(threshold) * 1 == limit);
        arithmetic::law_nearest_keeps_order(
            size,
            limit,
            1,
            arithmetic::nearest(size, 1),
            threshold,
        );
    }
}

/// A run of spikes is held back one by one and counted, and a sample inside the
/// threshold ends it.
pub proof fn law_runs_of_spikes_are_counted(
    state: AxisState,
    raw: Double,
    command_delta: Double,
    ticks: Double,
    threshold: Double,
    most_rejects: i32,
)
    requires
        0 <= state.reject_count,
        state.reject_count + 1 < most_rejects,
    ensures
        ({
            let (after, value) = filtered(
                state,
                raw,
                command_delta,
                ticks,
                threshold,
                most_rejects,
            );
            if is_spike(state, raw, command_delta, threshold) {
                &&& value == state.filter.state
                &&& after.filter == state.filter
                &&& after.reject_count == state.reject_count + 1
            } else {
                after.reject_count == 0
            }
        }),
{
}

/// An axis that looks the other way.
pub open spec fn turned_round(state: AxisState) -> AxisState {
    AxisState {
        filter: KalmanFilter { state: state.filter.state.negated(), ..state.filter },
        ..state
    }
}

/// Both sides are filtered alike: with the state, the sample and the command turned
/// round, the same samples are held back, and what is filtered is turned round.
pub proof fn law_both_sides_are_judged_alike(
    state: AxisState,
    raw: Double,
    command_delta: Double,
    ticks: Double,
    threshold: Double,
    most_rejects: i32,
)
    ensures
        ({
            let mirrored = turned_round(state);
            let (after, value) = filtered(
                state,
                raw,
                command_delta,
                ticks,
                threshold,
                most_rejects,
            );
            let (other, turned) = filtered(
                mirrored,
                raw.negated(),
                command_delta.negated(),
                ticks,
                threshold,
                most_rejects,
            );
            &&& is_spike(state, raw, command_delta, threshold) == is_spike(
                mirrored,
                raw.negated(),
                command_delta.negated(),
                threshold,
            )
            &&& order::opposite(value, turned)
            &&& order::opposite(after.filter.state, other.filter.state)
            &&& after.filter.covariance == other.filter.covariance
            &&& after.reject_count == other.reject_count
            &&& after.has_sample == other.has_sample
        }),
{
    let mirrored = turned_round(state);
    order::law_negatives_are_opposite(state.filter.state);
    order::law_negatives_are_opposite(command_delta);
    order::law_negatives_are_opposite(raw);
    let expected = arithmetic::sum(state.filter.state, command_delta);
    let other = arithmetic::sum(mirrored.filter.state, command_delta.negated());
    order::law_opposite_sums(
        state.filter.state,
        command_delta,
        mirrored.filter.state,
        command_delta.negated(),
    );
    order::law_opposite_differences(raw, expected, raw.negated(), other);
    let spike = is_spike(state, raw, command_delta, threshold);
    assert(spike == is_spike(mirrored, raw.negated(), command_delta.negated(), threshold));
    let start = if spike {
        KalmanFilter { state: raw, covariance: kalman::one(), ..state.filter }
    } else {
        state.filter
    };
    let turned = KalmanFilter { state: start.state.negated(), ..start };
    kalman::law_both_sides_are_filtered_alike(start, turned, raw, command_delta, ticks);
}

/// What was asked for is no spike: a sample that lands where the command says the
/// field should be is taken, as is the first one.
pub proof fn law_commanded_moves_are_no_spikes(
    state: AxisState,
    raw: Double,
    command_delta: Double,
    threshold: Double,
)
    requires
        (Double { bits: 0 }).at_most(threshold),
        !state.has_sample || (raw.finite() && raw == arithmetic::sum(
            state.filter.state,
            command_delta,
        )),
    ensures
        !is_spike(state, raw, command_delta, threshold),
{
    if state.has_sample {
        arithmetic::law_a_number_less_itself_is_zero(raw);
    }
}

/// A filter that stands still is no excuse: past the threshold, on either side of
/// where the field should be, a sample is a spike.
pub proof fn law_jumps_are_spikes(
    state: AxisState,
    raw: Double,
    command_delta: Double,
    threshold: Double,
)
    requires
        state.has_sample,
        ({
            let expected = arithmetic::sum(state.filter.state, command_delta);
            threshold.less(arithmetic::difference(raw, expected)) || threshold.less(
                arithmetic::difference(expected, raw),
            )
        }),
    ensures
        is_spike(state, raw, command_delta, threshold),
{
    let expected = arithmetic::sum(state.filter.state, command_delta);
    order::law_negatives_are_opposite(raw);
    order::law_negatives_are_opposite(expected);
    let there = arithmetic::difference(raw, expected);
    let back = arithmetic::difference(expected, raw);
    assert(order::opposite(there, back)) by {
        order::law_opposite_sums(raw, expected.negated(), raw.negated(), expected);
        arithmetic::law_terms_may_change_places(raw.negated(), expected);
    }
}

/// A run of spikes that has been tolerated to the end is the field: the filter starts
/// over where the samples stand.
pub proof fn law_a_long_run_restarts_the_filter(
    state: AxisState,
    raw: Double,
    ticks: Double,
    threshold: Double,
    most_rejects: i32,
)
    requires
        is_spike(state, raw, Double { bits: 0 }, threshold),
        state.reject_count + 1 >= most_rejects,
        raw.finite(),
        state.filter.a == kalman::one(),
        state.filter.h == kalman::one(),
        kalman::gain(
            state.filter,
            kalman::predicted_covariance(
                (KalmanFilter { covariance: kalman::one(), ..state.filter }),
                ticks,
            ),
        ).finite(),
    ensures
        ({
            let (after, value) = filtered(
                state,
                raw,
                Double { bits: 0 },
                ticks,
                threshold,
                most_rejects,
            );
            &&& value.equals(raw)
            &&& after.reject_count == 0
            &&& after.has_sample
        }),
{
    let zero = Double { bits: 0 };
    let start = KalmanFilter { state: raw, covariance: kalman::one(), ..state.filter };
    arithmetic::law_one_times_a_number(raw);
    arithmetic::law_zero_adds_nothing(raw, zero);
    let expected = kalman::predicted(start, zero);
    arithmetic::law_one_times_a_number(expected);
    order::law_units_follow_rank(expected, raw);
    assert(expected.negated().units() == -expected.units());
    let off = arithmetic::difference(raw, expected);
    assert(off.magnitude() == 0);
    let covariance = kalman::predicted_covariance(start, ticks);
    let pull = kalman::gain(start, covariance);
    assert(covariance == kalman::predicted_covariance(
        KalmanFilter { covariance: kalman::one(), ..state.filter },
        ticks,
    ));
    assert(pull == kalman::gain(state.filter, covariance));
    arithmetic::law_zero_times_a_number(pull, off);
    arithmetic::law_zero_adds_nothing(expected, arithmetic::product(pull, off));
}

/// An error as large as the setpoint is a hundred percent, no error is none, and the
/// side on which the setpoint lies does not matter.
pub proof fn law_percents_are_shares_of_the_setpoint(error: Double, setpoint: Double)
    requires
        setpoint.finite(),
        setpoint.magnitude() > 0,
    ensures
        percent(setpoint.absolute(), setpoint) == (Double { bits: 0x4059_0000_0000_0000 }),
        percent(Double { bits: 0 }, setpoint).magnitude() == 0,
        percent(error, setpoint.negated()) == percent(error, setpoint),
{
    let hundred = Double { bits: 0x4059_0000_0000_0000 };
    let size = setpoint.absolute();
    arithmetic::law_a_number_over_itself(size);
    arithmetic::law_one_times_a_number(hundred);
    arithmetic::law_zero_over_a_number(Double { bits: 0 }, size);
    let none = arithmetic::quotient(Double { bits: 0 }, size);
    arithmetic::law_zero_times_a_number(hundred, none);
    arithmetic::law_factors_may_change_places(hundred, none);
}

/// A larger error is never a smaller percentage.
pub proof fn law_larger_errors_are_larger_percents(less: Double, more: Double, setpoint: Double)
    requires
        setpoint.finite(),
        less.finite(),
        more.finite(),
        less.at_most(more),
    ensures
        percent(less, setpoint).at_most(percent(more, setpoint)),
{
    if setpoint.magnitude() > 0 {
        let size = setpoint.absolute();
        let hundred = Double { bits: 0x4059_0000_0000_0000 };
        arithmetic::law_quotients_are_numbers(less, size);
        arithmetic::law_quotients_are_numbers(more, size);
        order::law_quotients_keep_order(less, more, size);
        let a = arithmetic::quotient(less, size);
        let b = arithmetic::quotient(more, size);
        arithmetic::law_products_are_numbers(a, hundred);
        arithmetic::law_products_are_numbers(b, hundred);
        order::law_products_keep_order(a, b, hundred);
    }
}

/// An error has no sign: it is as far from the setpoint to the reading as back, and
/// nothing where the two are one.
pub proof fn law_errors_are_distances(setpoint: Double, reading: Double)
    requires
        setpoint.finite(),
        reading.finite(),
    ensures
        error_of(setpoint, reading).equals(error_of(reading, setpoint)),
        !error_of(setpoint, reading).negative(),
        setpoint.equals(reading) <==> error_of(setpoint, reading).magnitude() == 0,
{
    order::law_negatives_are_opposite(setpoint);
    order::law_negatives_are_opposite(reading);
    let there = arithmetic::difference(setpoint, reading);
    let back = arithmetic::difference(reading, setpoint);
    order::law_opposite_sums(setpoint, reading.negated(), setpoint.negated(), reading);
    arithmetic::law_terms_may_change_places(setpoint.negated(), reading);
    assert(order::opposite(there, back));
    arithmetic::law_sums_are_numbers(setpoint, reading.negated());
    double::law_rank_is_the_order_of_the_numbers(setpoint, reading);
    assert(reading.negated().units() == -reading.units());
    if setpoint.less(reading) {
        setpoint::lemma_later_less_earlier(setpoint, reading);
    } else if reading.less(setpoint) {
        setpoint::lemma_later_less_earlier(reading, setpoint);
    }
}

/// A service whose axes have been passed on, X to the place of Z, Y to that of X and
/// Z to that of Y.
pub open spec fn passed_on(service: CalculationService) -> CalculationService {
    CalculationService {
        filter_x: service.filter_y,
        filter_y: service.filter_z,
        filter_z: service.filter_x,
        has_sample_x: service.has_sample_y,
        has_sample_y: service.has_sample_z,
        has_sample_z: service.has_sample_x,
        reject_count_x: service.reject_count_y,
        reject_count_y: service.reject_count_z,
        reject_count_z: service.reject_count_x,
        spike_threshold_x: service.spike_threshold_y,
        spike_threshold_y: service.spike_threshold_z,
        spike_threshold_z: service.spike_threshold_x,
        ..service
    }
}

/// A result whose components have been passed on.
pub open spec fn result_passed_on(result: ProcessedData) -> ProcessedData {
    ProcessedData {
        mag_x: result.mag_y,
        mag_y: result.mag_z,
        mag_z: result.mag_x,
        error_x: result.error_y,
        error_y: result.error_z,
        error_z: result.error_x,
        error_per_x: result.error_per_y,
        error_per_y: result.error_per_z,
        error_per_z: result.error_per_x,
    }
}

/// The axes are treated alike and do not meet: passed on in what the service
/// remembers, in the sample, in the setpoint and in the command, they come out
/// passed on.
#[verifier::rlimit(60)]
#[verifier::spinoff_prover]
pub proof fn law_axes_are_treated_alike(
    before: CalculationService,
    after: CalculationService,
    raw: RawSensorData,
    setpoint: Seq<Double>,
    command_delta: Seq<Double>,
    ticks: Double,
    result: ProcessedData,
)
    requires
        setpoint.len() == 3,
        command_delta.len() == 3,
        processes(before, after, raw, setpoint, command_delta, ticks, result),
    ensures
        processes(
            passed_on(before),
            passed_on(after),
            (RawSensorData { mag_x: raw.mag_y, mag_y: raw.mag_z, mag_z: raw.mag_x }),
            seq![setpoint[1], setpoint[2], setpoint[0]],
            seq![command_delta[1], command_delta[2], command_delta[0]],
            ticks,
            result_passed_on(result),
        ),
{
    let turned = passed_on(before);
    assert(turned.axis_x() == before.axis_y());
    assert(turned.axis_y() == before.axis_z());
    assert(turned.axis_z() == before.axis_x());
    assert(passed_on(after).axis_x() == after.axis_y());
    assert(passed_on(after).axis_y() == after.axis_z());
    assert(passed_on(after).axis_z() == after.axis_x());
}

} // verus!

//! From a packet to a filtered reading: calibration, ageing and filtering in one
//! step.
use crate::accuracy;
use crate::arithmetic;
use crate::calculation;
use crate::calculation::{CalculationService, ProcessedData};
use crate::control;
use crate::double;
use crate::double::Double;
use crate::geomagnetism::calendar;
use crate::links;
use crate::links::SensorClock;
use crate::order;
use crate::pid::NOMINAL_TICK_SECONDS;
use crate::sensor;
use crate::sensor::{RawSensorData, SensorService};
use crate::whole;
use vstd::arithmetic::power2::*;
use vstd::prelude::*;

verus! {

/// A thousand million: the nanoseconds of a second.
pub const BILLION: u64 = 0x41cd_cd65_0000_0000;

/// Nanoseconds in seconds: the whole seconds and the rest.
pub open spec fn seconds_of(nanoseconds: u128) -> Double {
    arithmetic::sum(
        arithmetic::whole_number((nanoseconds / 1_000_000_000) as int),
        arithmetic::quotient(
            arithmetic::whole_number((nanoseconds % 1_000_000_000) as int),
            Double { bits: BILLION },
        ),
    )
}

/// That a time can be counted in seconds.
pub open spec fn countable(nanoseconds: u128) -> bool {
    nanoseconds / 1_000_000_000 <= i64::MAX
}

pub fn seconds(nanoseconds: u128) -> (result: Double)
    requires
        countable(nanoseconds),
    ensures
        result == seconds_of(nanoseconds),
{
    let whole: i64 = (nanoseconds / 1_000_000_000) as i64;
    let rest: i64 = (nanoseconds % 1_000_000_000) as i64;
    Double::whole(whole).plus(Double::whole(rest).over(Double::from_bits(BILLION)))
}

/// Everything between the sensor's packets and the loop.
#[derive(Debug, Clone, Copy, PartialEq)]
pub struct Intake {
    pub service: SensorService,
    pub calculation: CalculationService,
    pub clock: SensorClock,
    /// The setpoint at the last packet; none until there has been one.
    pub last_setpoint: Option<[Double; 3]>,
}

/// What one packet came to.
#[derive(Debug, Clone, Copy, PartialEq)]
pub struct Reading {
    pub raw: [Double; 3],
    pub calibrated: RawSensorData,
    pub processed: ProcessedData,
}

/// The nominal ticks since the last packet; one, before the first.
pub open spec fn ticks_since(last: Option<u128>, now: u128) -> Double {
    match last {
        Some(last) => arithmetic::quotient(
            seconds_of(links::since(last, now)),
            Double { bits: NOMINAL_TICK_SECONDS },
        ),
        None => Double { bits: 0x3ff0_0000_0000_0000 },
    }
}

/// How far each axis has been told to move since the last packet.
pub open spec fn moves(
    previous: Option<[Double; 3]>,
    setpoint: [Double; 3],
    controller_open: bool,
    running: [bool; 3],
) -> Seq<Double> {
    seq![
        control::commanded_move(previous, setpoint, controller_open, running, 0),
        control::commanded_move(previous, setpoint, controller_open, running, 1),
        control::commanded_move(previous, setpoint, controller_open, running, 2),
    ]
}

impl Intake {
    pub open spec fn wf(self) -> bool {
        self.calculation.wf()
    }

    /// What a packet does: it is calibrated, it restarts the clocks, and it is
    /// filtered against how far the command has moved since the one before.
    pub open spec fn takes(
        self,
        after: Intake,
        packet: Seq<u8>,
        now: u128,
        wall: u128,
        setpoint: [Double; 3],
        controller_open: bool,
        running: [bool; 3],
        reading: Reading,
    ) -> bool {
        &&& sensor::reads(self.service, after.service, packet, reading.calibrated)
        &&& reading.raw@ == seq![
            after.service.last_raw_x,
            after.service.last_raw_y,
            after.service.last_raw_z,
        ]
        &&& after.clock == self.clock.after_packet(now, wall, reading.raw)
        &&& after.last_setpoint == Some(setpoint)
        &&& calculation::processes(
            self.calculation,
            after.calculation,
            reading.calibrated,
            setpoint@,
            moves(self.last_setpoint, setpoint, controller_open, running),
            ticks_since(self.clock.last_packet, now),
            reading.processed,
        )
    }

    /// Takes a packet in at `now`, with the setpoint that the loop is chasing.
    pub fn packet(
        &mut self,
        packet: &[u8],
        now: u128,
        wall: u128,
        setpoint: [Double; 3],
        controller_open: bool,
        running: [bool; 3],
    ) -> (reading: Reading)
        requires
            old(self).wf(),
            countable(now),
        ensures
            final(self).wf(),
            old(self).takes(
                *final(self),
                packet@,
                now,
                wall,
                setpoint,
                controller_open,
                running,
                reading,
            ),
    {
        let ticks: Double = match self.clock.last_packet {
            Some(last) => {
                let since: u128 = links::elapsed(last, now);
                assert(since / 1_000_000_000 <= now / 1_000_000_000);
                seconds(since).over(Double::from_bits(NOMINAL_TICK_SECONDS))
            },
            None => Double::from_bits(0x3ff0_0000_0000_0000),
        };
        let calibrated: RawSensorData = self.service.process_data(packet);
        let raw: [Double; 3] = [
            self.service.last_raw_x(),
            self.service.last_raw_y(),
            self.service.last_raw_z(),
        ];
        self.clock.packet(now, wall, raw);
        let moved: [Double; 3] = control::command_delta(
            self.last_setpoint,
            setpoint,
            controller_open,
            running,
        );
        assert(moved@ =~= moves(self.last_setpoint, setpoint, controller_open, running));
        self.last_setpoint = Some(setpoint);
        let processed: ProcessedData = self.calculation.process_sensor_data(
            &calibrated,
            setpoint,
            moved,
            ticks,
        );
        assert(raw@ =~= seq![
            self.service.last_raw_x,
            self.service.last_raw_y,
            self.service.last_raw_z,
        ]);
        Reading { raw, calibrated, processed }
    }

    /// A link that is opened anew has no past.
    pub fn forget(&mut self)
        ensures
            links::unheard(final(self).clock),
            *final(self) == (Intake {
                clock: final(self).clock,
                last_setpoint: None,
                ..*old(self)
            }),
    {
        self.clock = SensorClock::default();
        self.last_setpoint = None;
    }
}

/// Nanoseconds are billionths of a second: the nanoseconds of up to a hundred days are
/// counted to within two billionths of a second.
pub proof fn law_seconds_count_nanoseconds(nanoseconds: u128)
    requires
        nanoseconds / 1_000_000_000 < 0x80_0000,
    ensures
        seconds_of(nanoseconds).finite(),
        500_000_000 * accuracy::apart(
            1_000_000_000 * seconds_of(nanoseconds).units(),
            nanoseconds * pow2(1074),
        ) <= 1_000_000_000 * pow2(1074),
{
    let unit = pow2(1074);
    let full = (nanoseconds / 1_000_000_000) as int;
    let rest = (nanoseconds % 1_000_000_000) as int;
    let billion = Double { bits: BILLION };
    whole::law_whole_numbers_are_exact(full);
    whole::law_whole_numbers_are_exact(rest);
    lemma_pow2_pos(1074);
    lemma_billion();
    assert(0 <= rest * unit < 1_000_000_000 * unit) by (nonlinear_arith)
        requires
            0 <= rest < 1_000_000_000,
            unit > 0,
    ;
    let part = arithmetic::quotient(arithmetic::whole_number(rest), billion);
    calendar::lemma_part(arithmetic::whole_number(rest), billion, 1_000_000_000);
    assert(0 <= full * unit <= 0x7f_ffff * unit) by (nonlinear_arith)
        requires
            0 <= full <= 0x7f_ffff,
    ;
    calendar::lemma_bounded_sum(arithmetic::whole_number(full), part, 0x80_0000);
    calendar::lemma_grain();
    assert(nanoseconds * unit == 1_000_000_000 * (full * unit) + rest * unit) by (nonlinear_arith)
        requires
            nanoseconds == 1_000_000_000 * full + rest,
    ;
}

/// A longer wait is never fewer seconds.
proof fn lemma_longer_waits(short: u128, long: u128)
    requires
        short <= long,
        long / 1_000_000_000 < 0x10_0000_0000_0000,
    ensures
        seconds_of(short).at_most(seconds_of(long)),
        seconds_of(short).finite(),
        seconds_of(long).finite(),
{
    let unit = pow2(1074);
    lemma_pow2_pos(1074);
    let one = Double { bits: 0x3ff0_0000_0000_0000 };
    arithmetic::lemma_one();
    lemma_seconds(short);
    lemma_seconds(long);
    let f1 = (short / 1_000_000_000) as int;
    let f2 = (long / 1_000_000_000) as int;
    let a = arithmetic::whole_number(f1);
    let b = arithmetic::whole_number(f2);
    let billion = Double { bits: BILLION };
    let r1 = arithmetic::whole_number((short % 1_000_000_000) as int);
    let r2 = arithmetic::whole_number((long % 1_000_000_000) as int);
    let p = arithmetic::quotient(r1, billion);
    let q = arithmetic::quotient(r2, billion);
    whole::law_whole_numbers_are_exact(f1);
    whole::law_whole_numbers_are_exact(f2);
    if f1 == f2 {
        whole::law_whole_numbers_are_exact((short % 1_000_000_000) as int);
        whole::law_whole_numbers_are_exact((long % 1_000_000_000) as int);
        let m = (short % 1_000_000_000) as int;
        let n = (long % 1_000_000_000) as int;
        assert(m * unit <= n * unit) by (nonlinear_arith)
            requires
                m <= n,
        ;
        double::law_rank_is_the_order_of_the_numbers(r1, r2);
        order::law_quotients_keep_order(r1, r2, billion);
        order::law_sums_keep_order(a, p, b, q);
    } else {
        assert(one.units() == 1 * unit);
        whole::law_short_sums_are_exact(a, one, f1, 1, 1074);
        assert((f1 + 1) * unit <= f2 * unit) by (nonlinear_arith)
            requires
                f1 + 1 <= f2,
        ;
        let next = arithmetic::sum(a, one);
        double::law_rank_is_the_order_of_the_numbers(next, b);
        order::law_sums_keep_order(a, p, a, one);
        let zero = Double { bits: 0 };
        arithmetic::law_zero_adds_nothing(b, zero);
        order::law_sums_keep_order(b, zero, b, q);
    }
}

/// The seconds and the part of one that a time is counted in.
proof fn lemma_seconds(nanoseconds: u128)
    requires
        nanoseconds / 1_000_000_000 < 0x10_0000_0000_0000,
    ensures
        ({
            let part = arithmetic::quotient(
                arithmetic::whole_number((nanoseconds % 1_000_000_000) as int),
                Double { bits: BILLION },
            );
            &&& (Double { bits: 0 }).at_most(part)
            &&& part.at_most(Double { bits: 0x3ff0_0000_0000_0000 })
            &&& part.finite()
        }),
        seconds_of(nanoseconds).finite(),
{
    let unit = pow2(1074);
    let full = (nanoseconds / 1_000_000_000) as int;
    let rest = (nanoseconds % 1_000_000_000) as int;
    let billion = Double { bits: BILLION };
    whole::law_whole_numbers_are_exact(full);
    whole::law_whole_numbers_are_exact(rest);
    lemma_pow2_pos(1074);
    lemma_billion();
    assert(0 <= rest * unit < 1_000_000_000 * unit) by (nonlinear_arith)
        requires
            0 <= rest < 1_000_000_000,
            unit > 0,
    ;
    let part = arithmetic::quotient(arithmetic::whole_number(rest), billion);
    calendar::lemma_part(arithmetic::whole_number(rest), billion, 1_000_000_000);
    arithmetic::lemma_one();
    let zero = Double { bits: 0 };
    assert(double::double_units(0) == 0);
    double::law_rank_is_the_order_of_the_numbers(zero, part);
    double::law_rank_is_the_order_of_the_numbers(part, Double { bits: 0x3ff0_0000_0000_0000 });
    let top: nat = 0x10_0000_0000_0000;
    assert(0 <= full * unit <= (top - 1) * unit) by (nonlinear_arith)
        requires
            0 <= full <= top - 1,
    ;
    assert((top - 1) * unit + unit == top * unit) by (nonlinear_arith);
    calendar::lemma_bounded_sum(arithmetic::whole_number(full), part, top);
}

/// A thousand million, in units.
proof fn lemma_billion()
    ensures
        (Double { bits: BILLION }).units() == 1_000_000_000 * pow2(1074),
{
    let bits: nat = BILLION as nat;
    assert(bits / 0x10_0000_0000_0000 == 1052);
    assert(bits % 0x10_0000_0000_0000 == 0xd_cd65_0000_0000);
    lemma2_to64_rest();
    lemma2_to64();
    lemma_pow2_adds(23, 1051);
    let scale = pow2(1051);
    assert(0x1d_cd65_0000_0000 * scale == 1_000_000_000 * (0x80_0000 * scale));
}

/// A longer wait is never fewer ticks.
pub proof fn law_longer_waits_are_more_ticks(last: u128, now: u128, later: u128)
    requires
        last <= now <= later,
        (later - last) / 1_000_000_000 < 0x10_0000_0000_0000,
    ensures
        ticks_since(Some(last), now).at_most(ticks_since(Some(last), later)),
{
    let tick = Double { bits: NOMINAL_TICK_SECONDS };
    let a = seconds_of(links::since(last, now));
    let b = seconds_of(links::since(last, later));
    lemma_longer_waits(links::since(last, now), links::since(last, later));
    arithmetic::law_quotients_are_numbers(a, tick);
    arithmetic::law_quotients_are_numbers(b, tick);
    order::law_quotients_keep_order(a, b, tick);
}

} // verus!

//! From a sensor packet to a calibrated field in nanotesla.
use crate::accuracy;
use crate::arithmetic;
use crate::config;
use crate::config::CalibrationSettings;
use crate::double::Double;
use crate::order;
use crate::whole;
use vstd::prelude::*;

verus! {

/// A field vector in nanotesla.
#[derive(Debug, Clone, Copy, PartialEq, Eq, Structural)]
pub struct RawSensorData {
    pub mag_x: Double,
    pub mag_y: Double,
    pub mag_z: Double,
}

impl Default for RawSensorData {
    fn default() -> (result: Self)
        ensures
            result == no_field(),
    {
        RawSensorData { mag_x: Double::zero(), mag_y: Double::zero(), mag_z: Double::zero() }
    }
}

/// No field at all.
pub open spec fn no_field() -> RawSensorData {
    RawSensorData {
        mag_x: Double { bits: 0 },
        mag_y: Double { bits: 0 },
        mag_z: Double { bits: 0 },
    }
}

/// The signed count that two bytes hold, high byte first.
pub open spec fn count_of(high: u8, low: u8) -> int {
    let word = 256 * high + low;
    if word < 0x8000 {
        word
    } else {
        word - 0x1_0000
    }
}

/// The raw reading of `axis` in a packet, in nT.
pub open spec fn scaled(packet: Seq<u8>, axis: int, scale: Double) -> Double {
    arithmetic::product(
        arithmetic::whole_number(count_of(packet[2 * axis], packet[2 * axis + 1])),
        scale,
    )
}

/// A raw reading without the hard-iron offset and the reference.
pub open spec fn centred(raw: Double, hard_iron: Double, reference: Double) -> Double {
    arithmetic::difference(arithmetic::difference(raw, hard_iron), reference)
}

/// A row of the soft-iron matrix applied to a reading.
pub open spec fn weighed(row: Seq<Double>, reading: Seq<Double>) -> Double {
    arithmetic::sum(
        arithmetic::sum(
            arithmetic::product(row[0], reading[0]),
            arithmetic::product(row[1], reading[1]),
        ),
        arithmetic::product(row[2], reading[2]),
    )
}

/// Turns packets into calibrated readings.
#[derive(Debug, Clone, Copy, PartialEq)]
pub struct SensorService {
    pub reference_x: Double,
    pub reference_y: Double,
    pub reference_z: Double,
    pub calibration: CalibrationSettings,
    pub last_raw_x: Double,
    pub last_raw_y: Double,
    pub last_raw_z: Double,
}

/// The calibrated reading of a packet, given its raw readings.
pub open spec fn calibrated(service: SensorService, raw: Seq<Double>) -> RawSensorData {
    let calibration = service.calibration;
    let reading = seq![
        centred(raw[0], calibration.hard_iron[0], service.reference_x),
        centred(raw[1], calibration.hard_iron[1], service.reference_y),
        centred(raw[2], calibration.hard_iron[2], service.reference_z),
    ];
    RawSensorData {
        mag_x: weighed(calibration.soft_iron[0]@, reading),
        mag_y: weighed(calibration.soft_iron[1]@, reading),
        mag_z: weighed(calibration.soft_iron[2]@, reading),
    }
}

/// The three raw readings of a packet.
pub open spec fn readings(packet: Seq<u8>, scale: Double) -> Seq<Double> {
    seq![scaled(packet, 0, scale), scaled(packet, 1, scale), scaled(packet, 2, scale)]
}

fn read_count(high: u8, low: u8) -> (result: i64)
    ensures
        result == count_of(high, low),
{
    let word: i64 = 256 * (high as i64) + low as i64;
    if word < 0x8000 {
        word
    } else {
        word - 0x1_0000
    }
}

fn weigh(row: &[Double; 3], reading: &[Double; 3]) -> (result: Double)
    ensures
        result == weighed(row@, reading@),
{
    row[0].times(reading[0]).plus(row[1].times(reading[1])).plus(row[2].times(reading[2]))
}

impl Default for SensorService {
    fn default() -> (result: Self)
        ensures
            result.reference_x.bits == 0 && result.reference_y.bits == 0 && result.reference_z.bits
                == 0,
            result.last_raw_x.bits == 0 && result.last_raw_y.bits == 0 && result.last_raw_z.bits == 0,
            config::is_default_calibration(result.calibration),
    {
        SensorService::with_calibration(CalibrationSettings::default())
    }
}

/// What a packet does: the service afterwards and the calibrated reading.
pub open spec fn reads(
    before: SensorService,
    after: SensorService,
    packet: Seq<u8>,
    result: RawSensorData,
) -> bool {
    if packet.len() < 7 {
        result == no_field() && after == before
    } else {
        let raw = readings(packet, before.calibration.count_to_nt);
        &&& result == calibrated(before, raw)
        &&& after == (SensorService {
            last_raw_x: raw[0],
            last_raw_y: raw[1],
            last_raw_z: raw[2],
            ..before
        })
    }
}

impl SensorService {
    pub fn with_calibration(calibration: CalibrationSettings) -> (result: Self)
        ensures
            result.reference_x.bits == 0 && result.reference_y.bits == 0 && result.reference_z.bits
                == 0,
            result.last_raw_x.bits == 0 && result.last_raw_y.bits == 0 && result.last_raw_z.bits == 0,
            result.calibration == calibration,
    {
        SensorService {
            reference_x: Double::zero(),
            reference_y: Double::zero(),
            reference_z: Double::zero(),
            calibration,
            last_raw_x: Double::zero(),
            last_raw_y: Double::zero(),
            last_raw_z: Double::zero(),
        }
    }

    /// The calibrated reading of a packet. One that is too short reads as no
    /// field and leaves the last raw readings alone.
    pub fn process_data(&mut self, packet: &[u8]) -> (result: RawSensorData)
        ensures
            reads(*old(self), *final(self), packet@, result),
    {
        if packet.len() < 7 {
            return RawSensorData::default();
        }
        let scale: Double = self.calibration.count_to_nt;
        let raw_x: Double = Double::whole(read_count(packet[0], packet[1])).times(scale);
        let raw_y: Double = Double::whole(read_count(packet[2], packet[3])).times(scale);
        let raw_z: Double = Double::whole(read_count(packet[4], packet[5])).times(scale);
        self.last_raw_x = raw_x;
        self.last_raw_y = raw_y;
        self.last_raw_z = raw_z;
        let hard_iron: [Double; 3] = self.calibration.hard_iron;
        let reading: [Double; 3] = [
            raw_x.minus(hard_iron[0]).minus(self.reference_x),
            raw_y.minus(hard_iron[1]).minus(self.reference_y),
            raw_z.minus(hard_iron[2]).minus(self.reference_z),
        ];
        let soft_iron: [[Double; 3]; 3] = self.calibration.soft_iron;
        proof {
            let raw = readings(packet@, scale);
            assert(reading@ =~= seq![
                centred(raw[0], self.calibration.hard_iron[0], self.reference_x),
                centred(raw[1], self.calibration.hard_iron[1], self.reference_y),
                centred(raw[2], self.calibration.hard_iron[2], self.reference_z),
            ]);
        }
        RawSensorData {
            mag_x: weigh(&soft_iron[0], &reading),
            mag_y: weigh(&soft_iron[1], &reading),
            mag_z: weigh(&soft_iron[2], &reading),
        }
    }

    /// Takes the current reading as zero, on top of what was taken before.
    pub fn set_zero(&mut self, current_x: Double, current_y: Double, current_z: Double)
        ensures
            *final(self) == (SensorService {
                reference_x: arithmetic::sum(old(self).reference_x, current_x),
                reference_y: arithmetic::sum(old(self).reference_y, current_y),
                reference_z: arithmetic::sum(old(self).reference_z, current_z),
                ..*old(self)
            }),
    {
        self.reference_x = self.reference_x.plus(current_x);
        self.reference_y = self.reference_y.plus(current_y);
        self.reference_z = self.reference_z.plus(current_z);
    }

    pub fn last_raw_x(&self) -> (result: Double)
        ensures
            result == self.last_raw_x,
    {
        self.last_raw_x
    }

    pub fn last_raw_y(&self) -> (result: Double)
        ensures
            result == self.last_raw_y,
    {
        self.last_raw_y
    }

    pub fn last_raw_z(&self) -> (result: Double)
        ensures
            result == self.last_raw_z,
    {
        self.last_raw_z
    }
}

/// A count is signed: with every bit of its two bytes turned, it lies as far on the
/// other side of minus a half.
pub proof fn law_counts_are_signed(high: u8, low: u8)
    ensures
        -0x8000 <= count_of(high, low) <= 0x7fff,
        count_of((255 - high) as u8, (255 - low) as u8) == -1 - count_of(high, low),
        high < 255 && high != 127 ==> count_of((high + 1) as u8, low) == count_of(high, low) + 256,
        low < 255 ==> count_of(high, (low + 1) as u8) == count_of(high, low) + 1,
{
}

/// A raw reading is the count times the scale, as closely as numbers can tell.
pub proof fn law_raw_readings_are_scaled_counts(
    before: SensorService,
    after: SensorService,
    packet: Seq<u8>,
    result: RawSensorData,
    axis: int,
)
    requires
        0 <= axis < 3,
        packet.len() >= 7,
        reads(before, after, packet, result),
        before.calibration.count_to_nt.finite(),
        (seq![after.last_raw_x, after.last_raw_y, after.last_raw_z])[axis].finite(),
    ensures
        ({
            let raw = (seq![after.last_raw_x, after.last_raw_y, after.last_raw_z])[axis].units();
            let count = count_of(packet[2 * axis], packet[2 * axis + 1]);
            let scale = before.calibration.count_to_nt.units();
            let half: int = 0x10_0000_0000_0000;
            2 * half * accuracy::apart(count * scale, raw) <= accuracy::apart(raw, 0) + half
        }),
{
    let count = count_of(packet[2 * axis], packet[2 * axis + 1]);
    let scale = before.calibration.count_to_nt;
    whole::law_whole_numbers_are_exact(count);
    accuracy::law_whole_multiples_are_close(count, scale);
}

/// The three components of a reading.
pub open spec fn component(reading: RawSensorData, axis: int) -> Double {
    if axis == 0 {
        reading.mag_x
    } else if axis == 1 {
        reading.mag_y
    } else {
        reading.mag_z
    }
}

/// The reference that is taken off an axis.
pub open spec fn reference(service: SensorService, axis: int) -> Double {
    if axis == 0 {
        service.reference_x
    } else if axis == 1 {
        service.reference_y
    } else {
        service.reference_z
    }
}

/// That a row of the soft-iron matrix takes over one axis and no other.
pub open spec fn takes_over(row: Seq<Double>, axis: int) -> bool {
    forall|i: int|
        0 <= i < 3 ==> #[trigger] row[i] == (if i == axis {
            Double { bits: 0x3ff0_0000_0000_0000 }
        } else {
            Double { bits: 0 }
        })
}

proof fn lemma_takes_over(row: Seq<Double>, reading: Seq<Double>, axis: int)
    requires
        0 <= axis < 3,
        takes_over(row, axis),
        reading[0].finite(),
        reading[1].finite(),
        reading[2].finite(),
    ensures
        weighed(row, reading).equals(reading[axis]),
{
    let zero = Double { bits: 0 };
    assert(row[0] == row[0] && row[1] == row[1] && row[2] == row[2]);
    arithmetic::law_one_times_a_number(reading[axis]);
    assert forall|i: int| 0 <= i < 3 && i != axis implies (#[trigger] arithmetic::product(
        row[i],
        reading[i],
    )).magnitude() == 0 by {
        arithmetic::law_zero_times_a_number(reading[i], zero);
        arithmetic::law_factors_may_change_places(reading[i], zero);
    }
    let a = arithmetic::product(row[0], reading[0]);
    let b = arithmetic::product(row[1], reading[1]);
    let c = arithmetic::product(row[2], reading[2]);
    arithmetic::law_terms_may_change_places(a, b);
    if axis == 0 {
        arithmetic::law_zero_adds_nothing(a, b);
        arithmetic::law_zero_adds_nothing(arithmetic::sum(a, b), c);
    } else if axis == 1 {
        arithmetic::law_zero_adds_nothing(b, a);
        arithmetic::law_zero_adds_nothing(arithmetic::sum(a, b), c);
    } else {
        arithmetic::law_zero_adds_nothing(a, b);
        arithmetic::law_terms_may_change_places(arithmetic::sum(a, b), c);
        arithmetic::law_zero_adds_nothing(c, arithmetic::sum(a, b));
    }
}

/// What a row of the soft-iron matrix says goes where: a component whose row takes
/// over one axis is the raw reading of that axis, less the hard-iron offset and less
/// the reference of the same axis.
pub proof fn law_soft_iron_rows_pick_their_axes(
    service: SensorService,
    raw: Seq<Double>,
    axis: int,
    from: int,
)
    requires
        raw.len() == 3,
        0 <= axis < 3,
        0 <= from < 3,
        takes_over(service.calibration.soft_iron[axis]@, from),
        forall|i: int|
            0 <= i < 3 ==> arithmetic::difference(
                arithmetic::difference(#[trigger] raw[i], service.calibration.hard_iron[i]),
                reference(service, i),
            ).finite(),
    ensures
        component(calibrated(service, raw), axis).equals(
            arithmetic::difference(
                arithmetic::difference(raw[from], service.calibration.hard_iron[from]),
                reference(service, from),
            ),
        ),
{
    let calibration = service.calibration;
    let reading = seq![
        centred(raw[0], calibration.hard_iron[0], service.reference_x),
        centred(raw[1], calibration.hard_iron[1], service.reference_y),
        centred(raw[2], calibration.hard_iron[2], service.reference_z),
    ];
    assert(raw[0] == raw[0] && raw[1] == raw[1] && raw[2] == raw[2]);
    lemma_takes_over(calibration.soft_iron[axis]@, reading, from);
}

/// The service with what it reads now taken as zero.
pub open spec fn zeroed(service: SensorService, current: RawSensorData) -> SensorService {
    SensorService {
        reference_x: arithmetic::sum(service.reference_x, current.mag_x),
        reference_y: arithmetic::sum(service.reference_y, current.mag_y),
        reference_z: arithmetic::sum(service.reference_z, current.mag_z),
        ..service
    }
}

/// What was taken as zero reads as zero: once a service that has taken nothing off
/// yet, and has no soft iron to correct, is zeroed with what it reads, the same
/// packet reads as no field.
pub proof fn law_zeroed_readings_are_zero(service: SensorService, raw: Seq<Double>)
    requires
        raw.len() == 3,
        service.reference_x == (Double { bits: 0 }),
        service.reference_y == (Double { bits: 0 }),
        service.reference_z == (Double { bits: 0 }),
        forall|i: int| 0 <= i < 3 ==> takes_over(#[trigger] service.calibration.soft_iron[i]@, i),
        forall|i: int|
            0 <= i < 3 ==> arithmetic::difference(
                #[trigger] raw[i],
                service.calibration.hard_iron[i],
            ).finite(),
    ensures
        ({
            let current = calibrated(service, raw);
            let after = calibrated(zeroed(service, current), raw);
            &&& after.mag_x.magnitude() == 0
            &&& after.mag_y.magnitude() == 0
            &&& after.mag_z.magnitude() == 0
        }),
{
    let current = calibrated(service, raw);
    let after = zeroed(service, current);
    let hard = service.calibration.hard_iron;
    lemma_zeroed(arithmetic::difference(raw[0], hard[0]));
    lemma_zeroed(arithmetic::difference(raw[1], hard[1]));
    lemma_zeroed(arithmetic::difference(raw[2], hard[2]));
    assert(takes_over(service.calibration.soft_iron[0]@, 0));
    assert(takes_over(service.calibration.soft_iron[1]@, 1));
    assert(takes_over(service.calibration.soft_iron[2]@, 2));
    law_soft_iron_rows_pick_their_axes(service, raw, 0, 0);
    law_soft_iron_rows_pick_their_axes(service, raw, 1, 1);
    law_soft_iron_rows_pick_their_axes(service, raw, 2, 2);
    lemma_taken_off(arithmetic::difference(raw[0], hard[0]), current.mag_x);
    lemma_taken_off(arithmetic::difference(raw[1], hard[1]), current.mag_y);
    lemma_taken_off(arithmetic::difference(raw[2], hard[2]), current.mag_z);
    law_soft_iron_rows_pick_their_axes(after, raw, 0, 0);
    law_soft_iron_rows_pick_their_axes(after, raw, 1, 1);
    law_soft_iron_rows_pick_their_axes(after, raw, 2, 2);
}

proof fn lemma_zeroed(reading: Double)
    requires
        reading.finite(),
    ensures
        arithmetic::difference(reading, Double { bits: 0 }).equals(reading),
        arithmetic::difference(reading, Double { bits: 0 }).finite(),
{
    arithmetic::law_zero_adds_nothing(reading, (Double { bits: 0 }).negated());
}

proof fn lemma_taken_off(reading: Double, current: Double)
    requires
        reading.finite(),
        current.equals(reading) || current.equals(
            arithmetic::difference(reading, Double { bits: 0 }),
        ),
    ensures
        ({
            let taken = arithmetic::sum(Double { bits: 0 }, current);
            let left = arithmetic::difference(reading, taken);
            left.finite() && left.magnitude() == 0
        }),
{
    let zero = Double { bits: 0 };
    lemma_zeroed(reading);
    arithmetic::law_terms_may_change_places(zero, current);
    arithmetic::law_zero_adds_nothing(current, zero);
    let taken = arithmetic::sum(zero, current);
    order::law_units_follow_rank(taken, reading);
    assert(taken.negated().units() == -taken.units());
}

} // verus!

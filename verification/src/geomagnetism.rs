//! The Earth's field at a place and a date.
pub mod calendar;
pub mod expansion;
pub mod height;
pub mod sidereal;
pub mod symmetry;
pub mod wmm2025;

use crate::accuracy;
use crate::angle;
use crate::angle::Turn;
use crate::arithmetic;
use crate::double::Double;
use crate::geomagnetism::expansion::{Angles, Coefficients};
use crate::setpoint;
use crate::whole;
use vstd::prelude::*;

verus! {

/// 90 degrees.
pub const RIGHT_ANGLE: u64 = 0x4056_8000_0000_0000;

/// 180 degrees.
pub const HALF_TURN: u64 = 0x4066_8000_0000_0000;

pub const ONE: u64 = 0x3ff0_0000_0000_0000;

pub const TWO: u64 = 0x4000_0000_0000_0000;

/// Days in a Julian year.
pub const YEAR_DAYS: u64 = 0x4076_d400_0000_0000;

#[derive(Debug, Clone, Copy, PartialEq, Eq, Structural)]
pub struct Coordinate {
    pub latitude: Double,
    pub longitude: Double,
}

#[derive(Debug, Clone, Copy, PartialEq, Eq, Structural)]
pub enum CoordinateError {
    NonFiniteLatitude,
    NonFiniteLongitude,
    LatitudeOutOfRange,
    LongitudeOutOfRange,
    NonFiniteElevation,
}

impl CoordinateError {
    pub open spec fn text(self) -> Seq<char> {
        match self {
            CoordinateError::NonFiniteLatitude => "latitude must be finite"@,
            CoordinateError::NonFiniteLongitude => "longitude must be finite"@,
            CoordinateError::LatitudeOutOfRange => "latitude must be between -90 and 90 degrees"@,
            CoordinateError::LongitudeOutOfRange =>
                "longitude must be between -180 and 180 degrees"@,
            CoordinateError::NonFiniteElevation => "elevation must be finite"@,
        }
    }

    /// The error in words.
    pub fn message(self) -> (result: &'static str)
        ensures
            result@ == self.text(),
    {
        match self {
            CoordinateError::NonFiniteLatitude => "latitude must be finite",
            CoordinateError::NonFiniteLongitude => "longitude must be finite",
            CoordinateError::LatitudeOutOfRange => "latitude must be between -90 and 90 degrees",
            CoordinateError::LongitudeOutOfRange => "longitude must be between -180 and 180 degrees",
            CoordinateError::NonFiniteElevation => "elevation must be finite",
        }
    }
}

/// Whether a number lies between `-limit` and `limit`.
pub open spec fn within(number: Double, limit: Double) -> bool {
    limit.negated().at_most(number) && number.at_most(limit)
}

fn is_within(number: Double, limit: Double) -> (result: bool)
    ensures
        result == within(number, limit),
{
    limit.neg().le(number) && number.le(limit)
}

/// What is wrong with a place on the globe, if anything is.
pub open spec fn place_fault(latitude: Double, longitude: Double) -> Option<CoordinateError> {
    if !latitude.finite() {
        Some(CoordinateError::NonFiniteLatitude)
    } else if !longitude.finite() {
        Some(CoordinateError::NonFiniteLongitude)
    } else if !within(latitude, Double { bits: RIGHT_ANGLE }) {
        Some(CoordinateError::LatitudeOutOfRange)
    } else if !within(longitude, Double { bits: HALF_TURN }) {
        Some(CoordinateError::LongitudeOutOfRange)
    } else {
        None
    }
}

impl Coordinate {
    pub fn new(latitude: Double, longitude: Double) -> (result: Result<Self, CoordinateError>)
        ensures
            result == (match place_fault(latitude, longitude) {
                Some(fault) => Err::<Coordinate, CoordinateError>(fault),
                None => Ok::<Coordinate, CoordinateError>(Coordinate { latitude, longitude }),
            }),
    {
        if !latitude.is_finite() {
            return Err(CoordinateError::NonFiniteLatitude);
        }
        if !longitude.is_finite() {
            return Err(CoordinateError::NonFiniteLongitude);
        }
        if !is_within(latitude, Double::from_bits(RIGHT_ANGLE)) {
            return Err(CoordinateError::LatitudeOutOfRange);
        }
        if !is_within(longitude, Double::from_bits(HALF_TURN)) {
            return Err(CoordinateError::LongitudeOutOfRange);
        }
        Ok(Coordinate { latitude, longitude })
    }
}

#[derive(Debug, Clone, Copy, PartialEq, Eq, Structural)]
pub struct CoordinateZ {
    pub latitude: Double,
    pub longitude: Double,
    /// Height in kilometres. Ground calculations use zero.
    pub elevation: Double,
}

/// What is wrong with a place above the globe, if anything is.
pub open spec fn height_fault(
    latitude: Double,
    longitude: Double,
    elevation: Double,
) -> Option<CoordinateError> {
    match place_fault(latitude, longitude) {
        Some(fault) => Some(fault),
        None => if elevation.finite() {
            None
        } else {
            Some(CoordinateError::NonFiniteElevation)
        },
    }
}

impl CoordinateZ {
    pub fn new(latitude: Double, longitude: Double, elevation: Double) -> (result: Result<
        Self,
        CoordinateError,
    >)
        ensures
            result == (match height_fault(latitude, longitude, elevation) {
                Some(fault) => Err::<CoordinateZ, CoordinateError>(fault),
                None => Ok::<CoordinateZ, CoordinateError>(
                    (CoordinateZ { latitude, longitude, elevation }),
                ),
            }),
    {
        match Coordinate::new(latitude, longitude) {
            Err(error) => Err(error),
            Ok(_) => if elevation.is_finite() {
                Ok(CoordinateZ { latitude, longitude, elevation })
            } else {
                Err(CoordinateError::NonFiniteElevation)
            },
        }
    }

    pub fn coordinate(self) -> (result: Coordinate)
        ensures
            result == (Coordinate { latitude: self.latitude, longitude: self.longitude }),
    {
        Coordinate { latitude: self.latitude, longitude: self.longitude }
    }
}

#[derive(Debug, Clone, Copy, PartialEq, Eq, Structural, PartialOrd, Ord)]
pub struct UtcDateTime {
    pub year: i32,
    pub month: u8,
    pub day: u8,
    pub hour: u8,
    pub minute: u8,
    pub second: u8,
    pub millisecond: u16,
}

#[derive(Debug, Clone, Copy, PartialEq, Eq, Structural)]
pub enum DateError {
    InvalidDate,
    InvalidTime,
}

impl DateError {
    pub open spec fn text(self) -> Seq<char> {
        match self {
            DateError::InvalidDate => "invalid UTC calendar date"@,
            DateError::InvalidTime => "invalid UTC time"@,
        }
    }

    /// The error in words.
    pub fn message(self) -> (result: &'static str)
        ensures
            result@ == self.text(),
    {
        match self {
            DateError::InvalidDate => "invalid UTC calendar date",
            DateError::InvalidTime => "invalid UTC time",
        }
    }
}

/// Whether a year has a 29th of February.
pub open spec fn leap(year: int) -> bool {
    year % 4 == 0 && (year % 100 != 0 || year % 400 == 0)
}

/// How many days a month has; none, where there is no such month.
pub open spec fn month_length(year: int, month: int) -> int {
    if month == 2 {
        if leap(year) {
            29
        } else {
            28
        }
    } else if month == 4 || month == 6 || month == 9 || month == 11 {
        30
    } else if 1 <= month <= 12 {
        31
    } else {
        0
    }
}

/// How many days a month of the year has.
pub fn days_in_month(year: i32, month: u8) -> (result: u8)
    ensures
        result == month_length(year as int, month as int),
{
    match month {
        1 | 3 | 5 | 7 | 8 | 10 | 12 => 31,
        4 | 6 | 9 | 11 => 30,
        2 => if divides(4, year) && (!divides(100, year) || divides(400, year)) {
            29
        } else {
            28
        },
        _ => 0,
    }
}

/// Whether `divisor` divides `year`.
fn divides(divisor: i64, year: i32) -> (result: bool)
    requires
        divisor == 4 || divisor == 100 || divisor == 400,
    ensures
        result == (year as int % divisor as int == 0),
{
    // A whole number of 400-year cycles further on nothing has changed.
    let shifted: i64 = year as i64 + 2_147_484_000;
    shifted % divisor == 0
}

impl UtcDateTime {
    /// What is wrong with a date and a time, if anything is.
    pub open spec fn fault(self) -> Option<DateError> {
        if !(1 <= self.year <= 9999 && 1 <= self.month <= 12 && 1 <= self.day <= month_length(
            self.year as int,
            self.month as int,
        )) {
            Some(DateError::InvalidDate)
        } else if self.hour > 23 || self.minute > 59 || self.second > 59 || self.millisecond > 999 {
            Some(DateError::InvalidTime)
        } else {
            None
        }
    }

    pub open spec fn valid(self) -> bool {
        self.fault() is None
    }

    /// That the days up to the date can be counted in 32 bits.
    pub open spec fn countable(self) -> bool {
        i32::MIN < self.year <= i32::MAX - 4716
    }

    /// That this comes before `other`.
    pub open spec fn before(self, other: UtcDateTime) -> bool {
        if self.year != other.year {
            self.year < other.year
        } else if self.month != other.month {
            self.month < other.month
        } else if self.day != other.day {
            self.day < other.day
        } else if self.hour != other.hour {
            self.hour < other.hour
        } else if self.minute != other.minute {
            self.minute < other.minute
        } else if self.second != other.second {
            self.second < other.second
        } else {
            self.millisecond < other.millisecond
        }
    }

    pub fn new(
        year: i32,
        month: u8,
        day: u8,
        hour: u8,
        minute: u8,
        second: u8,
        millisecond: u16,
    ) -> (result: Result<Self, DateError>)
        ensures
            ({
                let time = UtcDateTime { year, month, day, hour, minute, second, millisecond };
                result == (match time.fault() {
                    Some(fault) => Err::<UtcDateTime, DateError>(fault),
                    None => Ok::<UtcDateTime, DateError>(time),
                })
            }),
    {
        if year < 1 || year > 9999 || month < 1 || month > 12 || day < 1 || day > days_in_month(
            year,
            month,
        ) {
            return Err(DateError::InvalidDate);
        }
        if hour > 23 || minute > 59 || second > 59 || millisecond > 999 {
            return Err(DateError::InvalidTime);
        }
        Ok(UtcDateTime { year, month, day, hour, minute, second, millisecond })
    }

    /// Midnight at the start of a day.
    pub fn date(year: i32, month: u8, day: u8) -> (result: Result<Self, DateError>)
        ensures
            ({
                let time = UtcDateTime {
                    year,
                    month,
                    day,
                    hour: 0,
                    minute: 0,
                    second: 0,
                    millisecond: 0,
                };
                result == (match time.fault() {
                    Some(fault) => Err::<UtcDateTime, DateError>(fault),
                    None => Ok::<UtcDateTime, DateError>(time),
                })
            }),
    {
        UtcDateTime::new(year, month, day, 0, 0, 0, 0)
    }

    /// Whether this comes before `other`.
    pub fn is_before(self, other: UtcDateTime) -> (result: bool)
        ensures
            result == self.before(other),
    {
        if self.year != other.year {
            self.year < other.year
        } else if self.month != other.month {
            self.month < other.month
        } else if self.day != other.day {
            self.day < other.day
        } else if self.hour != other.hour {
            self.hour < other.hour
        } else if self.minute != other.minute {
            self.minute < other.minute
        } else if self.second != other.second {
            self.second < other.second
        } else {
            self.millisecond < other.millisecond
        }
    }

    /// That the date stands in the Julian calendar.
    pub open spec fn julian(self) -> bool {
        self.year < 1582 || (self.year == 1582 && (self.month < 10 || (self.month == 10 && self.day
            < 5)))
    }

    /// The month, counted from the March before: January and February belong to
    /// the year that went.
    pub open spec fn shifted_month(self) -> int {
        if self.month > 2 {
            self.month as int
        } else {
            self.month + 12
        }
    }

    pub open spec fn shifted_year(self) -> int {
        if self.month > 2 {
            self.year as int
        } else {
            self.year - 1
        }
    }

    /// The days by which the Gregorian calendar has moved.
    pub open spec fn reform(self) -> int {
        if self.julian() {
            0
        } else {
            2 - self.shifted_year() / 100 + (self.shifted_year() / 100) / 4
        }
    }

    /// The day of the month, with the time of day behind the point.
    pub open spec fn day_and_time(self) -> Double {
        let seconds = arithmetic::sum(
            arithmetic::whole_number(self.second as int),
            arithmetic::quotient(
                arithmetic::whole_number(self.millisecond as int),
                Double { bits: 0x408f_4000_0000_0000 },
            ),
        );
        arithmetic::sum(
            arithmetic::sum(
                arithmetic::sum(
                    arithmetic::whole_number(self.day as int),
                    arithmetic::quotient(
                        arithmetic::whole_number(self.hour as int),
                        Double { bits: 0x4038_0000_0000_0000 },
                    ),
                ),
                arithmetic::quotient(
                    arithmetic::whole_number(self.minute as int),
                    Double { bits: 0x4096_8000_0000_0000 },
                ),
            ),
            arithmetic::quotient(seconds, Double { bits: 0x40f5_1800_0000_0000 }),
        )
    }

    /// The Julian day.
    pub open spec fn julian_days(self) -> Double {
        let years = whole::truncated(
            arithmetic::product(
                Double { bits: YEAR_DAYS },
                arithmetic::whole_number(self.shifted_year() + 4716),
            ),
        );
        let months = whole::truncated(
            arithmetic::product(
                Double { bits: 0x403e_99a0_2752_5461 },
                arithmetic::whole_number(self.shifted_month() + 1),
            ),
        );
        arithmetic::difference(
            arithmetic::sum(
                arithmetic::sum(arithmetic::sum(years, months), self.day_and_time()),
                arithmetic::whole_number(self.reform()),
            ),
            Double { bits: 0x4097_d200_0000_0000 },
        )
    }

    /// The days since noon of 1 January 2000.
    pub open spec fn epoch_days(self) -> Double {
        arithmetic::difference(self.julian_days(), Double { bits: 0x4142_b42c_8000_0000 })
    }

    /// How far the Earth has turned under the stars since noon of 1 January 2000,
    /// in degrees: 280.46061837, and 360.98564736629 for every day, with a
    /// quadratic and a cubic term in centuries.
    pub open spec fn turned_degrees(self) -> Double {
        let days = self.epoch_days();
        let centuries = arithmetic::quotient(days, Double { bits: 0x40e1_d5a0_0000_0000 });
        let steady = arithmetic::sum(
            Double { bits: 0x4071_875e_b15e_3164 },
            arithmetic::product(Double { bits: 0x4076_8fc5_362c_39aa }, days),
        );
        let quadratic = arithmetic::product(
            arithmetic::product(Double { bits: 0x3f39_6c6f_8c4c_4b7f }, centuries),
            centuries,
        );
        let cubic = arithmetic::quotient(
            arithmetic::product(arithmetic::product(centuries, centuries), centuries),
            Double { bits: 0x4182_7557_8000_0000 },
        );
        arithmetic::difference(arithmetic::sum(steady, quadratic), cubic)
    }

    /// The mean sidereal time at Greenwich in degrees, whole turns left in.
    pub fn sidereal_degrees(self) -> (result: Double)
        requires
            self.countable(),
        ensures
            result == self.turned_degrees(),
    {
        let days: Double = self.julian_day().minus(Double::from_bits(0x4142_b42c_8000_0000));
        let centuries: Double = days.over(Double::from_bits(0x40e1_d5a0_0000_0000));
        let steady: Double = Double::from_bits(0x4071_875e_b15e_3164).plus(
            Double::from_bits(0x4076_8fc5_362c_39aa).times(days),
        );
        let quadratic: Double = Double::from_bits(0x3f39_6c6f_8c4c_4b7f).times(centuries).times(
            centuries,
        );
        let cubic: Double = centuries.times(centuries).times(centuries).over(
            Double::from_bits(0x4182_7557_8000_0000),
        );
        steady.plus(quadratic).minus(cubic)
    }

    /// The mean sidereal time at Greenwich in radians, within one turn.
    pub open spec fn gmst(self) -> Double {
        angle::in_radians(
            arithmetic::least_remainder(
                self.turned_degrees(),
                Double { bits: angle::WHOLE_TURN },
            ),
        )
    }

    /// The mean sidereal time at Greenwich in radians.
    pub fn gmst_radians(self) -> (result: Double)
        requires
            self.countable(),
        ensures
            result == self.gmst(),
    {
        self.sidereal_degrees().rem_euclid(Double::from_bits(angle::WHOLE_TURN)).to_radians()
    }

    /// The Julian day, with the time of day behind the point.
    pub fn julian_day(self) -> (result: Double)
        requires
            self.countable(),
        ensures
            result == self.julian_days(),
    {
        let is_julian: bool = self.year < 1582 || (self.year == 1582 && (self.month < 10 || (
        self.month == 10 && self.day < 5)));
        let month: i64 = if self.month > 2 {
            self.month as i64
        } else {
            self.month as i64 + 12
        };
        let year: i64 = if self.month > 2 {
            self.year as i64
        } else {
            self.year as i64 - 1
        };
        let seconds: Double = Double::whole(self.second as i64).plus(
            Double::whole(self.millisecond as i64).over(Double::from_bits(0x408f_4000_0000_0000)),
        );
        let day: Double = Double::whole(self.day as i64).plus(
            Double::whole(self.hour as i64).over(Double::from_bits(0x4038_0000_0000_0000)),
        ).plus(Double::whole(self.minute as i64).over(Double::from_bits(0x4096_8000_0000_0000))).plus(
            seconds.over(Double::from_bits(0x40f5_1800_0000_0000)),
        );
        let reform: i64 = if is_julian {
            0
        } else {
            2 - year / 100 + (year / 100) / 4
        };
        let years: Double = Double::from_bits(YEAR_DAYS).times(Double::whole(year + 4716)).trunc();
        let months: Double = Double::from_bits(0x403e_99a0_2752_5461).times(
            Double::whole(month + 1),
        ).trunc();
        years.plus(months).plus(day).plus(Double::whole(reform)).minus(
            Double::from_bits(0x4097_d200_0000_0000),
        )
    }
}

/// Of two different moments exactly one comes before the other, and a moment
/// does not come before itself.
pub proof fn law_moments_are_ordered(left: UtcDateTime, right: UtcDateTime)
    ensures
        left != right ==> left.before(right) != right.before(left),
        !left.before(left),
{
}

/// What comes before something that comes before a third comes before that too.
pub proof fn law_the_order_of_moments_carries(
    first: UtcDateTime,
    second: UtcDateTime,
    third: UtcDateTime,
)
    requires
        first.before(second),
        second.before(third),
    ensures
        first.before(third),
{
}

/// The reference ellipsoid.
#[derive(Debug, Clone, Copy, PartialEq, Eq, Structural)]
pub struct Wgs84 {
    pub equatorial_axis_m: Double,
    pub inverse_flattening: Double,
}

/// The ellipsoid of WGS 84: an equatorial axis of 6378137 metres, and a flattening
/// of one in 298.257223563.
pub open spec fn wgs84() -> Wgs84 {
    Wgs84 {
        equatorial_axis_m: Double { bits: 0x4158_54a6_4000_0000 },
        inverse_flattening: Double { bits: 0x4072_a41d_9674_6d88 },
    }
}

impl Default for Wgs84 {
    fn default() -> (result: Self)
        ensures
            result == wgs84(),
    {
        Wgs84 {
            equatorial_axis_m: Double::from_bits(0x4158_54a6_4000_0000),
            inverse_flattening: Double::from_bits(0x4072_a41d_9674_6d88),
        }
    }
}

impl Wgs84 {
    pub open spec fn flattened(self) -> Double {
        arithmetic::quotient(Double { bits: ONE }, self.inverse_flattening)
    }

    pub open spec fn polar(self) -> Double {
        arithmetic::product(
            self.equatorial_axis_m,
            arithmetic::difference(Double { bits: ONE }, self.flattened()),
        )
    }

    pub open spec fn eccentric(self) -> Double {
        arithmetic::root(
            arithmetic::difference(
                arithmetic::product(Double { bits: TWO }, self.flattened()),
                arithmetic::product(self.flattened(), self.flattened()),
            ),
        )
    }

    pub fn flattening(self) -> (result: Double)
        ensures
            result == self.flattened(),
    {
        Double::from_bits(ONE).over(self.inverse_flattening)
    }

    pub fn polar_axis_m(self) -> (result: Double)
        ensures
            result == self.polar(),
    {
        self.equatorial_axis_m.times(Double::from_bits(ONE).minus(self.flattening()))
    }

    pub fn eccentricity(self) -> (result: Double)
        ensures
            result == self.eccentric(),
    {
        let flattening: Double = self.flattening();
        Double::from_bits(TWO).times(flattening).minus(flattening.times(flattening)).sqrt()
    }

    pub fn mean_radius_m(self) -> (result: Double)
        ensures
            result == arithmetic::quotient(
                arithmetic::sum(
                    arithmetic::product(Double { bits: TWO }, self.equatorial_axis_m),
                    self.polar(),
                ),
                Double { bits: 0x4008_0000_0000_0000 },
            ),
    {
        Double::from_bits(TWO).times(self.equatorial_axis_m).plus(self.polar_axis_m()).over(
            Double::from_bits(0x4008_0000_0000_0000),
        )
    }
}

/// A field vector: north, east and down.
#[derive(Debug, Clone, Copy, PartialEq, Eq, Structural)]
pub struct FieldVector {
    pub x: Double,
    pub y: Double,
    pub z: Double,
}

impl FieldVector {
    pub open spec fn level(self) -> Double {
        arithmetic::root(
            arithmetic::sum(
                arithmetic::product(self.x, self.x),
                arithmetic::product(self.y, self.y),
            ),
        )
    }

    /// The level part of the field.
    pub fn horizontal_intensity(self) -> (result: Double)
        ensures
            result == self.level(),
    {
        self.x.times(self.x).plus(self.y.times(self.y)).sqrt()
    }

    /// The whole of the field.
    pub fn total_intensity(self) -> (result: Double)
        ensures
            result == setpoint::length_of(seq![self.x, self.y, self.z]),
    {
        let vector: [Double; 3] = [self.x, self.y, self.z];
        assert(vector@ =~= seq![self.x, self.y, self.z]);
        setpoint::magnitude(vector)
    }
}

#[derive(Debug, Clone, Copy, PartialEq, Eq, Structural)]
pub struct GeomagnetismResult {
    pub coordinate: CoordinateZ,
    pub date: UtcDateTime,
    pub x: Double,
    pub y: Double,
    pub z: Double,
    pub declination: Double,
    pub inclination: Double,
    pub total_intensity: Double,
    pub horizontal_intensity: Double,
}

/// What is reported of a field, given the declination and the inclination in
/// radians.
pub open spec fn reported(
    coordinate: CoordinateZ,
    date: UtcDateTime,
    field: FieldVector,
    declination: Double,
    inclination: Double,
) -> GeomagnetismResult {
    GeomagnetismResult {
        coordinate,
        date,
        x: field.x,
        y: field.y,
        z: field.z,
        declination: angle::in_degrees(declination),
        inclination: angle::in_degrees(inclination),
        total_intensity: setpoint::length_of(seq![field.x, field.y, field.z]),
        horizontal_intensity: field.level(),
    }
}

impl GeomagnetismResult {
    /// The report of a field, with the two angles in radians: the declination is
    /// the arc tangent of `y` and `x`, the inclination that of `z` and the
    /// horizontal intensity.
    pub fn new(
        coordinate: CoordinateZ,
        date: UtcDateTime,
        field: FieldVector,
        declination: Double,
        inclination: Double,
    ) -> (result: Self)
        ensures
            result == reported(coordinate, date, field, declination, inclination),
    {
        GeomagnetismResult {
            coordinate,
            date,
            x: field.x,
            y: field.y,
            z: field.z,
            declination: declination.to_degrees(),
            inclination: inclination.to_degrees(),
            total_intensity: field.total_intensity(),
            horizontal_intensity: field.horizontal_intensity(),
        }
    }
}

#[derive(Debug, Clone, Copy, PartialEq, Eq, Structural)]
pub enum GeomagnetismError {
    Coordinate(CoordinateError),
}

impl GeomagnetismError {
    /// The error in words.
    pub fn message(self) -> (result: &'static str)
        ensures
            result@ == self->Coordinate_0.text(),
    {
        match self {
            GeomagnetismError::Coordinate(error) => error.message(),
        }
    }
}

impl From<CoordinateError> for GeomagnetismError {
    fn from(value: CoordinateError) -> (result: Self) {
        GeomagnetismError::Coordinate(value)
    }
}

impl vstd::std_specs::convert::FromSpecImpl<CoordinateError> for GeomagnetismError {
    open spec fn obeys_from_spec() -> bool {
        true
    }

    open spec fn from_spec(value: CoordinateError) -> Self {
        GeomagnetismError::Coordinate(value)
    }
}

/// The model that stands from 2025 to 2030.
pub struct Wmm2025;

impl Wmm2025 {
    pub const VALID_FROM_YEAR: i32 = 2025;

    pub const VALID_TO_YEAR: i32 = 2030;

    pub fn valid_from() -> (result: UtcDateTime)
        ensures
            result == new_year(2025),
    {
        UtcDateTime { year: 2025, month: 1, day: 1, hour: 0, minute: 0, second: 0, millisecond: 0 }
    }

    pub fn valid_to() -> (result: UtcDateTime)
        ensures
            result == new_year(2030),
    {
        UtcDateTime { year: 2030, month: 1, day: 1, hour: 0, minute: 0, second: 0, millisecond: 0 }
    }
}

/// The first moment of a year.
pub open spec fn new_year(year: i32) -> UtcDateTime {
    UtcDateTime { year, month: 1, day: 1, hour: 0, minute: 0, second: 0, millisecond: 0 }
}

/// That the model speaks of a date.
pub open spec fn covered(date: UtcDateTime) -> bool {
    !date.before(new_year(2025)) && date.before(new_year(2030))
}

/// The model covers the years 2025 to 2029, all of them and no others.
pub proof fn law_the_model_covers_its_years(date: UtcDateTime)
    requires
        date.valid(),
    ensures
        covered(date) <==> 2025 <= date.year < 2030,
{
}

/// How many years of 365.25 days have passed since the model's first day.
pub open spec fn years_since(date: UtcDateTime) -> Double {
    arithmetic::quotient(
        arithmetic::difference(date.julian_days(), new_year(2025).julian_days()),
        Double { bits: YEAR_DAYS },
    )
}

/// The calculator: an ellipsoid, and the model of the field over it.
pub struct GeomagnetismCalculator {
    pub spheroid: Wgs84,
    pub model: Coefficients,
}

/// That the coefficients are those of the model that stands from 2025 to 2030.
pub open spec fn is_wmm2025(model: Coefficients) -> bool {
    &&& wmm2025::read_from(model.main_g, wmm2025::MAIN_G)
    &&& wmm2025::read_from(model.main_h, wmm2025::MAIN_H)
    &&& wmm2025::read_from(model.secular_g, wmm2025::SECULAR_G)
    &&& wmm2025::read_from(model.secular_h, wmm2025::SECULAR_H)
}

impl Default for GeomagnetismCalculator {
    fn default() -> (result: Self)
        ensures
            result.spheroid == wgs84(),
            is_wmm2025(result.model),
    {
        GeomagnetismCalculator::new()
    }
}

/// The equatorial axis in kilometres.
pub open spec fn axis_km(spheroid: Wgs84) -> Double {
    arithmetic::quotient(spheroid.equatorial_axis_m, Double { bits: 0x408f_4000_0000_0000 })
}

pub open spec fn squared(number: Double) -> Double {
    arithmetic::product(number, number)
}

/// What the spherical coordinates of a place are made of: the two legs of its
/// colatitude, and the radius in kilometres.
pub open spec fn spherical(
    spheroid: Wgs84,
    elevation: Double,
    sine: Double,
    cosine: Double,
) -> (Double, Double, Double) {
    let a = axis_km(spheroid);
    let b = arithmetic::product(
        a,
        arithmetic::difference(Double { bits: ONE }, spheroid.flattened()),
    );
    let a2 = squared(a);
    let a4 = squared(a2);
    let b2 = squared(b);
    let b4 = squared(b2);
    let sr = arithmetic::root(
        arithmetic::sum(
            arithmetic::product(a2, squared(cosine)),
            arithmetic::product(b2, squared(sine)),
        ),
    );
    let lift = arithmetic::product(elevation, sr);
    (
        arithmetic::product(cosine, arithmetic::sum(lift, a2)),
        arithmetic::product(sine, arithmetic::sum(lift, b2)),
        arithmetic::root(
            arithmetic::sum(
                arithmetic::sum(
                    squared(elevation),
                    arithmetic::product(
                        arithmetic::product(Double { bits: TWO }, elevation),
                        sr,
                    ),
                ),
                arithmetic::quotient(
                    arithmetic::difference(
                        a4,
                        arithmetic::product(arithmetic::difference(a4, b4), squared(sine)),
                    ),
                    arithmetic::difference(
                        a2,
                        arithmetic::product(arithmetic::difference(a2, b2), squared(sine)),
                    ),
                ),
            ),
        ),
    )
}

/// A multiple of an angle.
pub open spec fn multiple(count: int, angle: Double) -> Double {
    arithmetic::product(arithmetic::whole_number(count), angle)
}

/// That the angles are those of a place, with the sines, the cosines and the arc
/// tangent that were answered for them.
pub open spec fn measured<
    S: Fn(Double) -> (Double, Double),
    A: Fn(Double, Double) -> Double,
>(sine_cosine: S, arc_tangent: A, spheroid: Wgs84, place: CoordinateZ, angles: Angles) -> bool {
    let legs = spherical(
        spheroid,
        place.elevation,
        angles.latitude.sine,
        angles.latitude.cosine,
    );
    let longitude = angle::in_radians(place.longitude);
    &&& angle::turned(sine_cosine, angle::in_radians(place.latitude), angles.latitude)
    &&& call_ensures(arc_tangent, (legs.0, legs.1), angles.colatitude.angle)
    &&& angle::turned(sine_cosine, angles.colatitude.angle, angles.colatitude)
    &&& forall|order: int|
        1 <= order <= 12 ==> angle::turned(
            sine_cosine,
            multiple(order, longitude),
            #[trigger] angles.longitudes[order],
        )
    &&& angle::turned(
        sine_cosine,
        expansion::tilted(angles.colatitude.angle, angles.latitude.angle),
        angles.tilt,
    )
}

/// The field at a place whose angles are known.
pub open spec fn field_at(
    spheroid: Wgs84,
    model: Coefficients,
    place: CoordinateZ,
    date: UtcDateTime,
    angles: Angles,
) -> FieldVector {
    expansion::field(
        angles,
        spherical(spheroid, place.elevation, angles.latitude.sine, angles.latitude.cosine).2,
        model,
        years_since(date),
    )
}

/// That a field is reported with the declination and the inclination that were
/// answered for it.
pub open spec fn reports<A: Fn(Double, Double) -> Double>(
    arc_tangent: A,
    place: CoordinateZ,
    date: UtcDateTime,
    field: FieldVector,
    report: GeomagnetismResult,
) -> bool {
    exists|declination: Double, inclination: Double|
        {
            &&& call_ensures(arc_tangent, (field.y, field.x), declination)
            &&& call_ensures(arc_tangent, (field.z, field.level()), inclination)
            &&& report == #[trigger] reported(place, date, field, declination, inclination)
        }
}

impl GeomagnetismCalculator {
    pub fn new() -> (result: Self)
        ensures
            result.spheroid == wgs84(),
            is_wmm2025(result.model),
    {
        GeomagnetismCalculator::with_spheroid(Wgs84::default())
    }

    pub fn with_spheroid(spheroid: Wgs84) -> (result: Self)
        ensures
            result.spheroid == spheroid,
            is_wmm2025(result.model),
    {
        GeomagnetismCalculator { spheroid, model: Wmm2025::coefficients() }
    }

    /// What is calculated of a place and a date: an error where there is no such
    /// place, nothing where the model does not speak of the date, and else the
    /// field at that place as its angles give it.
    pub open spec fn calculates<
        S: Fn(Double) -> (Double, Double),
        A: Fn(Double, Double) -> Double,
    >(
        self,
        sine_cosine: S,
        arc_tangent: A,
        place: CoordinateZ,
        date: UtcDateTime,
        result: Result<Option<GeomagnetismResult>, GeomagnetismError>,
    ) -> bool {
        match height_fault(place.latitude, place.longitude, place.elevation) {
            Some(fault) => result == Err::<Option<GeomagnetismResult>, GeomagnetismError>(
                GeomagnetismError::Coordinate(fault),
            ),
            None => if covered(date) {
                result matches Ok(Some(report)) && exists|angles: Angles|
                    {
                        &&& #[trigger] measured(
                            sine_cosine,
                            arc_tangent,
                            self.spheroid,
                            place,
                            angles,
                        )
                        &&& reports(
                            arc_tangent,
                            place,
                            date,
                            field_at(self.spheroid, self.model, place, date, angles),
                            report,
                        )
                    }
            } else {
                result == Ok::<Option<GeomagnetismResult>, GeomagnetismError>(None)
            },
        }
    }

    /// The field on the ground.
    pub fn try_calculate<S: Fn(Double) -> (Double, Double), A: Fn(Double, Double) -> Double>(
        &self,
        coordinate: Coordinate,
        date: UtcDateTime,
        sine_cosine: &S,
        arc_tangent: &A,
    ) -> (result: Result<Option<GeomagnetismResult>, GeomagnetismError>)
        requires
            angle::answers_angles(*sine_cosine),
            angle::answers_legs(*arc_tangent),
        ensures
            self.calculates(
                *sine_cosine,
                *arc_tangent,
                (CoordinateZ {
                    latitude: coordinate.latitude,
                    longitude: coordinate.longitude,
                    elevation: Double { bits: 0 },
                }),
                date,
                result,
            ),
    {
        self.try_calculate_z(
            CoordinateZ {
                latitude: coordinate.latitude,
                longitude: coordinate.longitude,
                elevation: Double::zero(),
            },
            date,
            sine_cosine,
            arc_tangent,
        )
    }

    /// The field at a height in kilometres.
    pub fn try_calculate_at_altitude<
        S: Fn(Double) -> (Double, Double),
        A: Fn(Double, Double) -> Double,
    >(
        &self,
        coordinate: Coordinate,
        altitude: Double,
        date: UtcDateTime,
        sine_cosine: &S,
        arc_tangent: &A,
    ) -> (result: Result<Option<GeomagnetismResult>, GeomagnetismError>)
        requires
            angle::answers_angles(*sine_cosine),
            angle::answers_legs(*arc_tangent),
        ensures
            self.calculates(
                *sine_cosine,
                *arc_tangent,
                (CoordinateZ {
                    latitude: coordinate.latitude,
                    longitude: coordinate.longitude,
                    elevation: altitude,
                }),
                date,
                result,
            ),
    {
        self.try_calculate_z(
            CoordinateZ {
                latitude: coordinate.latitude,
                longitude: coordinate.longitude,
                elevation: altitude,
            },
            date,
            sine_cosine,
            arc_tangent,
        )
    }

    /// The field at a place: an error where there is no such place, nothing
    /// where the model does not speak of the date.
    pub fn try_calculate_z<S: Fn(Double) -> (Double, Double), A: Fn(Double, Double) -> Double>(
        &self,
        coordinate: CoordinateZ,
        date: UtcDateTime,
        sine_cosine: &S,
        arc_tangent: &A,
    ) -> (result: Result<Option<GeomagnetismResult>, GeomagnetismError>)
        requires
            angle::answers_angles(*sine_cosine),
            angle::answers_legs(*arc_tangent),
        ensures
            self.calculates(*sine_cosine, *arc_tangent, coordinate, date, result),
    {
        match CoordinateZ::new(coordinate.latitude, coordinate.longitude, coordinate.elevation) {
            Err(error) => return Err(GeomagnetismError::from(error)),
            Ok(_) => {},
        }
        if date.is_before(Wmm2025::valid_from()) || !date.is_before(Wmm2025::valid_to()) {
            return Ok(None);
        }
        let angles: Angles = self.measure(coordinate, sine_cosine, arc_tangent);
        let field: FieldVector = self.field_by(coordinate, date, &angles);
        let declination: Double = arc_tangent(field.y, field.x);
        let inclination: Double = arc_tangent(field.z, field.horizontal_intensity());
        let report: GeomagnetismResult = GeomagnetismResult::new(
            coordinate,
            date,
            field,
            declination,
            inclination,
        );
        assert(reports(*arc_tangent, coordinate, date, field, report));
        Ok(Some(report))
    }

    /// Asks for the sines and cosines of the angles of a place.
    pub fn measure<S: Fn(Double) -> (Double, Double), A: Fn(Double, Double) -> Double>(
        &self,
        coordinate: CoordinateZ,
        sine_cosine: &S,
        arc_tangent: &A,
    ) -> (result: Angles)
        requires
            angle::answers_angles(*sine_cosine),
            angle::answers_legs(*arc_tangent),
        ensures
            measured(*sine_cosine, *arc_tangent, self.spheroid, coordinate, result),
    {
        let latitude: Turn = angle::turn_by(sine_cosine, coordinate.latitude.to_radians());
        let legs: (Double, Double, Double) = self.spherical_legs(
            coordinate.elevation,
            latitude.sine,
            latitude.cosine,
        );
        let colatitude: Turn = angle::turn_by(sine_cosine, arc_tangent(legs.0, legs.1));
        let longitude: Double = coordinate.longitude.to_radians();
        let mut longitudes: [Turn; 13] = [
            Turn { angle: Double::zero(), sine: Double::zero(), cosine: Double::from_bits(ONE) };
            13
        ];
        let mut order: usize = 1;
        while order <= 12
            invariant
                1 <= order <= 13,
                angle::answers_angles(*sine_cosine),
                forall|i: int|
                    1 <= i < order ==> angle::turned(
                        *sine_cosine,
                        multiple(i, longitude),
                        #[trigger] longitudes[i],
                    ),
            decreases 13 - order,
        {
            longitudes[order] = angle::turn_by(
                sine_cosine,
                Double::whole(order as i64).times(longitude),
            );
            order = order + 1;
        }
        let tilt: Turn = angle::turn_by(
            sine_cosine,
            expansion::tilt(colatitude.angle, latitude.angle),
        );
        Angles { latitude, colatitude, longitudes, tilt }
    }

    /// The field at a place whose angles are known.
    pub fn field_by(&self, coordinate: CoordinateZ, date: UtcDateTime, angles: &Angles) -> (result:
        FieldVector)
        requires
            date.countable(),
        ensures
            result == field_at(self.spheroid, self.model, coordinate, date, *angles),
    {
        let years: Double = date.julian_day().minus(Wmm2025::valid_from().julian_day()).over(
            Double::from_bits(YEAR_DAYS),
        );
        let legs: (Double, Double, Double) = self.spherical_legs(
            coordinate.elevation,
            angles.latitude.sine,
            angles.latitude.cosine,
        );
        expansion::field_of(angles, legs.2, &self.model, years)
    }

    /// Converts geodetic latitude and elevation to the spherical colatitude in
    /// radians and the radius in kilometres.
    pub fn geodetic_to_spherical<
        S: Fn(Double) -> (Double, Double),
        A: Fn(Double, Double) -> Double,
    >(&self, coordinate: CoordinateZ, sine_cosine: &S, arc_tangent: &A) -> (result: (Double, Double))
        requires
            angle::answers_angles(*sine_cosine),
            angle::answers_legs(*arc_tangent),
        ensures
            exists|latitude: Turn|
                {
                    let legs = spherical(
                        self.spheroid,
                        coordinate.elevation,
                        latitude.sine,
                        latitude.cosine,
                    );
                    &&& #[trigger] angle::turned(
                        *sine_cosine,
                        angle::in_radians(coordinate.latitude),
                        latitude,
                    )
                    &&& call_ensures(*arc_tangent, (legs.0, legs.1), result.0)
                    &&& result.1 == legs.2
                },
    {
        let latitude: Turn = angle::turn_by(sine_cosine, coordinate.latitude.to_radians());
        let legs: (Double, Double, Double) = self.spherical_legs(
            coordinate.elevation,
            latitude.sine,
            latitude.cosine,
        );
        (arc_tangent(legs.0, legs.1), legs.2)
    }

    /// What a geodetic latitude, given by its sine and cosine, and a height come to
    /// on the sphere: the two legs whose arc tangent is the colatitude, and the
    /// radius in kilometres.
    pub fn spherical_legs(&self, elevation: Double, sine: Double, cosine: Double) -> (result:
        (Double, Double, Double))
        ensures
            result == spherical(self.spheroid, elevation, sine, cosine),
    {
        let a: Double = self.spheroid.equatorial_axis_m.over(
            Double::from_bits(0x408f_4000_0000_0000),
        );
        let b: Double = a.times(Double::from_bits(ONE).minus(self.spheroid.flattening()));
        let sine2: Double = sine.times(sine);
        let cosine2: Double = cosine.times(cosine);
        let a2: Double = a.times(a);
        let a4: Double = a2.times(a2);
        let b2: Double = b.times(b);
        let b4: Double = b2.times(b2);
        let sr: Double = a2.times(cosine2).plus(b2.times(sine2)).sqrt();
        let lift: Double = elevation.times(sr);
        let radius: Double = elevation.times(elevation).plus(
            Double::from_bits(TWO).times(elevation).times(sr),
        ).plus(a4.minus(a4.minus(b4).times(sine2)).over(a2.minus(a2.minus(b2).times(sine2)))).sqrt();
        (cosine.times(lift.plus(a2)), sine.times(lift.plus(b2)), radius)
    }
}

/// Every order has an angle of its own. The sine and the cosine that a place hands to
/// order `m` of the expansion are those that were answered for `m` times its
/// longitude, as closely as numbers can tell.
pub proof fn law_every_order_asks_for_its_multiple<
    S: Fn(Double) -> (Double, Double),
    A: Fn(Double, Double) -> Double,
>(
    sine_cosine: S,
    arc_tangent: A,
    spheroid: Wgs84,
    place: CoordinateZ,
    angles: Angles,
    order: int,
)
    requires
        measured(sine_cosine, arc_tangent, spheroid, place, angles),
        1 <= order <= 12,
        angle::in_radians(place.longitude).finite(),
        angles.longitudes[order].angle.finite(),
    ensures
        ({
            let turn = angles.longitudes[order];
            let once = angle::in_radians(place.longitude).units();
            let half: int = 0x10_0000_0000_0000;
            &&& call_ensures(sine_cosine, (turn.angle,), (turn.sine, turn.cosine))
            &&& 2 * half * accuracy::apart(order * once, turn.angle.units()) <= accuracy::apart(
                turn.angle.units(),
                0,
            ) + half
        }),
{
    accuracy::law_whole_multiples_are_close(order, angle::in_radians(place.longitude));
}

} // verus!

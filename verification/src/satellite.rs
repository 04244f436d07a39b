//! Satellites: element sets, the tracker that propagates one, and the geometry
//! between the propagated position and the ground.
use crate::angle;
use crate::angle::Turn;
use crate::arithmetic;
use crate::decimal;
use crate::double::Double;
use crate::geomagnetism::{UtcDateTime, Wgs84, ONE};
use crate::geomagnetism;
use crate::order;
use crate::propagation::{ElementSet, Epoch, Propagator, TemePosition};
use crate::propagation;
use crate::setpoint;
use crate::text;
use crate::whole;
use chrono::{Datelike, Timelike};
use vstd::prelude::*;
use vstd::utf8::encode_utf8;

verus! {

#[derive(Debug, Clone, PartialEq, Eq)]
pub enum SatelliteError {
    Tle(String),
    Conversion(String),
    Propagation(String),
}

impl SatelliteError {
    pub open spec fn text(self) -> Seq<char> {
        match self {
            SatelliteError::Tle(message) => "TLE error: "@ + message@,
            SatelliteError::Conversion(message) => "time conversion error: "@ + message@,
            SatelliteError::Propagation(message) => "SGP4 propagation error: "@ + message@,
        }
    }

    /// The error in words.
    pub fn message(&self) -> (result: String)
        ensures
            result@ == self.text(),
    {
        let (head, detail): (&str, &String) = match self {
            SatelliteError::Tle(message) => ("TLE error: ", message),
            SatelliteError::Conversion(message) => ("time conversion error: ", message),
            SatelliteError::Propagation(message) => ("SGP4 propagation error: ", message),
        };
        let mut result: String = head.to_owned();
        result.append(detail.as_str());
        result
    }
}

/// A point of a satellite's path: the geodetic point below it in degrees and
/// kilometres, the propagated position, the same in the Earth-fixed frame, and the
/// propagation that it comes from.
#[derive(Debug, Clone, Copy, PartialEq)]
pub struct SatellitePosition {
    pub latitude: Double,
    pub longitude: Double,
    pub altitude_km: Double,
    pub teme_x_km: Double,
    pub teme_y_km: Double,
    pub teme_z_km: Double,
    pub ecef_km: [Double; 3],
    pub teme: TemePosition,
}

/// A line as it is read. One that ends below `0` ends in a colon instead, which
/// is no digit either, and is refused for its checksum just the same: nothing
/// but the checksum looks at the last character.
pub open spec fn read_line(line: Seq<u8>) -> Seq<u8> {
    if propagation::ends_below_digits(line) {
        line.update(68, 58)
    } else {
        line
    }
}

/// What two lines of text are read as.
pub open spec fn lines_reading(line1: Seq<char>, line2: Seq<char>) -> Result<
    (int, int),
    Seq<char>,
> {
    propagation::tle_reading(read_line(encode_utf8(line1)), read_line(encode_utf8(line2)))
}

/// How many days of the year go before a month.
pub open spec fn days_before(year: int, month: int) -> int
    decreases month,
{
    if month <= 1 {
        0
    } else {
        days_before(year, month - 1) + geomagnetism::month_length(year, month - 1)
    }
}

/// Which day of the Gregorian calendar a date is, the first of January of the
/// year 1 being the first.
pub open spec fn day_number(year: int, month: int, day: int) -> int {
    365 * (year - 1) + (year - 1) / 4 - (year - 1) / 100 + (year - 1) / 400 + days_before(
        year,
        month,
    ) + day
}

/// A moment as its fields: year, month, day, hour, minute, second, millisecond.
pub struct Moment {
    pub year: i32,
    pub month: u32,
    pub day: u32,
    pub hour: u32,
    pub minute: u32,
    pub second: u32,
    pub millisecond: u32,
}

impl Moment {
    pub open spec fn possible(self) -> bool {
        &&& 1 <= self.month <= 12
        &&& 1 <= self.day <= geomagnetism::month_length(self.year as int, self.month as int)
        &&& self.hour < 24
        &&& self.minute < 60
        &&& self.second < 60
        &&& self.millisecond < 1000
    }

    /// The milliseconds up to the moment.
    pub open spec fn count(self) -> int {
        milliseconds(
            day_number(self.year as int, self.month as int, self.day as int),
            self.hour as int,
            self.minute as int,
            self.second as int,
            self.millisecond as int,
        )
    }
}

pub open spec fn milliseconds(day: int, hour: int, minute: int, second: int, millisecond: int) -> int {
    (((day * 24 + hour) * 60 + minute) * 60 + second) * 1000 + millisecond
}

/// The milliseconds up to a moment.
pub open spec fn count_of(time: UtcDateTime) -> int {
    milliseconds(
        day_number(time.year as int, time.month as int, time.day as int),
        time.hour as int,
        time.minute as int,
        time.second as int,
        time.millisecond as int,
    )
}

/// The first and the last millisecond that `chrono::NaiveDateTime` holds.
pub open spec fn first_count() -> int {
    milliseconds(day_number(-262143, 1, 1), 0, 0, 0, 0)
}

pub open spec fn last_count() -> int {
    milliseconds(day_number(262142, 12, 31), 23, 59, 59, 999)
}

/// What is wrong with a moment, if anything is: its day is not one of the years
/// that chrono holds, or its time is not one of a day. A minute may end in a leap
/// second, which counts its milliseconds on from the second before.
pub open spec fn moment_fault(time: UtcDateTime) -> Option<Seq<char>> {
    if !(-262143 <= time.year <= 262142 && 1 <= time.month <= 12 && 1 <= time.day
        <= geomagnetism::month_length(time.year as int, time.month as int)) {
        Some("invalid calendar date"@)
    } else if !(time.hour < 24 && time.minute < 60 && time.second < 60 && (time.millisecond < 1000
        || (time.second == 59 && time.millisecond < 2000))) {
        Some("invalid time of day"@)
    } else {
        None
    }
}

/// Says what is wrong with a moment, if anything is.
fn check_moment(time: UtcDateTime) -> (result: Option<SatelliteError>)
    ensures
        match moment_fault(time) {
            Some(reason) => result matches Some(SatelliteError::Conversion(message)) && message@
                == reason,
            None => result is None,
        },
{
    if time.year < -262143 || time.year > 262142 || time.day < 1 || time.day
        > geomagnetism::days_in_month(time.year, time.month) {
        return Some(SatelliteError::Conversion("invalid calendar date".to_owned()));
    }
    if time.hour >= 24 || time.minute >= 60 || time.second >= 60 || (time.millisecond >= 1000 && (
    time.second != 59 || time.millisecond >= 2000)) {
        return Some(SatelliteError::Conversion("invalid time of day".to_owned()));
    }
    None
}

/// That a moment lies inside a leap second.
pub open spec fn leaping(time: UtcDateTime) -> bool {
    time.millisecond >= 1000
}

/// That the moment `offset` milliseconds behind `time` lies inside the same leap
/// second.
pub open spec fn stays_leaping(time: UtcDateTime, offset: int) -> bool {
    leaping(time) && -1000 < offset < 1000 && 1000 <= time.millisecond + offset < 2000
}

/// The milliseconds up to the moment `offset` milliseconds behind `time`, where
/// that is outside of leap seconds. On the way out of one the next second begins
/// anew.
pub open spec fn landing(time: UtcDateTime, offset: int) -> int {
    count_of(time) + offset - (if leaping(time) && time.millisecond + offset >= 2000 {
        1000int
    } else {
        0
    })
}

/// `chrono::NaiveDateTime::checked_add_signed`: the moment `offset`
/// milliseconds later, if it lies in the years that chrono holds. Inside a leap
/// second only the milliseconds move.
#[verifier::external_body]
fn later(time: UtcDateTime, offset: i64) -> (result: Option<Moment>)
    requires
        moment_fault(time) is None,
        offset > i64::MIN,
    ensures
        if stays_leaping(time, offset as int) {
            result == Some(
                (Moment {
                    year: time.year,
                    month: time.month as u32,
                    day: time.day as u32,
                    hour: time.hour as u32,
                    minute: time.minute as u32,
                    second: 59,
                    millisecond: (time.millisecond + offset) as u32,
                }),
            )
        } else {
            &&& result is Some <==> first_count() <= landing(time, offset as int) <= last_count()
            &&& result matches Some(moment) ==> moment.possible() && moment.count() == landing(
                time,
                offset as int,
            )
        },
{
    let date = chrono::NaiveDate::from_ymd_opt(time.year, time.month.into(), time.day.into())?;
    let (hour, minute, second) = (time.hour.into(), time.minute.into(), time.second.into());
    let moment = date.and_hms_milli_opt(hour, minute, second, time.millisecond.into())?;
    let moment = moment.checked_add_signed(chrono::Duration::milliseconds(offset))?;
    Some(Moment {
        year: moment.year(),
        month: moment.month(),
        day: moment.day(),
        hour: moment.hour(),
        minute: moment.minute(),
        second: moment.second(),
        millisecond: moment.and_utc().timestamp_subsec_millis(),
    })
}

/// The days before each month.
proof fn lemma_months(year: int)
    ensures
        ({
            let february: int = if geomagnetism::leap(year) {
                29
            } else {
                28
            };
            &&& days_before(year, 1) == 0
            &&& days_before(year, 2) == 31
            &&& days_before(year, 3) == 31 + february
            &&& days_before(year, 4) == 62 + february
            &&& days_before(year, 5) == 92 + february
            &&& days_before(year, 6) == 123 + february
            &&& days_before(year, 7) == 153 + february
            &&& days_before(year, 8) == 184 + february
            &&& days_before(year, 9) == 215 + february
            &&& days_before(year, 10) == 245 + february
            &&& days_before(year, 11) == 276 + february
            &&& days_before(year, 12) == 306 + february
        }),
{
    assert(days_before(year, 1) == 0);
    assert(days_before(year, 2) == 31);
    assert(days_before(year, 3) == 31 + geomagnetism::month_length(year, 2));
    assert(days_before(year, 4) == days_before(year, 3) + 31);
    assert(days_before(year, 5) == days_before(year, 4) + 30);
    assert(days_before(year, 6) == days_before(year, 5) + 31);
    assert(days_before(year, 7) == days_before(year, 6) + 30);
    assert(days_before(year, 8) == days_before(year, 7) + 31);
    assert(days_before(year, 9) == days_before(year, 8) + 31);
    assert(days_before(year, 10) == days_before(year, 9) + 30);
    assert(days_before(year, 11) == days_before(year, 10) + 31);
    assert(days_before(year, 12) == days_before(year, 11) + 30);
}

/// How many leap days go before the end of a year, less those before its start.
proof fn lemma_leap_days(year: int)
    ensures
        (year / 4 - year / 100 + year / 400) - ((year - 1) / 4 - (year - 1) / 100 + (year - 1)
            / 400) == (if geomagnetism::leap(year) {
            1int
        } else {
            0
        }),
{
    let before = year - 1;
    assert(year / 4 - before / 4 == (if year % 4 == 0 {
        1int
    } else {
        0
    }));
    assert(year / 100 - before / 100 == (if year % 100 == 0 {
        1int
    } else {
        0
    }));
    assert(year / 400 - before / 400 == (if year % 400 == 0 {
        1int
    } else {
        0
    }));
    assert(year % 400 == 0 ==> year % 100 == 0);
    assert(year % 100 == 0 ==> year % 4 == 0);
}

/// A year ends on the day before the next one begins.
proof fn lemma_years_follow(year: int)
    ensures
        day_number(year, 12, 31) + 1 == day_number(year + 1, 1, 1),
{
    lemma_months(year);
    lemma_leap_days(year);
    assert(days_before(year + 1, 1) == 0);
}

/// A date lies inside its year, and after every date of an earlier month.
proof fn lemma_months_follow(year: int, month: int, later: int)
    requires
        1 <= month <= later <= 12,
    ensures
        month < later ==> days_before(year, month) + geomagnetism::month_length(year, month)
            <= days_before(year, later),
        days_before(year, month) >= 0,
        days_before(year, later) + geomagnetism::month_length(year, later) <= days_before(year, 12)
            + 31,
{
    lemma_months(year);
}

/// Years follow one another.
proof fn lemma_year_starts(year: int, later: int)
    requires
        year <= later,
    ensures
        day_number(year, 1, 1) <= day_number(later, 1, 1),
    decreases later - year,
{
    if year < later {
        lemma_years_follow(later - 1);
        lemma_months_follow(later - 1, 1, 12);
        lemma_year_starts(year, later - 1);
    }
}

/// One moment comes before another exactly where fewer milliseconds go before it.
pub proof fn law_milliseconds_order_the_moments(left: UtcDateTime, right: UtcDateTime)
    requires
        left.valid(),
        right.valid(),
    ensures
        left.before(right) <==> count_of(left) < count_of(right),
{
    geomagnetism::law_moments_are_ordered(left, right);
    if left.before(right) {
        lemma_count_follows(left, right);
    } else if right.before(left) {
        lemma_count_follows(right, left);
    }
}

proof fn lemma_count_follows(left: UtcDateTime, right: UtcDateTime)
    requires
        left.valid(),
        right.valid(),
        left.before(right),
    ensures
        count_of(left) < count_of(right),
{
    let (y, m) = (left.year as int, left.month as int);
    let (later_y, later_m) = (right.year as int, right.month as int);
    lemma_months_follow(y, m, 12);
    lemma_months_follow(later_y, 1, later_m);
    if y < later_y {
        lemma_years_follow(y);
        lemma_year_starts(y + 1, later_y);
        assert(day_number(y, m, left.day as int) <= day_number(y, 12, 31));
        assert(day_number(later_y, 1, 1) <= day_number(later_y, later_m, right.day as int));
    } else if m < later_m {
        lemma_months_follow(y, m, later_m);
    }
}

/// The milliseconds up to the beginning of 1970.
pub open spec fn unix_count() -> int {
    milliseconds(day_number(1970, 1, 1), 0, 0, 0, 0)
}

/// How far a moment outside of leap seconds lies behind an epoch, in nanoseconds;
/// the moment is given by the milliseconds up to it.
pub open spec fn gap(epoch: Epoch, count: int) -> int {
    (count - unix_count()) * 1_000_000 - epoch.count()
}

/// How far a moment lies behind an epoch, in nanoseconds.
pub open spec fn behind(epoch: Epoch, time: UtcDateTime) -> int {
    gap(epoch, count_of(time)) - (if leaping(time) && (time.hour * 60 + time.minute) * 60
        + time.second < epoch.seconds % 86_400 {
        1_000_000_000int
    } else {
        0
    })
}

/// A moment outside of leap seconds as seconds and nanoseconds since the beginning
/// of 1970.
pub open spec fn epoch_at(count: int) -> (int, int) {
    ((count - unix_count()) / 1000, ((count - unix_count()) % 1000) * 1_000_000)
}

/// A moment as seconds and nanoseconds since the beginning of 1970.
pub open spec fn instant(time: UtcDateTime) -> (int, int) {
    ((count_of(time) - time.millisecond - unix_count()) / 1000, time.millisecond * 1_000_000)
}

/// Outside of leap seconds a moment is where its milliseconds say.
proof fn lemma_instant(time: UtcDateTime, epoch: Epoch)
    requires
        time.millisecond < 1000,
    ensures
        instant(time) == epoch_at(count_of(time)),
        behind(epoch, time) == gap(epoch, count_of(time)),
{
    let unix = unix_count();
    let seconds = ((day_number(time.year as int, time.month as int, time.day as int) * 24
        + time.hour) * 60 + time.minute) * 60 + time.second;
    assert(unix == day_number(1970, 1, 1) * 86_400_000);
    let since = seconds - day_number(1970, 1, 1) * 86_400;
    assert(count_of(time) - unix == since * 1000 + time.millisecond);
    assert((since * 1000 + time.millisecond) / 1000 == since);
    assert((since * 1000 + time.millisecond) % 1000 == time.millisecond);
    assert((since * 1000) / 1000 == since);
}

/// The days that chrono holds.
proof fn lemma_days(year: int, month: int, day: int)
    requires
        -262143 <= year <= 262142,
        1 <= month <= 12,
        1 <= day <= geomagnetism::month_length(year, month),
    ensures
        day_number(-262143, 1, 1) <= day_number(year, month, day) <= day_number(262142, 12, 31),
{
    lemma_months_follow(year, 1, month);
    lemma_months_follow(year, month, 12);
    assert(day_number(year, 1, 1) <= day_number(year, month, day) <= day_number(year, 12, 31));
    lemma_year_starts(-262143, year);
    if year < 262142 {
        lemma_years_follow(year);
        lemma_year_starts(year + 1, 262142);
        lemma_months_follow(262142, 1, 12);
    }
}

/// A whole number of 400-year cycles further on there are as many leap days more
/// as those cycles have.
proof fn lemma_cycles(before: int)
    ensures
        (before + 262_800) / 4 - (before + 262_800) / 100 + (before + 262_800) / 400 - 63_729
            == before / 4 - before / 100 + before / 400,
{
    assert((before + 262_800) / 4 == before / 4 + 65_700);
    assert((before + 262_800) / 100 == before / 100 + 2_628);
    assert((before + 262_800) / 400 == before / 400 + 657);
}

/// The days of the year before a month.
fn count_months(year: i32, month: u8) -> (result: i64)
    requires
        1 <= month <= 12,
    ensures
        result == days_before(year as int, month as int),
        0 <= result <= 335,
{
    proof {
        lemma_months(year as int);
    }
    let february: i64 = geomagnetism::days_in_month(year, 2) as i64;
    match month {
        1 => 0,
        2 => 31,
        3 => 31 + february,
        4 => 62 + february,
        5 => 92 + february,
        6 => 123 + february,
        7 => 153 + february,
        8 => 184 + february,
        9 => 215 + february,
        10 => 245 + february,
        11 => 276 + february,
        _ => 306 + february,
    }
}

/// The days up to a date.
fn count_days(time: UtcDateTime) -> (result: i64)
    requires
        moment_fault(time) is None,
    ensures
        result == day_number(time.year as int, time.month as int, time.day as int),
{
    proof {
        lemma_cycles(time.year - 1);
    }
    // A whole number of 400-year cycles further on nothing below zero is divided.
    let before: i64 = time.year as i64 - 1 + 262_800;
    let leaps: i64 = before / 4 - before / 100 + before / 400 - 63_729;
    365 * (time.year as i64 - 1) + leaps + count_months(time.year, time.month) + time.day as i64
}

/// What the seconds of a day are made of.
proof fn lemma_seconds(days: int, hour: int, minute: int, second: int)
    requires
        0 <= hour < 24,
        0 <= minute < 60,
        0 <= second < 60,
    ensures
        ({
            let all = days * 86_400 + (hour * 60 + minute) * 60 + second;
            &&& all % 86_400 == (hour * 60 + minute) * 60 + second
            &&& all % 60 == second
            &&& (all * 1000) / 1000 == all
        }),
{
}

/// The first and the last day that chrono holds, and the beginning of 1970.
proof fn lemma_marks()
    ensures
        day_number(-262143, 1, 1) == -95_746_129,
        day_number(262142, 12, 31) == 95_745_399,
        day_number(1970, 1, 1) == 719_163,
{
    lemma_months(-262143);
    lemma_months(262142);
    lemma_months(1970);
}

/// A moment as seconds and nanoseconds since the beginning of 1970.
fn since_1970(time: UtcDateTime) -> (result: Epoch)
    requires
        moment_fault(time) is None,
    ensures
        result.dated(),
        (result.seconds as int, result.nanoseconds as int) == instant(time),
        forall|epoch: Epoch| #[trigger]
            propagation::difference(result, epoch) == behind(epoch, time),
{
    let days: i64 = count_days(time);
    proof {
        lemma_marks();
        lemma_days(time.year as int, time.month as int, time.day as int);
        lemma_seconds(
            days - 719_163,
            time.hour as int,
            time.minute as int,
            time.second as int,
        );
    }
    let second: i64 = (time.hour as i64 * 60 + time.minute as i64) * 60 + time.second as i64;
    let since: i64 = (days - 719_163) * 86_400 + second;
    let result: Epoch = Epoch { seconds: since, nanoseconds: time.millisecond as u32 * 1_000_000 };
    proof {
        assert(unix_count() == 719_163 * 86_400_000);
        assert(count_of(time) == (days * 86_400 + second) * 1000 + time.millisecond);
        assert(count_of(time) - time.millisecond - unix_count() == since * 1000);
        assert(result.count() == (count_of(time) - unix_count()) * 1_000_000);
    }
    result
}

/// A parsed element set, ready to propagate.
pub struct SatelliteTracker {
    pub ready: Propagator,
}

/// What is wrong with two lines, if anything is.
pub open spec fn lines_fault(line1: Seq<char>, line2: Seq<char>) -> Option<Seq<char>> {
    match lines_reading(line1, line2) {
        Ok(_) => None,
        Err(fault) => Some(fault),
    }
}

fn line_bytes(line: &str) -> (result: Vec<u8>)
    ensures
        result@ == read_line(encode_utf8(line@)),
        !propagation::ends_below_digits(result@),
{
    let given: &[u8] = line.as_bytes();
    let mut bytes: Vec<u8> = Vec::new();
    let mut at: usize = 0;
    while at < given.len()
        invariant
            at <= given.len(),
            bytes@ == given@.take(at as int),
        decreases given.len() - at,
    {
        bytes.push(given[at]);
        at = at + 1;
        assert(given@.take(at as int) =~= given@.take(at - 1).push(given@[at - 1]));
    }
    assert(bytes@ =~= encode_utf8(line@));
    if bytes.len() == 69 && bytes[68] < 48 {
        bytes.set(68, 58);
    }
    bytes
}

/// How far into the orbit a sample lies, from minus one half to one half.
pub open spec fn sample_fraction(index: int, samples: int) -> Double {
    arithmetic::difference(
        arithmetic::quotient(
            arithmetic::whole_number(index),
            arithmetic::whole_number(samples - 1),
        ),
        Double { bits: 0x3fe0_0000_0000_0000 },
    )
}

/// How far from the centre a sample lies, in milliseconds.
pub open spec fn sample_offset(period: Double, index: int, samples: int) -> int {
    whole::nearest_whole(
        arithmetic::product(
            arithmetic::product(sample_fraction(index, samples), period),
            Double { bits: 0x40ed_4c00_0000_0000 },
        ),
    )
}

/// Why a moment cannot be reached.
pub const OUT_OF_RANGE: &'static str = "time out of range";

/// That `time` is the moment `offset` milliseconds behind `center`.
pub open spec fn reaches(center: UtcDateTime, offset: int, time: UtcDateTime) -> bool {
    time.valid() && count_of(time) == landing(center, offset)
}

/// What is wrong with the moment `offset` milliseconds behind `center`, if
/// anything is: the years from 1 to 9999 can be reached, and no leap second.
pub open spec fn unreachable_moment(center: UtcDateTime, offset: int) -> Option<Seq<char>> {
    let count = landing(center, offset);
    if offset <= i64::MIN {
        Some(OUT_OF_RANGE@)
    } else if stays_leaping(center, offset) {
        if 1 <= center.year <= 9999 {
            Some("invalid UTC time"@)
        } else {
            Some("invalid UTC calendar date"@)
        }
    } else if count < first_count() || count > last_count() {
        Some(OUT_OF_RANGE@)
    } else if count < milliseconds(day_number(1, 1, 1), 0, 0, 0, 0) || count > milliseconds(
        day_number(9999, 12, 31),
        23,
        59,
        59,
        999,
    ) {
        Some("invalid UTC calendar date"@)
    } else {
        None
    }
}

/// The moment `offset` milliseconds behind `center`.
fn moment_at(center: UtcDateTime, offset: i64) -> (result: Result<UtcDateTime, SatelliteError>)
    requires
        moment_fault(center) is None,
    ensures
        match unreachable_moment(center, offset as int) {
            Some(reason) => result matches Err(SatelliteError::Conversion(message)) && message@
                == reason,
            None => result is Ok && reaches(center, offset as int, result->Ok_0),
        },
{
    if offset == i64::MIN {
        return Err(SatelliteError::Conversion(OUT_OF_RANGE.to_owned()));
    }
    match later(center, offset) {
        None => Err(SatelliteError::Conversion(OUT_OF_RANGE.to_owned())),
        Some(moment) => {
            proof {
                if !stays_leaping(center, offset as int) {
                    lemma_moment_years(moment);
                }
            }
            match UtcDateTime::new(
                moment.year,
                moment.month as u8,
                moment.day as u8,
                moment.hour as u8,
                moment.minute as u8,
                moment.second as u8,
                moment.millisecond as u16,
            ) {
                Ok(time) => Ok(time),
                Err(error) => Err(SatelliteError::Conversion(error.message().to_owned())),
            }
        },
    }
}

/// Where a moment lies tells whether its year has at most four digits.
proof fn lemma_moment_years(moment: Moment)
    requires
        moment.possible(),
    ensures
        1 <= moment.year <= 9999 <==> milliseconds(day_number(1, 1, 1), 0, 0, 0, 0)
            <= moment.count() <= milliseconds(day_number(9999, 12, 31), 23, 59, 59, 999),
{
    let year = moment.year as int;
    let month = moment.month as int;
    let day = day_number(year, month, moment.day as int);
    lemma_months_follow(year, 1, month);
    lemma_years_follow(year);
    lemma_years_follow(9999);
    lemma_years_follow(0);
    assert(day_number(year, 1, 1) <= day <= day_number(year, 12, 31));
    if year < 1 {
        lemma_year_starts(year + 1, 1);
    } else if year > 9999 {
        lemma_year_starts(10000, year);
    } else {
        lemma_year_starts(1, year);
        lemma_year_starts(year + 1, 10000);
    }
}

/// How many samples a ground track has where `samples` are asked for.
pub open spec fn track_length(samples: u32) -> int {
    if samples < 2 {
        2
    } else {
        samples as int
    }
}

/// What is wrong with the moment of a sample, if anything is: there is no such
/// centre, or no such moment around it.
pub open spec fn sample_time_fault(center: UtcDateTime, offset: int) -> Option<Seq<char>> {
    match moment_fault(center) {
        Some(reason) => Some(reason),
        None => unreachable_moment(center, offset),
    }
}

/// That a second line spells the mean motion of a satellite that does not move
/// forward.
pub open spec fn motionless_line(line2: Seq<u8>) -> bool {
    decimal::number(propagation::mean_motion_field(line2)) matches Some(motion)
        && propagation::motionless(motion)
}

/// The positions of a track, where there is one.
pub open spec fn positions_of(result: Result<Vec<SatellitePosition>, SatelliteError>) -> Result<
    Seq<SatellitePosition>,
    SatelliteError,
> {
    match result {
        Ok(track) => Ok(track@),
        Err(error) => Err(error),
    }
}

impl SatelliteTracker {
    /// The element set that the tracker goes by.
    pub open spec fn set(self) -> ElementSet {
        self.ready.set()
    }

    pub open spec fn wf(self) -> bool {
        self.set().start().wf()
    }

    /// That the tracker goes by two lines: the element set that it propagates was
    /// read from them, and has their epoch and mean motion.
    pub open spec fn reads(
        self,
        name: Option<Seq<char>>,
        line1: Seq<char>,
        line2: Seq<char>,
    ) -> bool {
        &&& self.wf()
        &&& self.set().called() == name
        &&& self.set().first() == read_line(encode_utf8(line1))
        &&& self.set().second() == read_line(encode_utf8(line2))
        &&& lines_reading(line1, line2) == Ok::<(int, int), Seq<char>>(
            (self.set().start().seconds as int, self.set().start().nanoseconds as int),
        )
        &&& propagation::spelled(
            propagation::mean_motion_field(encode_utf8(line2)),
            self.set().motion(),
        )
    }

    /// What is said of a moment that is too far from the epoch.
    pub open spec fn far_text(self, at: (int, int)) -> Seq<char> {
        propagation::too_far(
            self.set().start().seconds as int,
            self.set().start().nanoseconds as int,
            at.0,
            at.1,
        )
    }

    /// What is wrong with propagating to a moment, if anything is: there is no such
    /// moment, or it lies too far from the epoch.
    pub open spec fn time_fault(self, time: UtcDateTime) -> Option<Seq<char>> {
        match moment_fault(time) {
            Some(reason) => Some(reason),
            None => if propagation::bridged(behind(self.set().start(), time)) {
                None
            } else {
                Some(self.far_text(instant(time)))
            },
        }
    }

    /// The minutes that a moment lies behind the epoch.
    pub open spec fn minutes_to(self, time: UtcDateTime) -> Double {
        propagation::minutes_of(behind(self.set().start(), time))
    }

    /// That a position is what this element set was propagated to over the given
    /// minutes.
    pub open spec fn carries(self, minutes: Double, position: TemePosition) -> bool {
        &&& position.first() == self.set().first()
        &&& position.second() == self.set().second()
        &&& position.behind() == minutes
    }

    /// The tracker, once its elements have been prepared or refused.
    pub fn prepared(ready: Result<Propagator, String>) -> (result: Result<Self, SatelliteError>)
        ensures
            match ready {
                Ok(ready) => result == Ok::<SatelliteTracker, SatelliteError>(
                    (SatelliteTracker { ready }),
                ),
                Err(message) => result == Err::<SatelliteTracker, SatelliteError>(
                    SatelliteError::Tle(message),
                ),
            },
    {
        match ready {
            Ok(ready) => Ok(SatelliteTracker { ready }),
            Err(message) => Err(SatelliteError::Tle(message)),
        }
    }

    /// What reading and preparing two lines comes to. Lines with a fault are
    /// refused with its text, and so is a satellite that does not move forward. Of
    /// any other there is a tracker that goes by the lines, or it is said why its
    /// elements cannot be prepared.
    pub open spec fn made_from(
        name: Option<Seq<char>>,
        line1: Seq<char>,
        line2: Seq<char>,
        result: Result<SatelliteTracker, SatelliteError>,
    ) -> bool {
        match lines_fault(line1, line2) {
            Some(fault) => result matches Err(SatelliteError::Tle(message)) && message@ == fault,
            None => if motionless_line(encode_utf8(line2)) {
                result matches Err(SatelliteError::Tle(message)) && message@
                    == propagation::NO_KOZAI_MOTION@
            } else {
                match result {
                    Ok(tracker) => tracker.reads(name, line1, line2),
                    Err(SatelliteError::Tle(message)) => propagation::unprepared(message@),
                    Err(_) => false,
                }
            },
        }
    }

    /// Reads an element set and prepares it for propagation.
    pub fn from_tle(name: Option<&str>, line1: &str, line2: &str) -> (result: Result<
        Self,
        SatelliteError,
    >)
        ensures
            SatelliteTracker::made_from(propagation::text_of(name), line1@, line2@, result),
    {
        let first: Vec<u8> = line_bytes(line1);
        let second: Vec<u8> = line_bytes(line2);
        proof {
            let line = encode_utf8(line2@);
            assert(second@.len() >= 63 ==> second@.subrange(52, 63) =~= line.subrange(52, 63));
        }
        match propagation::parse_elements(name, first.as_slice(), second.as_slice()) {
            Err(fault) => Err(SatelliteError::Tle(fault)),
            Ok(set) => SatelliteTracker::prepared(propagation::prepare(set)),
        }
    }

    /// What a propagation comes to, given what the propagator answered.
    pub fn propagated(position: Result<TemePosition, String>) -> (result: Result<
        TemePosition,
        SatelliteError,
    >)
        ensures
            match position {
                Err(message) => result == Err::<TemePosition, SatelliteError>(
                    SatelliteError::Propagation(message),
                ),
                Ok(position) => result == Ok::<TemePosition, SatelliteError>(position),
            },
    {
        match position {
            Err(message) => Err(SatelliteError::Propagation(message)),
            Ok(position) => Ok(position),
        }
    }

    /// How many minutes a moment lies behind the epoch.
    pub fn minutes_at(&self, time: UtcDateTime) -> (result: Result<Double, SatelliteError>)
        requires
            self.wf(),
        ensures
            match self.time_fault(time) {
                Some(reason) => result matches Err(SatelliteError::Conversion(message)) && message@
                    == reason,
                None => result == Ok::<Double, SatelliteError>(self.minutes_to(time)),
            },
    {
        if let Some(error) = check_moment(time) {
            return Err(error);
        }
        match propagation::minutes_since_epoch(self.ready.element_set(), since_1970(time)) {
            Ok(minutes) => Ok(minutes),
            Err(message) => Err(SatelliteError::Conversion(message)),
        }
    }

    /// The position at a moment in the propagator's frame. A moment that there is
    /// not, or that is too far from the epoch, is refused; any other is handed to
    /// the propagator as the minutes that it lies behind the epoch, and what comes
    /// back is the propagator's.
    pub fn teme_at(&self, time: UtcDateTime) -> (result: Result<TemePosition, SatelliteError>)
        requires
            self.wf(),
        ensures
            match self.time_fault(time) {
                Some(reason) => result matches Err(SatelliteError::Conversion(message)) && message@
                    == reason,
                None => match result {
                    Ok(position) => self.carries(self.minutes_to(time), position),
                    Err(SatelliteError::Propagation(message)) => propagation::diverged(message@),
                    Err(_) => false,
                },
            },
    {
        match self.minutes_at(time) {
            Ok(_) => SatelliteTracker::propagated(
                propagation::propagate(&self.ready, since_1970(time)),
            ),
            Err(error) => Err(error),
        }
    }

    /// That a position is this satellite's at a moment, with the point below it.
    pub open spec fn stands_at<S: Fn(Double) -> (Double, Double), A: Fn(Double, Double) -> Double>(
        self,
        sine_cosine: S,
        arc_tangent: A,
        time: UtcDateTime,
        position: SatellitePosition,
    ) -> bool {
        &&& self.carries(self.minutes_to(time), position.teme)
        &&& stands(sine_cosine, arc_tangent, time, position)
    }

    /// What a position at a moment comes to.
    pub open spec fn places<S: Fn(Double) -> (Double, Double), A: Fn(Double, Double) -> Double>(
        self,
        sine_cosine: S,
        arc_tangent: A,
        time: UtcDateTime,
        result: Result<SatellitePosition, SatelliteError>,
    ) -> bool {
        match self.time_fault(time) {
            Some(reason) => result matches Err(SatelliteError::Conversion(message)) && message@
                == reason,
            None => match result {
                Ok(position) => self.stands_at(sine_cosine, arc_tangent, time, position),
                Err(SatelliteError::Propagation(message)) => propagation::diverged(message@),
                Err(_) => false,
            },
        }
    }

    /// The position at a moment, with the point below it.
    pub fn position_at<S: Fn(Double) -> (Double, Double), A: Fn(Double, Double) -> Double>(
        &self,
        time: UtcDateTime,
        sine_cosine: &S,
        arc_tangent: &A,
    ) -> (result: Result<SatellitePosition, SatelliteError>)
        requires
            self.wf(),
            angle::answers_angles(*sine_cosine),
            angle::answers_legs(*arc_tangent),
        ensures
            self.places(*sine_cosine, *arc_tangent, time, result),
    {
        match self.teme_at(time) {
            Ok(position) => Ok(SatellitePosition::seen(position, time, sine_cosine, arc_tangent)),
            Err(error) => Err(error),
        }
    }

    pub open spec fn period(self) -> Double {
        arithmetic::quotient(Double { bits: 0x4096_8000_0000_0000 }, self.set().motion())
    }

    /// Orbital period implied by the mean motion.
    pub fn orbital_period_minutes(&self) -> (result: Double)
        ensures
            result == self.period(),
    {
        Double::from_bits(0x4096_8000_0000_0000).over(self.ready.element_set().mean_motion())
    }

    /// When a sample of the ground track is taken.
    pub fn sample_time(&self, center: UtcDateTime, index: u32, samples: u32) -> (result: Result<
        UtcDateTime,
        SatelliteError,
    >)
        requires
            index < samples,
            2 <= samples,
        ensures
            ({
                let offset = sample_offset(self.period(), index as int, samples as int);
                match sample_time_fault(center, offset) {
                    Some(reason) => result matches Err(SatelliteError::Conversion(message))
                        && message@ == reason,
                    None => result is Ok && reaches(center, offset, result->Ok_0),
                }
            }),
    {
        if let Some(error) = check_moment(center) {
            return Err(error);
        }
        let fraction: Double = Double::whole(index as i64).over(
            Double::whole(samples as i64 - 1),
        ).minus(Double::from_bits(0x3fe0_0000_0000_0000));
        let offset: i64 = fraction.times(self.orbital_period_minutes()).times(
            Double::from_bits(0x40ed_4c00_0000_0000),
        ).round_to_whole();
        moment_at(center, offset)
    }

    /// Why sample `index` of the ground track cannot be taken, if it cannot: its
    /// moment cannot be reached, or lies too far from the epoch.
    pub open spec fn sample_fault(self, center: UtcDateTime, index: int, samples: int) -> Option<
        Seq<char>,
    > {
        let offset = sample_offset(self.period(), index, samples);
        let count = landing(center, offset);
        match sample_time_fault(center, offset) {
            Some(reason) => Some(reason),
            None => if propagation::bridged(gap(self.set().start(), count)) {
                None
            } else {
                Some(self.far_text(epoch_at(count)))
            },
        }
    }

    /// That the first `taken` samples can be taken.
    pub open spec fn faultless(self, center: UtcDateTime, taken: int, samples: int) -> bool {
        forall|i: int|
            0 <= i < taken ==> (#[trigger] self.sample_fault(center, i, samples)) is None
    }

    /// That a sample is this satellite's position `offset` milliseconds behind
    /// `center`.
    pub open spec fn samples<S: Fn(Double) -> (Double, Double), A: Fn(Double, Double) -> Double>(
        self,
        sine_cosine: S,
        arc_tangent: A,
        center: UtcDateTime,
        offset: int,
        position: SatellitePosition,
    ) -> bool {
        exists|time: UtcDateTime|
            {
                &&& #[trigger] reaches(center, offset, time)
                &&& self.stands_at(sine_cosine, arc_tangent, time, position)
            }
    }

    /// What a ground track of `count` samples around a moment comes to: all of them,
    /// or what is said of the first that fails.
    pub open spec fn follows<S: Fn(Double) -> (Double, Double), A: Fn(Double, Double) -> Double>(
        self,
        sine_cosine: S,
        arc_tangent: A,
        center: UtcDateTime,
        count: int,
        result: Result<Seq<SatellitePosition>, SatelliteError>,
    ) -> bool {
        match result {
            Ok(track) => {
                &&& track.len() == count
                &&& forall|i: int|
                    0 <= i < count ==> self.samples(
                        sine_cosine,
                        arc_tangent,
                        center,
                        sample_offset(self.period(), i, count),
                        #[trigger] track[i],
                    )
                &&& self.faultless(center, count, count)
            },
            Err(SatelliteError::Conversion(message)) => exists|i: int|
                0 <= i < count && (#[trigger] self.sample_fault(center, i, count)) == Some(message@)
                    && self.faultless(center, i, count),
            Err(SatelliteError::Propagation(message)) => {
                &&& propagation::diverged(message@)
                &&& exists|i: int|
                    0 <= i < count && #[trigger] self.faultless(center, i + 1, count)
            },
            Err(_) => false,
        }
    }

    /// Samples positions across one full orbital period around `center`, for
    /// drawing a ground track. There are at least two samples, and the first that
    /// fails ends it.
    pub fn ground_track<S: Fn(Double) -> (Double, Double), A: Fn(Double, Double) -> Double>(
        &self,
        center: UtcDateTime,
        samples: u32,
        sine_cosine: &S,
        arc_tangent: &A,
    ) -> (result: Result<Vec<SatellitePosition>, SatelliteError>)
        requires
            self.wf(),
            angle::answers_angles(*sine_cosine),
            angle::answers_legs(*arc_tangent),
        ensures
            self.follows(
                *sine_cosine,
                *arc_tangent,
                center,
                track_length(samples),
                positions_of(result),
            ),
    {
        let count: u32 = if samples < 2 {
            2
        } else {
            samples
        };
        let mut track: Vec<SatellitePosition> = Vec::new();
        let mut index: u32 = 0;
        while index < count
            invariant
                self.wf(),
                angle::answers_angles(*sine_cosine),
                angle::answers_legs(*arc_tangent),
                count == track_length(samples),
                2 <= count,
                index <= count,
                track@.len() == index,
                forall|i: int|
                    0 <= i < index ==> self.samples(
                        *sine_cosine,
                        *arc_tangent,
                        center,
                        sample_offset(self.period(), i, count as int),
                        #[trigger] track@[i],
                    ),
                self.faultless(center, index as int, count as int),
            decreases count - index,
        {
            let time: UtcDateTime = match self.sample_time(center, index, count) {
                Ok(time) => time,
                Err(error) => {
                    assert(self.sample_fault(center, index as int, count as int) == Some(
                        error->Conversion_0@,
                    ));
                    return Err(error);
                },
            };
            proof {
                lemma_instant(time, self.set().start());
            }
            let position: SatellitePosition = match self.position_at(
                time,
                sine_cosine,
                arc_tangent,
            ) {
                Ok(position) => position,
                Err(error) => {
                    assert(self.sample_fault(center, index as int, count as int) == (if error
                        is Conversion {
                        Some(error->Conversion_0@)
                    } else {
                        None
                    }));
                    assert(error is Propagation ==> self.faultless(
                        center,
                        index + 1,
                        count as int,
                    ));
                    return Err(error);
                },
            };
            assert(reaches(
                center,
                sample_offset(self.period(), index as int, count as int),
                time,
            ));
            track.push(position);
            index = index + 1;
        }
        Ok(track)
    }
}

/// A tracker follows the satellite that it was made for: every position comes from
/// a propagation of the two lines that were given, over the minutes from their
/// epoch to the moment that was asked for.
pub proof fn law_trackers_follow_their_lines<
    S: Fn(Double) -> (Double, Double),
    A: Fn(Double, Double) -> Double,
>(
    name: Option<Seq<char>>,
    line1: Seq<char>,
    line2: Seq<char>,
    tracker: SatelliteTracker,
    sine_cosine: S,
    arc_tangent: A,
    time: UtcDateTime,
    position: SatellitePosition,
)
    requires
        SatelliteTracker::made_from(name, line1, line2, Ok(tracker)),
        tracker.places(sine_cosine, arc_tangent, time, Ok(position)),
    ensures
        position.teme.first() == read_line(encode_utf8(line1)),
        position.teme.second() == read_line(encode_utf8(line2)),
        lines_reading(line1, line2) matches Ok((seconds, nanoseconds)) && position.teme.behind()
            == propagation::minutes_of(
            behind((Epoch { seconds: seconds as i64, nanoseconds: nanoseconds as u32 }), time),
        ),
{
}

/// A propagated position in the Earth-fixed frame, given the turn of the Earth.
pub open spec fn rotated(position_km: Seq<Double>, turn: Turn) -> Seq<Double> {
    seq![
        arithmetic::sum(
            arithmetic::product(position_km[0], turn.cosine),
            arithmetic::product(position_km[1], turn.sine),
        ),
        arithmetic::sum(
            arithmetic::product(position_km[0].negated(), turn.sine),
            arithmetic::product(position_km[1], turn.cosine),
        ),
        position_km[2],
    ]
}

/// Rotates a propagated position into the Earth-fixed frame by the sidereal time.
/// Polar motion and nutation are ignored.
pub fn teme_to_ecef(position_km: [Double; 3], turn: Turn) -> (result: [Double; 3])
    ensures
        result@ == rotated(position_km@, turn),
{
    let result: [Double; 3] = [
        position_km[0].times(turn.cosine).plus(position_km[1].times(turn.sine)),
        position_km[0].neg().times(turn.sine).plus(position_km[1].times(turn.cosine)),
        position_km[2],
    ];
    assert(result@ =~= rotated(position_km@, turn));
    result
}

/// Two numbers of opposite sign leave nothing.
proof fn lemma_opposites_cancel(left: Double, right: Double)
    requires
        right.finite(),
        order::opposite(left, right),
    ensures
        arithmetic::sum(left, right).rank() == 0,
        !arithmetic::sum(left, right).nan(),
{
    assert(left.magnitude() == right.magnitude());
    assert(crate::double::double_units(0) == 0);
    assert(left.units() == -right.units());
}

/// The turn goes with the Earth, eastward: a position in the direction of the
/// sidereal time comes to stand over the meridian of Greenwich, on its near side.
/// It is in that direction where its two components are to each other as the
/// cosine is to the sine, with the same signs.
pub proof fn law_the_sidereal_direction_is_greenwich(position_km: Seq<Double>, turn: Turn)
    requires
        position_km.len() == 3,
        arithmetic::product(position_km[1], turn.cosine).finite(),
        order::alike(
            arithmetic::product(position_km[0], turn.sine),
            arithmetic::product(position_km[1], turn.cosine),
        ),
        (Double { bits: 0 }).at_most(arithmetic::product(position_km[0], turn.cosine)),
        (Double { bits: 0 }).at_most(arithmetic::product(position_km[1], turn.sine)),
    ensures
        rotated(position_km, turn)[1].equals(Double { bits: 0 }),
        (Double { bits: 0 }).at_most(rotated(position_km, turn)[0]),
        arithmetic::product(position_km[0], turn.cosine).at_most(rotated(position_km, turn)[0]),
        arithmetic::product(position_km[1], turn.sine).at_most(rotated(position_km, turn)[0]),
        rotated(position_km, turn)[2] == position_km[2],
{
    let (x, y) = (position_km[0], position_km[1]);
    order::law_negatives_are_opposite(x);
    order::law_opposite_products(x.negated(), turn.sine, x, turn.sine);
    lemma_opposites_cancel(
        arithmetic::product(x.negated(), turn.sine),
        arithmetic::product(y, turn.cosine),
    );
    let near = arithmetic::product(x, turn.cosine);
    let far = arithmetic::product(y, turn.sine);
    lemma_sum_of_parts(near, far);
}

/// A sum of numbers that are not below zero is no smaller than either.
proof fn lemma_sum_of_parts(left: Double, right: Double)
    requires
        (Double { bits: 0 }).at_most(left),
        (Double { bits: 0 }).at_most(right),
    ensures
        left.at_most(arithmetic::sum(left, right)),
        right.at_most(arithmetic::sum(left, right)),
        (Double { bits: 0 }).at_most(arithmetic::sum(left, right)),
{
    let zero = Double { bits: 0 };
    arithmetic::law_sums_are_numbers(left, right);
    arithmetic::law_sums_are_numbers(left, zero);
    arithmetic::law_sums_are_numbers(zero, right);
    order::law_sums_keep_order(left, zero, left, right);
    order::law_sums_keep_order(zero, right, left, right);
    if left.finite() {
        arithmetic::law_zero_adds_nothing(left, zero);
    }
    if right.finite() {
        arithmetic::law_zero_adds_nothing(right, zero);
        arithmetic::law_terms_may_change_places(right, zero);
    }
}

/// The direction of the sidereal time itself goes to the X axis, and the direction
/// a quarter turn east of it to the Y axis: there is nothing left across.
pub proof fn law_the_axes_turn_with_the_earth(turn: Turn, z: Double)
    requires
        turn.sine.magnitude() <= 0x3ff0_0000_0000_0000,
        turn.cosine.magnitude() <= 0x3ff0_0000_0000_0000,
    ensures
        ({
            let along = rotated(seq![turn.cosine, turn.sine, z], turn);
            let across = rotated(seq![turn.sine.negated(), turn.cosine, z], turn);
            &&& along[1].equals(Double { bits: 0 })
            &&& across[0].equals(Double { bits: 0 })
            &&& (Double { bits: 0 }).at_most(along[0])
            &&& along[0].equals(across[1])
            &&& along[2] == z && across[2] == z
        }),
{
    let (s, c) = (turn.sine, turn.cosine);
    arithmetic::law_a_fraction_does_not_enlarge(s, c);
    arithmetic::law_a_fraction_does_not_enlarge(c, c);
    arithmetic::law_a_fraction_does_not_enlarge(s, s);
    arithmetic::law_factors_may_change_places(s, c);
    law_the_sidereal_direction_is_greenwich(seq![c, s, z], turn);
    law_a_quarter_turn_stays_one(seq![c, s, z], turn);
    assert(seq![c, s, z][0] == c && seq![c, s, z][1] == s && seq![c, s, z][2] == z);
    assert(seq![seq![c, s, z][1].negated(), seq![c, s, z][0], seq![c, s, z][2]] =~= seq![
        s.negated(),
        c,
        z,
    ]);
}

/// Positions a quarter turn apart stay a quarter turn apart.
pub proof fn law_a_quarter_turn_stays_one(position_km: Seq<Double>, turn: Turn)
    requires
        position_km.len() == 3,
    ensures
        ({
            let here = rotated(position_km, turn);
            let ahead = rotated(
                seq![position_km[1].negated(), position_km[0], position_km[2]],
                turn,
            );
            &&& order::opposite(ahead[0], here[1])
            &&& order::alike(ahead[1], here[0])
            &&& ahead[2] == here[2]
        }),
{
    let (x, y) = (position_km[0], position_km[1]);
    let (s, c) = (turn.sine, turn.cosine);
    order::law_negatives_are_opposite(x);
    order::law_negatives_are_opposite(y);
    // -y c + x s against -x s + y c.
    order::law_opposite_products(y.negated(), c, y, c);
    order::law_opposite_products(x, s, x.negated(), s);
    arithmetic::law_terms_may_change_places(
        arithmetic::product(x.negated(), s),
        arithmetic::product(y, c),
    );
    order::law_opposite_sums(
        arithmetic::product(y.negated(), c),
        arithmetic::product(x, s),
        arithmetic::product(y, c),
        arithmetic::product(x.negated(), s),
    );
    // y s + x c, in either order.
    assert(y.negated().negated() == y);
    arithmetic::law_terms_may_change_places(arithmetic::product(y, s), arithmetic::product(x, c));
}

pub const THOUSAND: u64 = 0x408f_4000_0000_0000;

/// The square of the ellipsoid's eccentricity.
pub open spec fn eccentricity_squared(spheroid: Wgs84) -> Double {
    arithmetic::product(spheroid.eccentric(), spheroid.eccentric())
}

/// How far the vertical at a latitude runs from the surface to the axis, in
/// kilometres.
pub open spec fn normal_km(spheroid: Wgs84, sine: Double) -> Double {
    arithmetic::quotient(
        arithmetic::quotient(spheroid.equatorial_axis_m, Double { bits: THOUSAND }),
        arithmetic::root(
            arithmetic::difference(
                Double { bits: ONE },
                arithmetic::product(
                    arithmetic::product(eccentricity_squared(spheroid), sine),
                    sine,
                ),
            ),
        ),
    )
}

fn normal_of(spheroid: Wgs84, sine: Double) -> (result: Double)
    ensures
        result == normal_km(spheroid, sine),
{
    let eccentricity: Double = spheroid.eccentricity();
    let e2: Double = eccentricity.times(eccentricity);
    spheroid.equatorial_axis_m.over(Double::from_bits(THOUSAND)).over(
        Double::from_bits(ONE).minus(e2.times(sine).times(sine)).sqrt(),
    )
}

/// A place's latitude and longitude.
#[derive(Debug, Clone, Copy, PartialEq)]
pub struct Bearings {
    pub latitude: Turn,
    pub longitude: Turn,
}

/// That the bearings are those of a place in degrees, with the sines and cosines
/// that were answered for them.
pub open spec fn borne<S: Fn(Double) -> (Double, Double)>(
    sine_cosine: S,
    latitude_deg: Double,
    longitude_deg: Double,
    at: Bearings,
) -> bool {
    &&& angle::turned(sine_cosine, angle::in_radians(latitude_deg), at.latitude)
    &&& angle::turned(sine_cosine, angle::in_radians(longitude_deg), at.longitude)
}

/// Asks for the sines and cosines of a place's latitude and longitude.
pub fn bearings<S: Fn(Double) -> (Double, Double)>(
    latitude_deg: Double,
    longitude_deg: Double,
    sine_cosine: &S,
) -> (result: Bearings)
    requires
        angle::answers_angles(*sine_cosine),
    ensures
        borne(*sine_cosine, latitude_deg, longitude_deg, result),
{
    Bearings {
        latitude: angle::turn_by(sine_cosine, latitude_deg.to_radians()),
        longitude: angle::turn_by(sine_cosine, longitude_deg.to_radians()),
    }
}

/// Where a place lies in the Earth-fixed frame, in kilometres.
pub open spec fn place_of(spheroid: Wgs84, at: Bearings, altitude_km: Double) -> Seq<Double> {
    let normal = normal_km(spheroid, at.latitude.sine);
    let out = arithmetic::product(arithmetic::sum(normal, altitude_km), at.latitude.cosine);
    seq![
        arithmetic::product(out, at.longitude.cosine),
        arithmetic::product(out, at.longitude.sine),
        arithmetic::product(
            arithmetic::sum(
                arithmetic::product(
                    normal,
                    arithmetic::difference(
                        Double { bits: ONE },
                        eccentricity_squared(spheroid),
                    ),
                ),
                altitude_km,
            ),
            at.latitude.sine,
        ),
    ]
}

/// A place in the Earth-fixed frame, in kilometres.
pub fn place_at(spheroid: Wgs84, at: Bearings, altitude_km: Double) -> (result: [Double; 3])
    ensures
        result@ == place_of(spheroid, at, altitude_km),
{
    let eccentricity: Double = spheroid.eccentricity();
    let e2: Double = eccentricity.times(eccentricity);
    let normal: Double = normal_of(spheroid, at.latitude.sine);
    let out: Double = normal.plus(altitude_km).times(at.latitude.cosine);
    let result: [Double; 3] = [
        out.times(at.longitude.cosine),
        out.times(at.longitude.sine),
        normal.times(Double::from_bits(ONE).minus(e2)).plus(altitude_km).times(at.latitude.sine),
    ];
    assert(result@ =~= place_of(spheroid, at, altitude_km));
    result
}

/// The sine of the elevation of a target over the horizon of a place at sea
/// level: the upward part of the way to it, over its length.
pub open spec fn elevation_sine_of(spheroid: Wgs84, at: Bearings, target_km: Seq<Double>) -> Double {
    let place = place_of(spheroid, at, Double { bits: 0 });
    let dx = arithmetic::difference(target_km[0], place[0]);
    let dy = arithmetic::difference(target_km[1], place[1]);
    let dz = arithmetic::difference(target_km[2], place[2]);
    let north = arithmetic::sum(
        arithmetic::difference(
            arithmetic::product(
                arithmetic::product(at.latitude.sine.negated(), at.longitude.cosine),
                dx,
            ),
            arithmetic::product(arithmetic::product(at.latitude.sine, at.longitude.sine), dy),
        ),
        arithmetic::product(at.latitude.cosine, dz),
    );
    let east = arithmetic::sum(
        arithmetic::product(at.longitude.sine.negated(), dx),
        arithmetic::product(at.longitude.cosine, dy),
    );
    let up = arithmetic::sum(
        arithmetic::sum(
            arithmetic::product(arithmetic::product(at.latitude.cosine, at.longitude.cosine), dx),
            arithmetic::product(arithmetic::product(at.latitude.cosine, at.longitude.sine), dy),
        ),
        arithmetic::product(at.latitude.sine, dz),
    );
    arithmetic::quotient(up, setpoint::length_of(seq![east, north, up]))
}

/// The sine of the elevation of a target, both in the Earth-fixed frame.
pub fn elevation_sine(spheroid: Wgs84, at: Bearings, target_km: [Double; 3]) -> (result: Double)
    ensures
        result == elevation_sine_of(spheroid, at, target_km@),
{
    let place: [Double; 3] = place_at(spheroid, at, Double::zero());
    assert(place[0] == place@[0] && place[1] == place@[1] && place[2] == place@[2]);
    let dx: Double = target_km[0].minus(place[0]);
    let dy: Double = target_km[1].minus(place[1]);
    let dz: Double = target_km[2].minus(place[2]);
    let north: Double = at.latitude.sine.neg().times(at.longitude.cosine).times(dx).minus(
        at.latitude.sine.times(at.longitude.sine).times(dy),
    ).plus(at.latitude.cosine.times(dz));
    let east: Double = at.longitude.sine.neg().times(dx).plus(at.longitude.cosine.times(dy));
    let up: Double = at.latitude.cosine.times(at.longitude.cosine).times(dx).plus(
        at.latitude.cosine.times(at.longitude.sine).times(dy),
    ).plus(at.latitude.sine.times(dz));
    let way: [Double; 3] = [east, north, up];
    assert(way@ =~= seq![east, north, up]);
    up.over(setpoint::magnitude(way))
}

/// Geodetic latitude and longitude in degrees and altitude in kilometres, in the
/// Earth-fixed frame in kilometres.
pub fn geodetic_to_ecef<S: Fn(Double) -> (Double, Double)>(
    latitude_deg: Double,
    longitude_deg: Double,
    altitude_km: Double,
    sine_cosine: &S,
) -> (result: [Double; 3])
    requires
        angle::answers_angles(*sine_cosine),
    ensures
        exists|at: Bearings|
            {
                &&& #[trigger] borne(*sine_cosine, latitude_deg, longitude_deg, at)
                &&& result@ == place_of(geomagnetism::wgs84(), at, altitude_km)
            },
{
    let at: Bearings = bearings(latitude_deg, longitude_deg, sine_cosine);
    place_at(Wgs84::default(), at, altitude_km)
}

/// That a target stands `degrees` high over the horizon of a place at sea level, as
/// the arc sine was answered.
pub open spec fn elevated<S: Fn(Double) -> (Double, Double), B: Fn(Double) -> Double>(
    sine_cosine: S,
    arc_sine: B,
    latitude_deg: Double,
    longitude_deg: Double,
    target_ecef_km: Seq<Double>,
    degrees: Double,
) -> bool {
    exists|at: Bearings, radians: Double|
        {
            &&& #[trigger] borne(sine_cosine, latitude_deg, longitude_deg, at)
            &&& call_ensures(
                arc_sine,
                (elevation_sine_of(geomagnetism::wgs84(), at, target_ecef_km),),
                radians,
            )
            &&& degrees == #[trigger] angle::in_degrees(radians)
        }
}

/// How high a target stands over the horizon of a ground station at sea level, in
/// degrees. Ninety degrees is straight overhead, zero is the horizon, and what is
/// negative is below it.
pub fn elevation_deg<S: Fn(Double) -> (Double, Double), B: Fn(Double) -> Double>(
    station_lat_deg: Double,
    station_lon_deg: Double,
    target_ecef_km: [Double; 3],
    sine_cosine: &S,
    arc_sine: &B,
) -> (result: Double)
    requires
        angle::answers_angles(*sine_cosine),
        angle::answers_sines(*arc_sine),
    ensures
        elevated(
            *sine_cosine,
            *arc_sine,
            station_lat_deg,
            station_lon_deg,
            target_ecef_km@,
            result,
        ),
{
    let at: Bearings = bearings(station_lat_deg, station_lon_deg, sine_cosine);
    let radians: Double = arc_sine(elevation_sine(Wgs84::default(), at, target_ecef_km));
    radians.to_degrees()
}

/// A cube.
pub open spec fn cubed(number: Double) -> Double {
    arithmetic::product(arithmetic::product(number, number), number)
}

/// The level distance from the Earth's axis.
pub open spec fn axis_distance(ecef_km: Seq<Double>) -> Double {
    arithmetic::root(
        arithmetic::sum(
            arithmetic::product(ecef_km[0], ecef_km[0]),
            arithmetic::product(ecef_km[1], ecef_km[1]),
        ),
    )
}

pub open spec fn polar_km(spheroid: Wgs84) -> Double {
    arithmetic::quotient(spheroid.polar(), Double { bits: THOUSAND })
}

/// The legs of the auxiliary angle from which the latitude is found.
pub open spec fn legs_of_auxiliary(spheroid: Wgs84, ecef_km: Seq<Double>) -> (Double, Double) {
    (
        arithmetic::product(ecef_km[2], geomagnetism::axis_km(spheroid)),
        arithmetic::product(axis_distance(ecef_km), polar_km(spheroid)),
    )
}

/// The legs of the auxiliary angle from which the latitude is found.
pub fn auxiliary_legs(spheroid: Wgs84, ecef_km: [Double; 3]) -> (result: (Double, Double))
    ensures
        result == legs_of_auxiliary(spheroid, ecef_km@),
{
    let a: Double = spheroid.equatorial_axis_m.over(Double::from_bits(THOUSAND));
    let b: Double = spheroid.polar_axis_m().over(Double::from_bits(THOUSAND));
    let p: Double = ecef_km[0].times(ecef_km[0]).plus(ecef_km[1].times(ecef_km[1])).sqrt();
    (ecef_km[2].times(a), p.times(b))
}

/// The legs of the latitude, in Bowring's closed form.
pub open spec fn legs_of_latitude(spheroid: Wgs84, ecef_km: Seq<Double>, auxiliary: Turn) -> (
    Double,
    Double,
) {
    let a = geomagnetism::axis_km(spheroid);
    let b = polar_km(spheroid);
    let ep2 = arithmetic::quotient(
        arithmetic::difference(arithmetic::product(a, a), arithmetic::product(b, b)),
        arithmetic::product(b, b),
    );
    (
        arithmetic::sum(
            ecef_km[2],
            arithmetic::product(arithmetic::product(ep2, b), cubed(auxiliary.sine)),
        ),
        arithmetic::difference(
            axis_distance(ecef_km),
            arithmetic::product(
                arithmetic::product(eccentricity_squared(spheroid), a),
                cubed(auxiliary.cosine),
            ),
        ),
    )
}

/// The legs of the latitude, given the auxiliary angle.
pub fn latitude_legs(spheroid: Wgs84, ecef_km: [Double; 3], auxiliary: Turn) -> (result: (
    Double,
    Double,
))
    ensures
        result == legs_of_latitude(spheroid, ecef_km@, auxiliary),
{
    let a: Double = spheroid.equatorial_axis_m.over(Double::from_bits(THOUSAND));
    let b: Double = spheroid.polar_axis_m().over(Double::from_bits(THOUSAND));
    let eccentricity: Double = spheroid.eccentricity();
    let e2: Double = eccentricity.times(eccentricity);
    let ep2: Double = a.times(a).minus(b.times(b)).over(b.times(b));
    let p: Double = ecef_km[0].times(ecef_km[0]).plus(ecef_km[1].times(ecef_km[1])).sqrt();
    let sine: Double = auxiliary.sine;
    let cosine: Double = auxiliary.cosine;
    (
        ecef_km[2].plus(ep2.times(b).times(sine.times(sine).times(sine))),
        p.minus(e2.times(a).times(cosine.times(cosine).times(cosine))),
    )
}

/// The height over the ellipsoid.
pub open spec fn height_of(spheroid: Wgs84, ecef_km: Seq<Double>, latitude: Turn) -> Double {
    arithmetic::difference(
        arithmetic::quotient(axis_distance(ecef_km), latitude.cosine),
        normal_km(spheroid, latitude.sine),
    )
}

/// The height over the ellipsoid, given the latitude.
pub fn height_km(spheroid: Wgs84, ecef_km: [Double; 3], latitude: Turn) -> (result: Double)
    ensures
        result == height_of(spheroid, ecef_km@, latitude),
{
    let p: Double = ecef_km[0].times(ecef_km[0]).plus(ecef_km[1].times(ecef_km[1])).sqrt();
    p.over(latitude.cosine).minus(normal_of(spheroid, latitude.sine))
}

/// That the auxiliary angle, the latitude and the longitude of a position are
/// those that were answered for its legs.
pub open spec fn located<S: Fn(Double) -> (Double, Double), A: Fn(Double, Double) -> Double>(
    sine_cosine: S,
    arc_tangent: A,
    spheroid: Wgs84,
    ecef_km: Seq<Double>,
    auxiliary: Turn,
    latitude: Turn,
    longitude: Double,
) -> bool {
    &&& call_ensures(arc_tangent, (ecef_km[1], ecef_km[0]), longitude)
    &&& call_ensures(arc_tangent, legs_of_auxiliary(spheroid, ecef_km), auxiliary.angle)
    &&& angle::turned(sine_cosine, auxiliary.angle, auxiliary)
    &&& call_ensures(arc_tangent, legs_of_latitude(spheroid, ecef_km, auxiliary), latitude.angle)
    &&& angle::turned(sine_cosine, latitude.angle, latitude)
}

/// That a place is the one of a position: its latitude and longitude in degrees,
/// and its height in kilometres.
pub open spec fn lies_below<S: Fn(Double) -> (Double, Double), A: Fn(Double, Double) -> Double>(
    sine_cosine: S,
    arc_tangent: A,
    spheroid: Wgs84,
    ecef_km: Seq<Double>,
    place: (Double, Double, Double),
) -> bool {
    exists|auxiliary: Turn, latitude: Turn, longitude: Double|
        {
            &&& #[trigger] located(
                sine_cosine,
                arc_tangent,
                spheroid,
                ecef_km,
                auxiliary,
                latitude,
                longitude,
            )
            &&& place == (
                angle::in_degrees(latitude.angle),
                angle::in_degrees(longitude),
                height_of(spheroid, ecef_km, latitude),
            )
        }
}

/// A position in the Earth-fixed frame as geodetic latitude and longitude in
/// degrees and height in kilometres, via Bowring's closed-form approximation.
pub fn ecef_to_geodetic<S: Fn(Double) -> (Double, Double), A: Fn(Double, Double) -> Double>(
    ecef_km: [Double; 3],
    spheroid: Wgs84,
    sine_cosine: &S,
    arc_tangent: &A,
) -> (result: (Double, Double, Double))
    requires
        angle::answers_angles(*sine_cosine),
        angle::answers_legs(*arc_tangent),
    ensures
        lies_below(*sine_cosine, *arc_tangent, spheroid, ecef_km@, result),
{
    let longitude: Double = arc_tangent(ecef_km[1], ecef_km[0]);
    let legs: (Double, Double) = auxiliary_legs(spheroid, ecef_km);
    let auxiliary: Turn = angle::turn_by(sine_cosine, arc_tangent(legs.0, legs.1));
    let legs: (Double, Double) = latitude_legs(spheroid, ecef_km, auxiliary);
    let latitude: Turn = angle::turn_by(sine_cosine, arc_tangent(legs.0, legs.1));
    assert(located(
        *sine_cosine,
        *arc_tangent,
        spheroid,
        ecef_km@,
        auxiliary,
        latitude,
        longitude,
    ));
    (
        latitude.angle.to_degrees(),
        longitude.to_degrees(),
        height_km(spheroid, ecef_km, latitude),
    )
}

/// That a position stands where the Earth has turned to at a moment, with the
/// point on the ellipsoid below it.
pub open spec fn stands<S: Fn(Double) -> (Double, Double), A: Fn(Double, Double) -> Double>(
    sine_cosine: S,
    arc_tangent: A,
    time: UtcDateTime,
    position: SatellitePosition,
) -> bool {
    exists|turn: Turn|
        {
            &&& #[trigger] angle::turned(sine_cosine, time.gmst(), turn)
            &&& seq![position.teme_x_km, position.teme_y_km, position.teme_z_km]
                == position.teme.km()
            &&& position.ecef_km@ == rotated(position.teme.km(), turn)
            &&& lies_below(
                sine_cosine,
                arc_tangent,
                geomagnetism::wgs84(),
                position.ecef_km@,
                (position.latitude, position.longitude, position.altitude_km),
            )
        }
}

/// A satellite whose propagated position lies in the direction of the sidereal time
/// stands over the meridian of Greenwich: nothing of it is to the east or west, and
/// its longitude is the arc tangent of that.
pub proof fn law_satellites_culminate_with_the_sidereal_time<
    S: Fn(Double) -> (Double, Double),
    A: Fn(Double, Double) -> Double,
>(sine_cosine: S, arc_tangent: A, time: UtcDateTime, position: SatellitePosition)
    requires
        stands(sine_cosine, arc_tangent, time, position),
        forall|turn: Turn| #[trigger]
            angle::turned(sine_cosine, time.gmst(), turn) ==> {
                &&& turn.sine.magnitude() <= 0x3ff0_0000_0000_0000
                &&& turn.cosine.magnitude() <= 0x3ff0_0000_0000_0000
                &&& position.teme_x_km == turn.cosine
                &&& position.teme_y_km == turn.sine
            },
    ensures
        position.ecef_km[1].equals(Double { bits: 0 }),
        (Double { bits: 0 }).at_most(position.ecef_km[0]),
        position.ecef_km[2] == position.teme_z_km,
        exists|longitude: Double| #[trigger]
            call_ensures(arc_tangent, (position.ecef_km[1], position.ecef_km[0]), longitude)
                && position.longitude == angle::in_degrees(longitude),
{
    let turn = choose|turn: Turn|
        {
            &&& #[trigger] angle::turned(sine_cosine, time.gmst(), turn)
            &&& seq![position.teme_x_km, position.teme_y_km, position.teme_z_km]
                == position.teme.km()
            &&& position.ecef_km@ == rotated(position.teme.km(), turn)
            &&& lies_below(
                sine_cosine,
                arc_tangent,
                geomagnetism::wgs84(),
                position.ecef_km@,
                (position.latitude, position.longitude, position.altitude_km),
            )
        };
    law_the_axes_turn_with_the_earth(turn, position.teme_z_km);
    assert(position.ecef_km[0] == position.ecef_km@[0] && position.ecef_km[1]
        == position.ecef_km@[1] && position.ecef_km[2] == position.ecef_km@[2]);
}

impl SatellitePosition {
    /// A propagated position as it is seen from the turning Earth at a moment.
    pub fn seen<S: Fn(Double) -> (Double, Double), A: Fn(Double, Double) -> Double>(
        teme: TemePosition,
        time: UtcDateTime,
        sine_cosine: &S,
        arc_tangent: &A,
    ) -> (result: Self)
        requires
            time.countable(),
            angle::answers_angles(*sine_cosine),
            angle::answers_legs(*arc_tangent),
        ensures
            result.teme == teme,
            stands(*sine_cosine, *arc_tangent, time, result),
    {
        let turn: Turn = angle::turn_by(sine_cosine, time.gmst_radians());
        let teme_km: [Double; 3] = teme.teme_km();
        let ecef_km: [Double; 3] = teme_to_ecef(teme_km, turn);
        let (latitude, longitude, altitude_km): (Double, Double, Double) = ecef_to_geodetic(
            ecef_km,
            Wgs84::default(),
            sine_cosine,
            arc_tangent,
        );
        assert(seq![teme_km[0], teme_km[1], teme_km[2]] =~= teme_km@);
        SatellitePosition {
            latitude,
            longitude,
            altitude_km,
            teme_x_km: teme_km[0],
            teme_y_km: teme_km[1],
            teme_z_km: teme_km[2],
            ecef_km,
            teme,
        }
    }
}

/// A point of the map: longitude and latitude.
pub open spec fn spot(position: SatellitePosition) -> (Double, Double) {
    (position.longitude, position.latitude)
}

/// That the way from one longitude to the next leads over the antimeridian.
pub open spec fn jumps(from: Double, to: Double) -> bool {
    (Double { bits: geomagnetism::HALF_TURN }).less(arithmetic::difference(to, from).absolute())
}

/// The polylines of a track, broken wherever the longitude jumps.
pub open spec fn polylines(track: Seq<SatellitePosition>) -> Seq<Seq<(Double, Double)>>
    decreases track.len(),
{
    if track.len() == 0 {
        Seq::empty()
    } else {
        let before = polylines(track.drop_last());
        let point = spot(track.last());
        if track.len() == 1 || jumps(track[track.len() - 2].longitude, track.last().longitude) {
            before.push(seq![point])
        } else {
            before.drop_last().push(before.last().push(point))
        }
    }
}

/// The points of a polyline, as pairs.
pub open spec fn pairs(line: Seq<[Double; 2]>) -> Seq<(Double, Double)> {
    line.map_values(|point: [Double; 2]| (point[0], point[1]))
}

/// All points of some polylines, in order.
pub open spec fn all_points(lines: Seq<Seq<(Double, Double)>>) -> Seq<(Double, Double)>
    decreases lines.len(),
{
    if lines.len() == 0 {
        Seq::empty()
    } else {
        all_points(lines.drop_last()) + lines.last()
    }
}

/// Breaking a track loses no point, adds none, and keeps their order; and no
/// polyline is empty.
pub proof fn law_breaking_keeps_every_point(track: Seq<SatellitePosition>)
    ensures
        all_points(polylines(track)) == track.map_values(
            |position: SatellitePosition| spot(position),
        ),
        forall|i: int| 0 <= i < polylines(track).len() ==> (#[trigger] polylines(track)[i]).len() > 0,
        track.len() > 0 ==> polylines(track).len() > 0,
    decreases track.len(),
{
    let points = track.map_values(|position: SatellitePosition| spot(position));
    if track.len() > 0 {
        let rest = track.drop_last();
        law_breaking_keeps_every_point(rest);
        let before = polylines(rest);
        let point = spot(track.last());
        let lines = polylines(track);
        let earlier = rest.map_values(|position: SatellitePosition| spot(position));
        assert(points =~= earlier.push(point));
        assert(lines.drop_last() =~= (if track.len() == 1 || jumps(
            track[track.len() - 2].longitude,
            track.last().longitude,
        ) {
            before
        } else {
            before.drop_last()
        }));
        assert(all_points(lines) =~= points);
        assert forall|i: int| 0 <= i < lines.len() implies (#[trigger] lines[i]).len() > 0 by {
            if i < lines.len() - 1 {
                assert(lines[i] == before[i]);
            }
        }
    }
}

/// That no step of a polyline leads over the antimeridian.
pub open spec fn unbroken(line: Seq<(Double, Double)>) -> bool {
    forall|i: int| 0 < i < line.len() ==> !jumps(line[i - 1].0, (#[trigger] line[i]).0)
}

/// That the way from the end of one polyline to the start of the next leads over
/// the antimeridian.
pub open spec fn parted(line: Seq<(Double, Double)>, next: Seq<(Double, Double)>) -> bool {
    jumps(line.last().0, next[0].0)
}

/// A track is broken exactly where the longitude jumps: inside a polyline it never
/// does, and from one polyline to the next it always does.
pub proof fn law_tracks_break_where_they_jump(track: Seq<SatellitePosition>)
    ensures
        forall|i: int| 0 <= i < polylines(track).len() ==> unbroken(#[trigger] polylines(track)[i]),
        forall|i: int|
            0 < i < polylines(track).len() ==> parted(
                polylines(track)[i - 1],
                #[trigger] polylines(track)[i],
            ),
        track.len() > 0 ==> polylines(track).last().last() == spot(track.last()),
    decreases track.len(),
{
    if track.len() > 0 {
        let rest = track.drop_last();
        law_tracks_break_where_they_jump(rest);
        law_breaking_keeps_every_point(rest);
        let before = polylines(rest);
        let lines = polylines(track);
        let point = spot(track.last());
        assert forall|i: int| 0 <= i < lines.len() implies unbroken(#[trigger] lines[i]) by {
            if i < lines.len() - 1 {
                assert(lines[i] == before[i]);
            } else if track.len() > 1 && !jumps(
                track[track.len() - 2].longitude,
                track.last().longitude,
            ) {
                let line = before.last();
                assert(unbroken(before[before.len() - 1]));
                assert(line.last() == spot(track[track.len() - 2]));
                assert(lines[i] == line.push(point));
                assert forall|j: int| 0 < j < lines[i].len() implies !jumps(
                    lines[i][j - 1].0,
                    (#[trigger] lines[i][j]).0,
                ) by {
                    if j < line.len() {
                        assert(lines[i][j] == line[j]);
                        assert(!jumps(line[j - 1].0, line[j].0));
                    }
                }
            }
        }
        assert forall|i: int| 0 < i < lines.len() implies parted(
            lines[i - 1],
            #[trigger] lines[i],
        ) by {
            assert(lines[i - 1] == before[i - 1]);
            if i < before.len() {
                assert(parted(before[i - 1], before[i]));
                assert(before[i].len() > 0);
                assert(lines[i][0] == before[i][0]);
            } else {
                assert(before.last().last() == spot(track[track.len() - 2]));
                assert(lines[i] == seq![point]);
            }
        }
    }
}

/// The polylines that a list holds.
pub open spec fn all_pairs(lines: Seq<Vec<[Double; 2]>>) -> Seq<Seq<(Double, Double)>> {
    lines.map_values(|line: Vec<[Double; 2]>| pairs(line@))
}

/// Splits a ground track into separate polylines wherever consecutive samples
/// jump more than 180 degrees in longitude, so that a plot draws the crossing of
/// the antimeridian as a break. Points are `[longitude, latitude]`.
pub fn split_dateline_segments(track: &[SatellitePosition]) -> (result: Vec<Vec<[Double; 2]>>)
    ensures
        all_pairs(result@) == polylines(track@),
{
    let mut segments: Vec<Vec<[Double; 2]>> = Vec::new();
    let mut current: Vec<[Double; 2]> = Vec::new();
    let mut at: usize = 0;
    assert(track@.take(0) =~= Seq::empty());
    assert(all_pairs(segments@) =~= Seq::empty());
    while at < track.len()
        invariant
            at <= track.len(),
            at == 0 ==> current@.len() == 0 && segments@.len() == 0,
            at > 0 ==> all_pairs(segments@).push(pairs(current@)) == polylines(
                track@.take(at as int),
            ),
        decreases track.len() - at,
    {
        let ghost seen = track@.take(at as int);
        let ghost next = track@.take(at + 1);
        assert(next.drop_last() =~= seen);
        let position: SatellitePosition = track[at];
        let point: [Double; 2] = [position.longitude, position.latitude];
        assert((point[0], point[1]) == spot(position));
        let ghost before = current@;
        let ghost done = segments@;
        if at > 0 && Double::from_bits(geomagnetism::HALF_TURN).lt(
            position.longitude.minus(track[at - 1].longitude).abs(),
        ) {
            segments.push(current);
            current = Vec::new();
            current.push(point);
            proof {
                assert(all_pairs(segments@) =~= all_pairs(done).push(pairs(before)));
                assert(pairs(current@) =~= seq![spot(position)]);
                assert(polylines(next) == polylines(seen).push(seq![spot(position)]));
            }
        } else {
            current.push(point);
            proof {
                assert(pairs(current@) =~= pairs(before).push(spot(position)));
                if at == 0 {
                    assert(next.len() == 1 && next.last() == position);
                    assert(polylines(seen).len() == 0);
                    assert(polylines(next) == polylines(seen).push(seq![spot(position)]));
                    assert(pairs(current@) =~= seq![spot(position)]);
                    assert(all_pairs(segments@).push(pairs(current@)) =~= polylines(next));
                } else {
                    let lines = polylines(seen);
                    assert(lines.drop_last() =~= all_pairs(segments@));
                    assert(lines.last() == pairs(before));
                }
            }
        }
        at = at + 1;
    }
    assert(track@.take(track.len() as int) =~= track@);
    if at > 0 {
        let ghost done = segments@;
        let ghost last = current@;
        segments.push(current);
        assert(all_pairs(segments@) =~= all_pairs(done).push(pairs(last)));
    }
    segments
}

/// An owned three-line element set: the form in which every element set that
/// arrives at run time is propagated, wherever it came from.
#[derive(Debug, Clone, PartialEq, Eq)]
pub struct TleSet {
    /// Object name for display. `None` when the source gave only the two
    /// orbital lines.
    pub name: Option<String>,
    /// Line 1, exactly as issued (69 columns, checksum included).
    pub line1: String,
    /// Line 2, exactly as issued.
    pub line2: String,
}

/// The second word of a line, if it has one.
pub open spec fn second_word(line: Seq<char>) -> Seq<char> {
    text::first_word(text::after_first_word(line))
}

/// `token` without what follows its last digit.
pub open spec fn up_to_last_digit(token: Seq<char>) -> Seq<char>
    decreases token.len(),
{
    if token.len() > 0 && !text::is_digit(token.last()) {
        up_to_last_digit(token.drop_last())
    } else {
        token
    }
}

/// What a line says against its catalog number, or the number.
pub open spec fn catalog(line1: Seq<char>) -> Result<nat, Seq<char>> {
    let token = second_word(line1);
    if token.len() == 0 {
        Err("line 1 has no catalog-number field"@)
    } else {
        match text::number(up_to_last_digit(token), u64::MAX as nat) {
            Some(number) => Ok(number),
            None => Err("`"@ + token + "` is not a catalog number"@),
        }
    }
}

impl TleSet {
    /// A set with no object name.
    pub fn new(line1: &str, line2: &str) -> (result: Self)
        ensures
            result.name is None,
            result.line1@ == line1@,
            result.line2@ == line2@,
    {
        TleSet { name: None, line1: line1.to_owned(), line2: line2.to_owned() }
    }

    /// A named set.
    pub fn named(name: &str, line1: &str, line2: &str) -> (result: Self)
        ensures
            result.name is Some && result.name->0@ == name@,
            result.line1@ == line1@,
            result.line2@ == line2@,
    {
        TleSet { name: Some(name.to_owned()), line1: line1.to_owned(), line2: line2.to_owned() }
    }

    /// Attaches (or replaces) the object name.
    pub fn with_name(self, name: &str) -> (result: Self)
        ensures
            result.name is Some && result.name->0@ == name@,
            result.line1 == self.line1,
            result.line2 == self.line2,
    {
        TleSet { name: Some(name.to_owned()), line1: self.line1, line2: self.line2 }
    }

    /// NORAD catalog number carried in field 2 of line 1 (the `25544` in
    /// `1 25544U 98067A ...`), without the classification letter behind it.
    pub fn catalog_number(&self) -> (result: Result<u64, SatelliteError>)
        ensures
            match catalog(self.line1@) {
                Ok(number) => result == Ok::<u64, SatelliteError>(number as u64),
                Err(reason) => result matches Err(SatelliteError::Tle(message)) && message@
                    == reason,
            },
    {
        let line: Vec<char> = text::chars_of(self.line1.as_str());
        assert(line@.skip(0) =~= line@);
        let (_, first_end): (usize, usize) = text::word_range(line.as_slice(), 0);
        let (start, end): (usize, usize) = text::word_range(line.as_slice(), first_end);
        let ghost token = line@.subrange(start as int, end as int);
        assert(token == second_word(self.line1@));
        if start == end {
            return Err(SatelliteError::Tle("line 1 has no catalog-number field".to_owned()));
        }
        let mut last: usize = end;
        assert(line@.subrange(start as int, last as int) =~= token);
        while last > start && !(line[last - 1] >= '0' && line[last - 1] <= '9')
            invariant
                start <= last <= end <= line.len(),
                up_to_last_digit(line@.subrange(start as int, last as int)) == up_to_last_digit(
                    token,
                ),
            decreases last,
        {
            let ghost here = line@.subrange(start as int, last as int);
            assert(here.drop_last() =~= line@.subrange(start as int, last - 1));
            assert(here.last() == line[last - 1]);
            last = last - 1;
        }
        let ghost here = line@.subrange(start as int, last as int);
        assert(last > start ==> here.last() == line[last - 1]);
        assert(here == up_to_last_digit(token));
        let digits: Vec<char> = text::copy_range(line.as_slice(), start, last);
        match text::parse_number(digits.as_slice(), u64::MAX) {
            Some(number) => Ok(number),
            None => {
                let mut message: String = "`".to_owned();
                message.append(text::string_of(line.as_slice(), start, end).as_str());
                message.append("` is not a catalog number");
                Err(SatelliteError::Tle(message))
            },
        }
    }

    /// Parses and validates the elements, returning a tracker ready to
    /// propagate.
    pub fn tracker(&self) -> (result: Result<SatelliteTracker, SatelliteError>)
        ensures
            SatelliteTracker::made_from(
                (match self.name {
                    Some(name) => Some(name@),
                    None => None,
                }),
                self.line1@,
                self.line2@,
                result,
            ),
    {
        let name: Option<&str> = match &self.name {
            Some(name) => Some(name.as_str()),
            None => None,
        };
        SatelliteTracker::from_tle(name, self.line1.as_str(), self.line2.as_str())
    }
}

/// A satellite known by heart.
#[derive(Debug, Clone, Copy)]
pub struct SatellitePreset {
    pub name: &'static str,
    pub line1: &'static str,
    pub line2: &'static str,
}

impl SatellitePreset {
    /// This preset as an owned [`TleSet`].
    pub fn to_tle_set(&self) -> (result: TleSet)
        ensures
            result.name is Some && result.name->0@ == self.name@,
            result.line1@ == self.line1@,
            result.line2@ == self.line2@,
    {
        TleSet::named(self.name, self.line1, self.line2)
    }
}

/// The satellites known by heart: name, line 1 and line 2.
pub const PRESETS: [(&'static str, &'static str, &'static str); 9] = [
    (
        "ISS (ZARYA)",
        "1 25544U 98067A   26036.50214262  .00012860  00000+0  24571-3 0  9997",
        "2 25544  51.6316 231.4727 0011155  67.3664 292.8503 15.48414003551342",
    ),
    (
        "THEOS",
        "1 33396U 08049A   26040.79524366  .00000115  00000+0  73973-4 0  9998",
        "2 33396  98.5761 102.1159 0001093  84.4399 275.6902 14.20111503899882",
    ),
    (
        "STARLINK-31229",
        "1 58986U 24031X   26036.39436483  .00000189  00000+0  18520-4 0  9990",
        "2 58986  53.1592  87.0519 0001084  99.7418 260.3705 15.30187592111562",
    ),
    (
        "BEIDOU-3 M1",
        "1 43001U 17069A   26036.57903495 -.00000046  00000+0  00000+0 0  9999",
        "2 43001  56.5755  67.4198 0011656 306.0537  53.8974  1.86231175 56158",
    ),
    (
        "GPS BIIF-3  (PRN 24)",
        "1 38833U 12053A   26035.19833436  .00000007  00000+0  00000+0 0  9994",
        "2 38833  53.5640 149.0493 0176647  64.5822 297.2173  2.00565464 96770",
    ),
    (
        "COSMOS 2564 (761)",
        "1 54377U 22161A   26036.37904223  .00000053  00000+0  00000+0 0  9991",
        "2 54377  64.7420 197.0834 0008836 205.0145 154.9145  2.13102005 24824",
    ),
    (
        "Fengyun (4A)",
        "1 41882U 16077A   26036.93722848 -.00000358  00000+0  00000+0 0  9999",
        "2 41882   1.9889  81.7930 0006361 133.3026  22.0577  1.00276422 33612",
    ),
    (
        "Thaicom 6",
        "1 39500U 14002A   26238.94608407 -.00000123  00000-0  00000-0 0  9990",
        "2 39500   0.0382 121.3160 0004254  20.7556 252.2382  1.00272232 46166",
    ),
    (
        "METEOSAT-11 (MSG-4)",
        "1 40732U 15034A   26036.91460836  .00000062  00000+0  00000+0 0  9999",
        "2 40732   2.8710  71.8338 0001172 241.7640 161.3542  1.00267859  5905",
    ),
];

impl SatellitePreset {
    /// The preset at `index`.
    pub fn at(index: usize) -> (result: Option<SatellitePreset>)
        ensures
            result is Some <==> index < 9,
            result matches Some(preset) ==> (preset.name, preset.line1, preset.line2)
                == PRESETS[index as int],
    {
        if index < 9 {
            let (name, line1, line2) = PRESETS[index];
            Some(SatellitePreset { name, line1, line2 })
        } else {
            None
        }
    }
}

/// A larger number is no nearer to a smaller whole one.
proof fn lemma_nearest_whole_keeps_order(less: Double, more: Double)
    requires
        less.at_most(more),
    ensures
        whole::nearest_whole(less) <= whole::nearest_whole(more),
{
    let unit = vstd::arithmetic::power2::pow2(1074);
    vstd::arithmetic::power2::lemma_pow2_pos(1074);
    let a = crate::double::double_units(less.magnitude());
    let b = crate::double::double_units(more.magnitude());
    if less.magnitude() <= more.magnitude() {
        crate::double::law_magnitudes_keep_order(less.magnitude(), more.magnitude());
        vstd::arithmetic::div_mod::lemma_div_is_ordered(
            2 * a + unit as int,
            2 * b + unit as int,
            2 * unit as int,
        );
    } else {
        crate::double::law_magnitudes_keep_order(more.magnitude(), less.magnitude());
        vstd::arithmetic::div_mod::lemma_div_is_ordered(
            2 * b + unit as int,
            2 * a + unit as int,
            2 * unit as int,
        );
    }
    assert(crate::double::double_units(0) == 0);
    vstd::arithmetic::div_mod::lemma_basic_div(unit as int, 2 * unit as int);
}

/// The samples of a ground track run once around the orbit, from half a period before
/// the moment in its middle to half a period after it.
pub proof fn law_tracks_reach_half_a_period_both_ways(period: Double, samples: int)
    requires
        period.finite(),
        2 <= samples <= u32::MAX,
    ensures
        ({
            let half = arithmetic::product(Double { bits: 0x3fe0_0000_0000_0000 }, period);
            let reach = whole::nearest_whole(
                arithmetic::product(half, Double { bits: 0x40ed_4c00_0000_0000 }),
            );
            &&& sample_offset(period, samples - 1, samples) == reach
            &&& -0x7fff_ffff_ffff_ffff <= reach < 0x7fff_ffff_ffff_ffff ==> sample_offset(
                period,
                0,
                samples,
            ) == -reach
        }),
{
    let half = Double { bits: 0x3fe0_0000_0000_0000 };
    let minute = Double { bits: 0x40ed_4c00_0000_0000 };
    let last = arithmetic::whole_number(samples - 1);
    whole::law_whole_numbers_are_exact(samples - 1);
    whole::law_whole_numbers_are_exact(0);
    let unit = vstd::arithmetic::power2::pow2(1074);
    vstd::arithmetic::power2::lemma_pow2_pos(1074);
    assert((samples - 1) * unit > 0) by (nonlinear_arith)
        requires
            samples >= 2,
            unit > 0,
    ;
    assert(0 * unit == 0);
    order::law_units_follow_rank(last, last);
    let first = arithmetic::whole_number(0);
    order::law_units_follow_rank(first, first);
    arithmetic::law_a_number_over_itself(last);
    order::law_half_of_one();
    assert(sample_fraction(samples - 1, samples) == half);
    arithmetic::law_zero_over_a_number(first, last);
    let none = arithmetic::quotient(first, last);
    arithmetic::law_terms_may_change_places(none, half.negated());
    arithmetic::law_zero_adds_nothing(half.negated(), none);
    assert(sample_fraction(0, samples) == half.negated());
    order::law_signs_pass_through_products(half, period);
    let way = arithmetic::product(half, period);
    arithmetic::law_products_are_numbers(half, period);
    order::law_signs_pass_through_products(way, minute);
    arithmetic::law_products_are_numbers(way, minute);
    let reach = arithmetic::product(way, minute);
    assert(arithmetic::product(arithmetic::product(half.negated(), period), minute)
        == reach.negated());
    assert(reach.negated().magnitude() == reach.magnitude());
}

/// The samples of a ground track follow one another in time.
pub proof fn law_samples_follow_one_another(period: Double, index: int, later: int, samples: int)
    requires
        period.finite(),
        (Double { bits: 0 }).at_most(period),
        0 <= index <= later < samples,
        2 <= samples <= u32::MAX,
    ensures
        sample_offset(period, index, samples) <= sample_offset(period, later, samples),
{
    let half = Double { bits: 0x3fe0_0000_0000_0000 };
    let minute = Double { bits: 0x40ed_4c00_0000_0000 };
    let last = arithmetic::whole_number(samples - 1);
    let a = arithmetic::whole_number(index);
    let b = arithmetic::whole_number(later);
    whole::law_whole_numbers_are_exact(samples - 1);
    whole::law_whole_numbers_are_exact(index);
    whole::law_whole_numbers_are_exact(later);
    let unit = vstd::arithmetic::power2::pow2(1074);
    vstd::arithmetic::power2::lemma_pow2_pos(1074);
    assert((samples - 1) * unit > 0 && index * unit <= later * unit) by (nonlinear_arith)
        requires
            samples >= 2,
            unit > 0,
            index <= later,
    ;
    order::law_units_follow_rank(last, last);
    crate::double::law_rank_is_the_order_of_the_numbers(a, b);
    arithmetic::law_quotients_are_numbers(a, last);
    arithmetic::law_quotients_are_numbers(b, last);
    order::law_quotients_keep_order(a, b, last);
    let p = arithmetic::quotient(a, last);
    let q = arithmetic::quotient(b, last);
    arithmetic::law_sums_are_numbers(p, half.negated());
    arithmetic::law_sums_are_numbers(q, half.negated());
    order::law_differences_keep_order(p, half, q, half);
    let c = sample_fraction(index, samples);
    let d = sample_fraction(later, samples);
    lemma_fraction_finite(index, samples);
    lemma_fraction_finite(later, samples);
    arithmetic::law_products_are_numbers(c, period);
    arithmetic::law_products_are_numbers(d, period);
    order::law_products_keep_order(c, d, period);
    let e = arithmetic::product(c, period);
    let f = arithmetic::product(d, period);
    arithmetic::law_products_are_numbers(e, minute);
    arithmetic::law_products_are_numbers(f, minute);
    order::law_products_keep_order(e, f, minute);
    lemma_nearest_whole_keeps_order(
        arithmetic::product(e, minute),
        arithmetic::product(f, minute),
    );
}

/// A sample lies no further than a whole orbit from the middle.
proof fn lemma_fraction_finite(index: int, samples: int)
    requires
        0 <= index < samples,
        2 <= samples <= u32::MAX,
    ensures
        sample_fraction(index, samples).finite(),
{
    let half = Double { bits: 0x3fe0_0000_0000_0000 };
    let one = Double { bits: 0x3ff0_0000_0000_0000 };
    let last = arithmetic::whole_number(samples - 1);
    let a = arithmetic::whole_number(index);
    whole::law_whole_numbers_are_exact(samples - 1);
    whole::law_whole_numbers_are_exact(index);
    let unit = vstd::arithmetic::power2::pow2(1074);
    vstd::arithmetic::power2::lemma_pow2_pos(1074);
    assert((samples - 1) * unit > 0 && 0 <= index * unit <= (samples - 1) * unit)
        by (nonlinear_arith)
        requires
            samples >= 2,
            unit > 0,
            0 <= index <= samples - 1,
    ;
    order::law_units_follow_rank(last, last);
    order::law_units_follow_rank(a, a);
    crate::double::law_rank_is_the_order_of_the_numbers(a, last);
    let q = arithmetic::quotient(a, last);
    arithmetic::law_quotients_are_numbers(a, last);
    if a.magnitude() == 0 {
        arithmetic::law_zero_over_a_number(a, last);
    } else if a.rank() < last.rank() {
        arithmetic::law_a_smaller_over_a_larger(a, last);
    } else {
        arithmetic::law_a_number_over_itself(last);
    }
    arithmetic::law_sums_are_numbers(q, half.negated());
    arithmetic::law_sums_are_numbers(one, half.negated());
    order::law_half_of_one();
    order::law_differences_keep_order(q, half, one, half);
    let none = Double { bits: 0 };
    arithmetic::law_terms_may_change_places(none, half.negated());
    arithmetic::law_zero_adds_nothing(half.negated(), none);
    order::law_differences_keep_order(none, half, q, half);
}

} // verus!

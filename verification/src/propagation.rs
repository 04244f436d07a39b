//! The propagator: what is handed to `sgp4`, and what comes back from it.
//!
//! What is read, prepared or propagated here keeps the two lines that it goes by.
//! Nothing else can make an [`ElementSet`], a [`Propagator`] or a
//! [`TemePosition`], so one that is at hand was read, prepared or propagated.
use crate::arithmetic;
use crate::decimal;
use crate::double::Double;
use vstd::prelude::*;

verus! {

/// `sgp4::Elements`, opaque.
#[verifier::external_type_specification]
#[verifier::external_body]
pub struct ExElements(sgp4::Elements);

/// `sgp4::Constants`, opaque.
#[verifier::external_type_specification]
#[verifier::external_body]
pub struct ExConstants(sgp4::Constants);

/// A moment: the seconds since the beginning of 1970, and the nanoseconds behind
/// them. Inside a leap second there are more than a second's worth of those.
#[derive(Debug, Clone, Copy, PartialEq, Eq, Structural)]
pub struct Epoch {
    pub seconds: i64,
    pub nanoseconds: u32,
}

impl Epoch {
    /// That it is an epoch of element sets, which name their years by two digits:
    /// one of the years from 1957 to 2056.
    pub open spec fn wf(self) -> bool {
        -410_227_200 <= self.seconds < 2_745_532_800 && self.nanoseconds < 1_000_000_000
    }

    /// That it is a moment of the years that chrono holds, from -262143 to 262142,
    /// with leap seconds at the ends of minutes only.
    pub open spec fn dated(self) -> bool {
        &&& -8_334_601_228_800 <= self.seconds <= 8_210_266_876_799
        &&& self.nanoseconds < 1_000_000_000 || (self.seconds % 60 == 59 && self.nanoseconds
            < 2_000_000_000)
    }

    /// The nanoseconds since the beginning of 1970.
    pub open spec fn count(self) -> int {
        self.seconds * 1_000_000_000 + self.nanoseconds
    }
}

/// How far a moment lies behind an epoch, in nanoseconds. A leap second whose time
/// of day is not past that of the epoch has not been counted yet.
pub open spec fn difference(at: Epoch, epoch: Epoch) -> int {
    at.count() - epoch.count() - (if at.nanoseconds >= 1_000_000_000 && at.seconds % 86_400
        < epoch.seconds % 86_400 {
        1_000_000_000int
    } else {
        0
    })
}

/// What `sgp4::Elements::from_tle` makes of two lines, given as bytes: the seconds
/// and the nanoseconds of the epoch, or what it says against them.
pub uninterp spec fn tle_reading(line1: Seq<u8>, line2: Seq<u8>) -> Result<
    (int, int),
    Seq<char>,
>;

/// That a line is as long as it should be and ends in a character below `0`,
/// from which no checksum digit can be taken.
pub open spec fn ends_below_digits(line: Seq<u8>) -> bool {
    line.len() == 69 && line[68] < 48
}

/// That a number was read: the one that `field` spells, where all patterns that
/// stand for no number count as one.
pub open spec fn spelled(field: Seq<char>, number: Double) -> bool {
    decimal::number(field) matches Some(value) && (value == number || (value.nan() && number.nan()))
}

pub open spec fn is_ascii_space(character: char) -> bool {
    character == ' ' || character == '\t' || character == '\n' || character == '\r' || character
        == '\u{c}'
}

/// `field` without the ASCII white space before it.
pub open spec fn without_spaces_before(field: Seq<char>) -> Seq<char>
    decreases field.len(),
{
    if field.len() > 0 && is_ascii_space(field[0]) {
        without_spaces_before(field.skip(1))
    } else {
        field
    }
}

/// The columns of the second line that hold the mean motion.
pub open spec fn mean_motion_field(line2: Seq<u8>) -> Seq<char> {
    without_spaces_before(line2.subrange(52, 63).map_values(|byte: u8| byte as char))
}

/// A text that may be missing.
pub open spec fn text_of(name: Option<&str>) -> Option<Seq<char>> {
    match name {
        Some(name) => Some(name@),
        None => None,
    }
}

/// An element set that was read, with the name and the two lines that it was read
/// from.
pub struct ElementSet {
    elements: sgp4::Elements,
    name: Option<String>,
    line1: [u8; 69],
    line2: [u8; 69],
    mean_motion: Double,
    epoch: Epoch,
}

impl ElementSet {
    /// The name it was read under.
    pub closed spec fn called(self) -> Option<Seq<char>> {
        match self.name {
            Some(name) => Some(name@),
            None => None,
        }
    }

    /// The first line that it was read from.
    pub closed spec fn first(self) -> Seq<u8> {
        self.line1@
    }

    /// The second line that it was read from.
    pub closed spec fn second(self) -> Seq<u8> {
        self.line2@
    }

    /// The mean motion, in revolutions per day.
    pub closed spec fn motion(self) -> Double {
        self.mean_motion
    }

    /// The epoch.
    pub closed spec fn start(self) -> Epoch {
        self.epoch
    }

    /// The mean motion, in revolutions per day.
    pub fn mean_motion(&self) -> (result: Double)
        ensures
            result == self.motion(),
    {
        self.mean_motion
    }

    /// The epoch.
    pub fn epoch(&self) -> (result: Epoch)
        ensures
            result == self.start(),
    {
        self.epoch
    }
}

/// `sgp4::Elements::from_tle`: reads an element set. It is refused with the text
/// that [`tle_reading`] gives, or read together with its epoch, which
/// [`tle_reading`] gives as well and which lies in the years that two digits tell
/// apart, and with its mean motion in revolutions per day, which is the number in
/// columns 53 to 63 of the second line. The set keeps the name and the two lines,
/// which are 69 bytes long where they are read at all. What else the elements hold
/// is not stated, nor which of the patterns that stand for no number a mean motion
/// is that is none.
#[verifier::external_body]
pub(crate) fn parse_elements(name: Option<&str>, line1: &[u8], line2: &[u8]) -> (result: Result<
    ElementSet,
    String,
>)
    requires
        !ends_below_digits(line1@),
        !ends_below_digits(line2@),
    ensures
        match result {
            Ok(set) => {
                &&& tle_reading(line1@, line2@) == Ok::<(int, int), Seq<char>>(
                    (set.start().seconds as int, set.start().nanoseconds as int),
                )
                &&& set.start().wf()
                &&& spelled(mean_motion_field(line2@), set.motion())
                &&& set.called() == text_of(name)
                &&& set.first() == line1@
                &&& set.second() == line2@
            },
            Err(fault) => tle_reading(line1@, line2@) == Err::<(int, int), Seq<char>>(fault@),
        },
{
    let name = name.map(str::to_owned);
    let elements = sgp4::Elements::from_tle(name.clone(), line1, line2);
    let elements = elements.map_err(|error| error.to_string())?;
    let mean_motion = Double { bits: elements.mean_motion.to_bits() };
    let at = elements.datetime.and_utc();
    let epoch = Epoch { seconds: at.timestamp(), nanoseconds: at.timestamp_subsec_nanos() };
    let line1 = line1.try_into().map_err(|_| String::new())?;
    let line2 = line2.try_into().map_err(|_| String::new())?;
    Ok(ElementSet { elements, name, line1, line2, mean_motion, epoch })
}

/// The mean motion in radians per minute: times `pi / 720`.
pub open spec fn radians_per_minute(motion: Double) -> Double {
    arithmetic::product(motion, Double { bits: 0x3f71_df46_a252_9d39 })
}

/// That a satellite does not move forward.
pub open spec fn motionless(motion: Double) -> bool {
    radians_per_minute(motion).at_most(Double { bits: 0 })
}

/// That `text` begins with `head`.
pub open spec fn begins(text: Seq<char>, head: Seq<char>) -> bool {
    head.len() <= text.len() && text.take(head.len() as int) == head
}

/// What is said of a satellite that does not move forward.
pub const NO_KOZAI_MOTION: &'static str =
    "The Kozai mean motion calculated from epoch elements is negative";

/// That a text says why the elements of a moving satellite cannot be prepared.
pub open spec fn unprepared(text: Seq<char>) -> bool {
    ||| text == "The Brouwer mean motion calculated from epoch elements is negative"@
    ||| begins(text, "The epoch eccentricity ("@)
}

/// An element set, with what was prepared from it.
pub struct Propagator {
    set: ElementSet,
    constants: sgp4::Constants,
}

impl Propagator {
    /// The element set that was prepared.
    pub closed spec fn set(self) -> ElementSet {
        self.set
    }

    /// The element set that was prepared.
    pub fn element_set(&self) -> (result: &ElementSet)
        ensures
            *result == self.set(),
    {
        &self.set
    }
}

/// `sgp4::Constants::from_elements`: prepares an element set for propagation, and
/// keeps it beside what was prepared. One whose mean motion is not above zero, in
/// radians per minute, is refused for that; any other may be refused for the mean
/// motion that is worked out from it, or for its eccentricity. Which of those are
/// refused rests on the machine's trigonometry, and is not stated.
#[verifier::external_body]
pub(crate) fn prepare(set: ElementSet) -> (result: Result<Propagator, String>)
    ensures
        match result {
            Ok(ready) => ready.set() == set && !motionless(set.motion()),
            Err(reason) => if motionless(set.motion()) {
                reason@ == NO_KOZAI_MOTION@
            } else {
                unprepared(reason@)
            },
        },
{
    match sgp4::Constants::from_elements(&set.elements) {
        Ok(constants) => Ok(Propagator { set, constants }),
        Err(error) => Err(error.to_string()),
    }
}

/// That a gap can be propagated over.
pub open spec fn bridged(gap: int) -> bool {
    i64::MIN <= gap <= i64::MAX
}

/// A gap in minutes.
pub open spec fn minutes_of(gap: int) -> Double {
    arithmetic::quotient(arithmetic::whole_number(gap), Double { bits: 0x422b_f08e_b000_0000 })
}

/// What `sgp4::Elements::datetime_to_minutes_since_epoch` says of a moment that is
/// too far from an epoch; both are given by seconds and nanoseconds since the
/// beginning of 1970.
pub uninterp spec fn too_far(
    epoch_seconds: int,
    epoch_nanoseconds: int,
    seconds: int,
    nanoseconds: int,
) -> Seq<char>;

/// `sgp4::Elements::datetime_to_minutes_since_epoch`: how far a moment lies behind
/// the epoch of an element set. That is the difference in nanoseconds, turned into
/// a number and divided by `6e10`; a difference of more than 64 bits is refused
/// with the text of [`too_far`].
#[verifier::external_body]
pub(crate) fn minutes_since_epoch(set: &ElementSet, at: Epoch) -> (result: Result<Double, String>)
    requires
        set.start().wf(),
        at.dated(),
    ensures
        match result {
            Ok(minutes) => {
                &&& bridged(difference(at, set.start()))
                &&& minutes == minutes_of(difference(at, set.start()))
            },
            Err(reason) => {
                &&& !bridged(difference(at, set.start()))
                &&& reason@ == too_far(
                    set.start().seconds as int,
                    set.start().nanoseconds as int,
                    at.seconds as int,
                    at.nanoseconds as int,
                )
            },
        },
{
    let moment = chrono::DateTime::from_timestamp(at.seconds, at.nanoseconds);
    let moment = moment.ok_or_else(String::new)?.naive_utc();
    match set.elements.datetime_to_minutes_since_epoch(&moment) {
        Ok(minutes) => Ok(Double { bits: minutes.0.to_bits() }),
        Err(error) => Err(error.to_string()),
    }
}

/// A position in the propagator's frame that was propagated, with the two lines
/// that it was propagated from and how many minutes behind their epoch.
#[derive(Debug, Clone, Copy, PartialEq)]
pub struct TemePosition {
    line1: [u8; 69],
    line2: [u8; 69],
    minutes: Double,
    teme_km: [Double; 3],
}

impl TemePosition {
    /// The first line of the element set.
    pub closed spec fn first(self) -> Seq<u8> {
        self.line1@
    }

    /// The second line of the element set.
    pub closed spec fn second(self) -> Seq<u8> {
        self.line2@
    }

    /// How many minutes behind the epoch the position is taken.
    pub closed spec fn behind(self) -> Double {
        self.minutes
    }

    /// The position, in kilometres.
    pub closed spec fn km(self) -> Seq<Double> {
        self.teme_km@
    }

    /// The two lines of the element set.
    pub fn lines(&self) -> (result: ([u8; 69], [u8; 69]))
        ensures
            result.0@ == self.first(),
            result.1@ == self.second(),
    {
        (self.line1, self.line2)
    }

    /// How many minutes behind the epoch the position is taken.
    pub fn minutes(&self) -> (result: Double)
        ensures
            result == self.behind(),
    {
        self.minutes
    }

    /// The position, in kilometres.
    pub fn teme_km(&self) -> (result: [Double; 3])
        ensures
            result@ == self.km(),
    {
        self.teme_km
    }
}

/// That a text says why an orbit cannot be followed to a moment.
pub open spec fn diverged(text: Seq<char>) -> bool {
    ||| begins(text, "The propagated eccentricity ("@)
    ||| begins(text, "The propagated semi-latus rectum is negative "@)
}

/// `sgp4::Constants::propagate`: the position of a prepared element set at a
/// moment, which `sgp4::Elements::datetime_to_minutes_since_epoch` turns into the
/// minutes that are handed over. Those and the lines of the set are handed back
/// beside the position. The position itself, and which moments are refused, rest
/// on the machine's trigonometry, and nothing is stated of them but how a refusal
/// begins.
#[verifier::external_body]
pub(crate) fn propagate(ready: &Propagator, at: Epoch) -> (result: Result<TemePosition, String>)
    requires
        ready.set().start().wf(),
        at.dated(),
        bridged(difference(at, ready.set().start())),
    ensures
        match result {
            Ok(position) => {
                &&& position.first() == ready.set().first()
                &&& position.second() == ready.set().second()
                &&& position.behind() == minutes_of(difference(at, ready.set().start()))
            },
            Err(reason) => diverged(reason@),
        },
{
    let (line1, line2) = (ready.set.line1, ready.set.line2);
    let moment = chrono::DateTime::from_timestamp(at.seconds, at.nanoseconds);
    let moment = moment.ok_or_else(String::new)?.naive_utc();
    let behind = ready.set.elements.datetime_to_minutes_since_epoch(&moment);
    let behind = behind.map_err(|error| error.to_string())?;
    let minutes = Double { bits: behind.0.to_bits() };
    let position = ready.constants.propagate(behind).map_err(|error| error.to_string())?.position;
    let teme_km = position.map(|value| Double { bits: value.to_bits() });
    Ok(TemePosition { line1, line2, minutes, teme_km })
}

} // verus!

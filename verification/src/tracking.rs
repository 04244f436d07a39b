//! Tracking satellites on a simulated clock: what is tracked, when it is
//! propagated again, and what is reported of it.
use crate::angle;
use crate::arithmetic;
use crate::double::Double;
use crate::geomagnetism::{
    Coordinate, CoordinateZ, GeomagnetismCalculator, GeomagnetismError, GeomagnetismResult,
    UtcDateTime,
};
use crate::geomagnetism;
use crate::links;
use crate::satellite;
use crate::satellite::{SatelliteError, SatellitePosition, SatellitePreset, SatelliteTracker};
use crate::text;
use crate::tle_store::StoredTle;
use crate::whole;
use vstd::prelude::*;

verus! {

/// How many points a ground track has, spread over one full period.
pub const GROUND_TRACK_SAMPLES: u32 = 121;

/// 1 s: how often everything that is tracked is propagated.
pub const TRACKING_INTERVAL: u128 = 1_000_000_000;

/// Why tracking cannot start.
pub const NOTHING_TO_TRACK: &'static str = "Add at least one satellite first";

/// Why nothing can be propagated.
pub const TIME_OUT_OF_RANGE: &'static str = "simulated time is out of range";

/// The name under which a satellite is shown: it always has one.
pub open spec fn shown_name(name: Seq<char>) -> Seq<char> {
    if text::trim(name).len() == 0 {
        "Satellite"@
    } else {
        name
    }
}

pub fn display_name(name: &str) -> (result: String)
    ensures
        result@ == shown_name(name@),
{
    if text::is_blank(name) {
        "Satellite".to_owned()
    } else {
        name.to_owned()
    }
}

/// Element sets as they stand in the form for a new satellite.
#[derive(Debug, Clone)]
pub struct Draft {
    pub name: String,
    pub line1: String,
    pub line2: String,
}

/// The form filled in from a preset: with what is stored for its catalog number,
/// where something is, since a fetched set is fresher than one known by heart.
pub fn draft_from_preset(preset: &SatellitePreset, stored: Option<&StoredTle>) -> (result: Draft)
    ensures
        match stored {
            Some(stored) => {
                &&& result.name@ == (if text::trim(stored.object_name@).len() == 0 {
                    preset.name@
                } else {
                    stored.object_name@
                })
                &&& result.line1@ == stored.line1@
                &&& result.line2@ == stored.line2@
            },
            None => {
                &&& result.name@ == preset.name@
                &&& result.line1@ == preset.line1@
                &&& result.line2@ == preset.line2@
            },
        },
{
    match stored {
        Some(stored) => Draft {
            name: if text::is_blank(stored.object_name.as_str()) {
                preset.name.to_owned()
            } else {
                stored.object_name.as_str().to_owned()
            },
            line1: stored.line1.as_str().to_owned(),
            line2: stored.line2.as_str().to_owned(),
        },
        None => Draft {
            name: preset.name.to_owned(),
            line1: preset.line1.to_owned(),
            line2: preset.line2.to_owned(),
        },
    }
}

/// What choosing a search result comes to: the form filled in and a status line,
/// or an error line, where the result has no orbital lines.
pub fn draft_from_result(row: &StoredTle) -> (result: Result<(Draft, String), String>)
    ensures
        if text::trim(row.line1@).len() == 0 || text::trim(row.line2@).len() == 0 {
            result is Err && result->Err_0@ == row.object_name@ + " has no TLE lines stored"@
        } else {
            &&& result is Ok
            &&& result->Ok_0.0.name@ == row.object_name@
            &&& result->Ok_0.0.line1@ == row.line1@
            &&& result->Ok_0.0.line2@ == row.line2@
            &&& result->Ok_0.1@ == row.object_name@
                + " loaded into \"Add satellite\" \u{2014} press \"Add satellite\" to track it"@
        },
{
    if text::is_blank(row.line1.as_str()) || text::is_blank(row.line2.as_str()) {
        let mut message: String = row.object_name.as_str().to_owned();
        message.append(" has no TLE lines stored");
        return Err(message);
    }
    let mut status: String = row.object_name.as_str().to_owned();
    status.append(" loaded into \"Add satellite\" \u{2014} press \"Add satellite\" to track it");
    Ok(
        (
            Draft {
                name: row.object_name.as_str().to_owned(),
                line1: row.line1.as_str().to_owned(),
                line2: row.line2.as_str().to_owned(),
            },
            status,
        ),
    )
}

/// Whether what is stored for a satellite differs from what is tracked, white
/// space around the lines aside.
pub fn is_outdated(line1: &str, line2: &str, stored: &StoredTle) -> (result: bool)
    ensures
        result == !(text::trim(stored.line1@) == text::trim(line1@) && text::trim(stored.line2@)
            == text::trim(line2@)),
{
    let first: String = text::trimmed(line1);
    let second: String = text::trimmed(line2);
    let stored_first: String = text::trimmed(stored.line1.as_str());
    let stored_second: String = text::trimmed(stored.line2.as_str());
    !(text::same(stored_first.as_str(), first.as_str()) && text::same(
        stored_second.as_str(),
        second.as_str(),
    ))
}

/// The ground station: where it stands and how far above the horizon a satellite
/// has to be for it, in degrees.
#[derive(Debug, Clone, Copy, PartialEq, Eq, Structural)]
pub struct Station {
    pub latitude: Double,
    pub longitude: Double,
    pub elevation_mask: Double,
}

/// 18.85 and 98.96 degrees: where the station stands unless it is told.
pub const STATION_LATITUDE: u64 = 0x4032_d999_9999_999a;

pub const STATION_LONGITUDE: u64 = 0x4058_bd70_a3d7_0a3d;

/// 10 degrees.
pub const ELEVATION_MASK: u64 = 0x4024_0000_0000_0000;

/// 90 and 180 degrees.
pub const QUARTER_TURN: u64 = 0x4056_8000_0000_0000;

pub const HALF_TURN: u64 = 0x4066_8000_0000_0000;

/// An angle held inside its range, or the one to fall back on.
pub open spec fn held_angle(angle: Double, low: Double, high: Double, otherwise: Double) -> Double {
    if angle.finite() {
        angle.clamped(low, high)
    } else {
        otherwise
    }
}

fn hold_angle(angle: Double, low: Double, high: Double, otherwise: Double) -> (result: Double)
    requires
        low.at_most(high),
    ensures
        result == held_angle(angle, low, high, otherwise),
{
    if angle.is_finite() {
        angle.clamp(low, high)
    } else {
        otherwise
    }
}

impl Default for Station {
    fn default() -> (result: Self)
        ensures
            result == (Station {
                latitude: Double { bits: STATION_LATITUDE },
                longitude: Double { bits: STATION_LONGITUDE },
                elevation_mask: Double { bits: ELEVATION_MASK },
            }),
    {
        Station {
            latitude: Double::from_bits(STATION_LATITUDE),
            longitude: Double::from_bits(STATION_LONGITUDE),
            elevation_mask: Double::from_bits(ELEVATION_MASK),
        }
    }
}

impl Station {
    /// That the station stands on the globe and looks at or above the horizon.
    pub open spec fn placed(self) -> bool {
        &&& self.latitude.finite() && self.latitude.absolute().at_most(
            Double { bits: QUARTER_TURN },
        )
        &&& self.longitude.finite() && self.longitude.absolute().at_most(
            Double { bits: HALF_TURN },
        )
        &&& self.elevation_mask.finite() && (Double { bits: 0 }).at_most(self.elevation_mask)
            && self.elevation_mask.at_most(Double { bits: QUARTER_TURN })
    }

    /// Keeps the angles inside what they can mean.
    pub fn sanitize(&mut self)
        ensures
            final(self).placed(),
            *final(self) == (Station {
                latitude: held_angle(
                    old(self).latitude,
                    (Double { bits: QUARTER_TURN }).negated(),
                    Double { bits: QUARTER_TURN },
                    Double { bits: STATION_LATITUDE },
                ),
                longitude: held_angle(
                    old(self).longitude,
                    (Double { bits: HALF_TURN }).negated(),
                    Double { bits: HALF_TURN },
                    Double { bits: STATION_LONGITUDE },
                ),
                elevation_mask: held_angle(
                    old(self).elevation_mask,
                    Double { bits: 0 },
                    Double { bits: QUARTER_TURN },
                    Double { bits: ELEVATION_MASK },
                ),
            }),
    {
        let quarter: Double = Double::from_bits(QUARTER_TURN);
        let half: Double = Double::from_bits(HALF_TURN);
        self.latitude =
        hold_angle(self.latitude, quarter.neg(), quarter, Double::from_bits(STATION_LATITUDE));
        self.longitude =
        hold_angle(self.longitude, half.neg(), half, Double::from_bits(STATION_LONGITUDE));
        self.elevation_mask =
        hold_angle(
            self.elevation_mask,
            Double::zero(),
            quarter,
            Double::from_bits(ELEVATION_MASK),
        );
    }
}

/// The simulated clock.
#[derive(Debug, Clone, Copy, PartialEq)]
pub struct SimulatedClock {
    /// Whether tracking runs.
    pub tracking: bool,
    /// Simulated seconds per real second.
    pub speed: i32,
    /// How far the simulated time is from the real one, in seconds.
    pub offset_s: Double,
    /// When everything was last propagated.
    pub last_tick: Option<u128>,
}

impl Default for SimulatedClock {
    fn default() -> (result: Self)
        ensures
            result == (SimulatedClock {
                tracking: false,
                speed: 0,
                offset_s: Double { bits: 0 },
                last_tick: None,
            }),
    {
        SimulatedClock { tracking: false, speed: 0, offset_s: Double::zero(), last_tick: None }
    }
}

impl SimulatedClock {
    /// Starts tracking from now on; there has to be something to track.
    pub fn start(&mut self, satellites: usize) -> (result: Result<(), String>)
        ensures
            if satellites == 0 {
                &&& result is Err
                &&& result->Err_0@ == NOTHING_TO_TRACK@
                &&& *final(self) == *old(self)
            } else {
                &&& result is Ok
                &&& *final(self) == (SimulatedClock {
                    tracking: true,
                    offset_s: Double { bits: 0 },
                    last_tick: None,
                    ..*old(self)
                })
            },
    {
        if satellites == 0 {
            return Err(NOTHING_TO_TRACK.to_owned());
        }
        self.tracking = true;
        self.offset_s = Double::zero();
        self.last_tick = None;
        Ok(())
    }

    pub fn stop(&mut self)
        ensures
            *final(self) == (SimulatedClock { tracking: false, ..*old(self) }),
    {
        self.tracking = false;
    }

    /// The clock back to real time.
    pub fn reset(&mut self)
        ensures
            *final(self) == (SimulatedClock {
                speed: 0,
                offset_s: Double { bits: 0 },
                last_tick: None,
                ..*old(self)
            }),
    {
        self.speed = 0;
        self.offset_s = Double::zero();
        self.last_tick = None;
    }

    /// That everything is propagated now.
    pub open spec fn due(self, satellites: usize, now: u128) -> bool {
        self.tracking && satellites > 0 && (self.last_tick is None || links::since(
            self.last_tick->0,
            now,
        ) >= TRACKING_INTERVAL)
    }

    /// Advances the clock, once a second while there is something to track.
    /// Whether everything is to be propagated.
    pub fn tick(&mut self, satellites: usize, now: u128) -> (due: bool)
        ensures
            due == old(self).due(satellites, now),
            *final(self) == (if due {
                SimulatedClock {
                    last_tick: Some(now),
                    offset_s: arithmetic::sum(
                        old(self).offset_s,
                        arithmetic::whole_number(old(self).speed as int),
                    ),
                    ..*old(self)
                }
            } else {
                *old(self)
            }),
    {
        if !self.tracking || satellites == 0 {
            return false;
        }
        match self.last_tick {
            Some(last) => {
                if links::elapsed(last, now) < TRACKING_INTERVAL {
                    return false;
                }
            },
            None => {},
        }
        self.last_tick = Some(now);
        self.offset_s = self.offset_s.plus(Double::whole(self.speed as i64));
        true
    }

    /// How far the simulated time is from the real one, in whole milliseconds.
    pub fn offset_ms(&self) -> (result: i64)
        ensures
            result == whole::nearest_whole(
                arithmetic::product(self.offset_s, Double { bits: satellite::THOUSAND }),
            ),
    {
        self.offset_s.times(Double::from_bits(satellite::THOUSAND)).round_to_whole()
    }
}

/// A satellite rises or sets.
#[derive(Debug, Clone, Copy, PartialEq, Eq, Structural)]
pub enum Edge {
    Neither,
    Aos,
    Los,
}

/// Whether a satellite stands above the mask now, and whether that has changed.
pub fn visibility(elevation: Double, mask: Double, was_visible: bool) -> (result: (bool, Edge))
    ensures
        result.0 == mask.at_most(elevation),
        result.1 == (if result.0 == was_visible {
            Edge::Neither
        } else if result.0 {
            Edge::Aos
        } else {
            Edge::Los
        }),
{
    let visible: bool = mask.le(elevation);
    if visible == was_visible {
        (visible, Edge::Neither)
    } else if visible {
        (visible, Edge::Aos)
    } else {
        (visible, Edge::Los)
    }
}

/// What is reported while a satellite is seen, or not seen, from tick to tick: a
/// rising for each `true`, a setting for each `false`.
pub open spec fn reports_of(seen: Seq<bool>, was_visible: bool) -> Seq<bool>
    decreases seen.len(),
{
    if seen.len() == 0 {
        Seq::empty()
    } else {
        let before = if seen.len() == 1 {
            was_visible
        } else {
            seen[seen.len() - 2]
        };
        if seen.last() == before {
            reports_of(seen.drop_last(), was_visible)
        } else {
            reports_of(seen.drop_last(), was_visible).push(seen.last())
        }
    }
}

/// Risings and settings take turns, and the last report tells how things stand.
pub proof fn law_passes_alternate(seen: Seq<bool>, was_visible: bool)
    ensures
        ({
            let reports = reports_of(seen, was_visible);
            &&& forall|i: int| 0 < i < reports.len() ==> #[trigger] reports[i] != reports[i - 1]
            &&& reports.len() > 0 ==> reports[0] != was_visible
            &&& seen.len() > 0 ==> seen.last() == (if reports.len() == 0 {
                was_visible
            } else {
                reports.last()
            })
        }),
    decreases seen.len(),
{
    if seen.len() > 0 {
        law_passes_alternate(seen.drop_last(), was_visible);
    }
}

/// What is reported of a rising or a setting; `elevation` is the angle as it is
/// written.
pub fn edge_message(name: &str, edge: Edge, elevation: &str) -> (result: String)
    requires
        edge != Edge::Neither,
    ensures
        result@ == name@ + ": "@ + (if edge == Edge::Aos {
            "AOS"@
        } else {
            "LOS"@
        }) + " (elevation "@ + elevation@ + " deg)"@,
{
    let mut message: String = name.to_owned();
    message.append(": ");
    match edge {
        Edge::Aos => message.append("AOS"),
        _ => message.append("LOS"),
    }
    message.append(" (elevation ");
    message.append(elevation);
    message.append(" deg)");
    message
}

/// The status line for several reports at once: none is lost to another.
pub fn joined_reports(reports: &Vec<String>) -> (result: Option<String>)
    ensures
        if reports@.len() == 0 {
            result is None
        } else {
            result is Some && result->0@ == text::joined(text::texts(reports@), "; "@)
        },
{
    if reports.len() == 0 {
        None
    } else {
        Some(text::join(reports, "; "))
    }
}

/// How many minutes from now a sample of a track lies.
pub fn sample_minutes(index: u32, samples: u32, period: Double) -> (result: Double)
    requires
        samples >= 2,
    ensures
        result == arithmetic::product(
            satellite::sample_fraction(index as int, samples as int),
            period,
        ),
{
    Double::whole(index as i64).over(Double::whole(samples as i64 - 1)).minus(
        Double::from_bits(0x3fe0_0000_0000_0000),
    ).times(period)
}

/// The field along a track, as `(minutes from now, total)`: one point for each of
/// `samples` that has a field.
pub open spec fn curve(totals: Seq<Option<Double>>, samples: int, period: Double) -> Seq<
    (Double, Double),
>
    decreases totals.len(),
{
    if totals.len() == 0 {
        Seq::empty()
    } else {
        let before = curve(totals.drop_last(), samples, period);
        match totals.last() {
            Some(total) => before.push(
                (
                    arithmetic::product(
                        satellite::sample_fraction(totals.len() - 1, samples),
                        period,
                    ),
                    total,
                ),
            ),
            None => before,
        }
    }
}

/// Where a position lies over the globe.
pub open spec fn place_of(position: SatellitePosition) -> CoordinateZ {
    CoordinateZ {
        latitude: position.latitude,
        longitude: position.longitude,
        elevation: position.altitude_km,
    }
}

/// That a field is the one at a position and a time: there is one wherever the
/// position is a place and the model speaks of the time.
pub open spec fn felt<S: Fn(Double) -> (Double, Double), A: Fn(Double, Double) -> Double>(
    calculator: GeomagnetismCalculator,
    sine_cosine: S,
    arc_tangent: A,
    position: SatellitePosition,
    time: UtcDateTime,
    field: Option<GeomagnetismResult>,
) -> bool {
    let place = place_of(position);
    match field {
        Some(report) => calculator.calculates(
            sine_cosine,
            arc_tangent,
            place,
            time,
            Ok(Some(report)),
        ),
        None => {
            ||| geomagnetism::height_fault(
                place.latitude,
                place.longitude,
                place.elevation,
            ) is Some
            ||| !geomagnetism::covered(time)
        },
    }
}

/// The field at a position and a time, if there is one.
pub fn field_at<S: Fn(Double) -> (Double, Double), A: Fn(Double, Double) -> Double>(
    calculator: &GeomagnetismCalculator,
    position: SatellitePosition,
    time: UtcDateTime,
    sine_cosine: &S,
    arc_tangent: &A,
) -> (result: Option<GeomagnetismResult>)
    requires
        angle::answers_angles(*sine_cosine),
        angle::answers_legs(*arc_tangent),
    ensures
        felt(*calculator, *sine_cosine, *arc_tangent, position, time, result),
{
    let coordinate: Coordinate = Coordinate {
        latitude: position.latitude,
        longitude: position.longitude,
    };
    let found: Result<Option<GeomagnetismResult>, GeomagnetismError> =
        calculator.try_calculate_at_altitude(
        coordinate,
        position.altitude_km,
        time,
        sine_cosine,
        arc_tangent,
    );
    match found {
        Ok(field) => field,
        Err(_) => None,
    }
}

/// The size of a field, if there is one.
pub open spec fn total_of(field: Option<GeomagnetismResult>) -> Option<Double> {
    match field {
        Some(report) => Some(report.total_intensity),
        None => None,
    }
}

/// The sizes of some fields.
pub open spec fn totals_of(fields: Seq<Option<GeomagnetismResult>>) -> Seq<Option<Double>> {
    fields.map_values(|field: Option<GeomagnetismResult>| total_of(field))
}

/// That the fields are those at the points of a track, all at one time.
pub open spec fn felt_along<S: Fn(Double) -> (Double, Double), A: Fn(Double, Double) -> Double>(
    calculator: GeomagnetismCalculator,
    sine_cosine: S,
    arc_tangent: A,
    track: Seq<SatellitePosition>,
    time: UtcDateTime,
    fields: Seq<Option<GeomagnetismResult>>,
) -> bool {
    &&& fields.len() == track.len()
    &&& forall|i: int|
        0 <= i < track.len() ==> felt(
            calculator,
            sine_cosine,
            arc_tangent,
            track[i],
            time,
            #[trigger] fields[i],
        )
}

/// The sizes of the field at the points of a track.
fn totals_along<S: Fn(Double) -> (Double, Double), A: Fn(Double, Double) -> Double>(
    calculator: &GeomagnetismCalculator,
    track: &Vec<SatellitePosition>,
    time: UtcDateTime,
    sine_cosine: &S,
    arc_tangent: &A,
) -> (result: Vec<Option<Double>>)
    requires
        angle::answers_angles(*sine_cosine),
        angle::answers_legs(*arc_tangent),
    ensures
        exists|fields: Seq<Option<GeomagnetismResult>>|
            {
                &&& #[trigger] felt_along(
                    *calculator,
                    *sine_cosine,
                    *arc_tangent,
                    track@,
                    time,
                    fields,
                )
                &&& result@ == totals_of(fields)
            },
{
    let mut totals: Vec<Option<Double>> = Vec::new();
    let ghost mut fields: Seq<Option<GeomagnetismResult>> = Seq::empty();
    let mut at: usize = 0;
    while at < track.len()
        invariant
            at <= track.len(),
            angle::answers_angles(*sine_cosine),
            angle::answers_legs(*arc_tangent),
            fields.len() == at,
            forall|i: int|
                0 <= i < at ==> felt(
                    *calculator,
                    *sine_cosine,
                    *arc_tangent,
                    track@[i],
                    time,
                    #[trigger] fields[i],
                ),
            totals@ == totals_of(fields),
        decreases track.len() - at,
    {
        let field: Option<GeomagnetismResult> = field_at(
            calculator,
            track[at],
            time,
            sine_cosine,
            arc_tangent,
        );
        totals.push(
            match field {
                Some(report) => Some(report.total_intensity),
                None => None,
            },
        );
        proof {
            let before = fields;
            fields = fields.push(field);
            assert(totals_of(fields) =~= totals_of(before).push(total_of(field)));
        }
        at = at + 1;
    }
    assert(felt_along(*calculator, *sine_cosine, *arc_tangent, track@, time, fields));
    totals
}

/// What was last worked out for a satellite.
#[derive(Debug, Clone)]
pub struct Sighting {
    pub position: Option<SatellitePosition>,
    pub field: Option<GeomagnetismResult>,
    /// The ground track, in polylines of longitude and latitude.
    pub track_segments: Vec<Vec<[Double; 2]>>,
    /// The field along the track, by minutes from now.
    pub field_track: Vec<[Double; 2]>,
    pub was_visible: bool,
    /// Why there is nothing, if there is a reason.
    pub error: Option<String>,
}

impl Sighting {
    /// That neither a track nor the field along one is known.
    pub open spec fn trackless(self) -> bool {
        self.track_segments@.len() == 0 && self.field_track@.len() == 0
    }

    /// Nothing has been worked out yet.
    pub fn new(error: Option<String>) -> (result: Self)
        ensures
            result.position is None,
            result.field is None,
            result.trackless(),
            !result.was_visible,
            result.error == error,
    {
        Sighting {
            position: None,
            field: None,
            track_segments: Vec::new(),
            field_track: Vec::new(),
            was_visible: false,
            error,
        }
    }

    /// The satellite could not be propagated. Whether it was visible stays, so
    /// that a gap reports no setting.
    pub fn lost(&mut self, error: String)
        ensures
            final(self).trackless(),
            *final(self) == (Sighting {
                position: None,
                field: None,
                track_segments: final(self).track_segments,
                field_track: final(self).field_track,
                was_visible: old(self).was_visible,
                error: Some(error),
            }),
    {
        self.position = None;
        self.field = None;
        self.error = Some(error);
        self.without_track();
    }

    /// The satellite stands at a position, `elevation` degrees above the
    /// station's horizon. Whether it rose or set.
    pub fn seen(
        &mut self,
        position: SatellitePosition,
        field: Option<GeomagnetismResult>,
        elevation: Double,
        mask: Double,
    ) -> (edge: Edge)
        ensures
            edge == (if mask.at_most(elevation) == old(self).was_visible {
                Edge::Neither
            } else if old(self).was_visible {
                Edge::Los
            } else {
                Edge::Aos
            }),
            *final(self) == (Sighting {
                position: Some(position),
                field,
                was_visible: mask.at_most(elevation),
                error: None,
                ..*old(self)
            }),
    {
        let (visible, edge): (bool, Edge) = visibility(elevation, mask, self.was_visible);
        self.position = Some(position);
        self.field = field;
        self.was_visible = visible;
        self.error = None;
        edge
    }

    /// The track around the position, and the total field at each of its points
    /// where there is one.
    pub fn along(
        &mut self,
        track: &Vec<SatellitePosition>,
        totals: &Vec<Option<Double>>,
        period: Double,
    )
        requires
            totals.len() <= u32::MAX,
        ensures
            satellite::all_pairs(final(self).track_segments@) == satellite::polylines(track@),
            satellite::pairs(final(self).field_track@) == curve(
                totals@,
                if totals@.len() < 2 {
                    2
                } else {
                    totals@.len() as int
                },
                period,
            ),
            *final(self) == (Sighting {
                track_segments: final(self).track_segments,
                field_track: final(self).field_track,
                ..*old(self)
            }),
    {
        let samples: u32 = if totals.len() < 2 {
            2
        } else {
            totals.len() as u32
        };
        let mut points: Vec<[Double; 2]> = Vec::new();
        let mut at: usize = 0;
        assert(totals@.take(0) =~= Seq::empty());
        assert(satellite::pairs(points@) =~= Seq::empty());
        while at < totals.len()
            invariant
                at <= totals.len() <= u32::MAX,
                samples == (if totals.len() < 2 {
                    2
                } else {
                    totals.len()
                }),
                satellite::pairs(points@) == curve(totals@.take(at as int), samples as int, period),
            decreases totals.len() - at,
        {
            let ghost seen = totals@.take(at + 1);
            assert(seen.drop_last() =~= totals@.take(at as int));
            match totals[at] {
                Some(total) => {
                    let minutes: Double = sample_minutes(at as u32, samples, period);
                    let ghost before = points@;
                    points.push([minutes, total]);
                    assert(satellite::pairs(points@) =~= satellite::pairs(before).push(
                        (minutes, total),
                    ));
                },
                None => {},
            }
            at = at + 1;
        }
        assert(totals@.take(totals.len() as int) =~= totals@);
        self.field_track = points;
        self.track_segments = satellite::split_dateline_segments(track.as_slice());
    }

    /// There is a position, but no track around it.
    pub fn without_track(&mut self)
        ensures
            final(self).trackless(),
            *final(self) == (Sighting {
                track_segments: final(self).track_segments,
                field_track: final(self).field_track,
                ..*old(self)
            }),
    {
        self.track_segments = Vec::new();
        self.field_track = Vec::new();
    }

    /// That the track and the field along it are those around a time, or are not
    /// known because the track fails.
    pub open spec fn shows_track<
        S: Fn(Double) -> (Double, Double),
        A: Fn(Double, Double) -> Double,
    >(
        self,
        tracker: SatelliteTracker,
        calculator: GeomagnetismCalculator,
        sine_cosine: S,
        arc_tangent: A,
        time: UtcDateTime,
    ) -> bool {
        let count = GROUND_TRACK_SAMPLES as int;
        ||| exists|track: Seq<SatellitePosition>, fields: Seq<Option<GeomagnetismResult>>|
            {
                &&& tracker.follows(sine_cosine, arc_tangent, time, count, Ok(track))
                &&& #[trigger] felt_along(
                    calculator,
                    sine_cosine,
                    arc_tangent,
                    track,
                    time,
                    fields,
                )
                &&& satellite::all_pairs(self.track_segments@) == satellite::polylines(track)
                &&& satellite::pairs(self.field_track@) == curve(
                    totals_of(fields),
                    count,
                    tracker.period(),
                )
            }
        ||| exists|error: SatelliteError| #[trigger]
            tracker.follows(sine_cosine, arc_tangent, time, count, Err(error)) && self.trackless()
    }

    /// Finds the track around a time, and the field along it.
    fn trace<S: Fn(Double) -> (Double, Double), A: Fn(Double, Double) -> Double>(
        &mut self,
        tracker: &SatelliteTracker,
        calculator: &GeomagnetismCalculator,
        time: UtcDateTime,
        sine_cosine: &S,
        arc_tangent: &A,
    )
        requires
            tracker.wf(),
            angle::answers_angles(*sine_cosine),
            angle::answers_legs(*arc_tangent),
        ensures
            final(self).shows_track(*tracker, *calculator, *sine_cosine, *arc_tangent, time),
            *final(self) == (Sighting {
                track_segments: final(self).track_segments,
                field_track: final(self).field_track,
                ..*old(self)
            }),
    {
        match tracker.ground_track(time, GROUND_TRACK_SAMPLES, sine_cosine, arc_tangent) {
            Ok(track) => {
                let totals: Vec<Option<Double>> = totals_along(
                    calculator,
                    &track,
                    time,
                    sine_cosine,
                    arc_tangent,
                );
                self.along(&track, &totals, tracker.orbital_period_minutes());
            },
            Err(_) => self.without_track(),
        }
    }

    /// That a position is seen at a time: the field there and the elevation over the
    /// station are of that time, and a rising or a setting is reported with the
    /// elevation.
    pub open spec fn sights<
        S: Fn(Double) -> (Double, Double),
        A: Fn(Double, Double) -> Double,
        B: Fn(Double) -> Double,
    >(
        self,
        calculator: GeomagnetismCalculator,
        station: Station,
        time: UtcDateTime,
        sine_cosine: S,
        arc_tangent: A,
        arc_sine: B,
        position: SatellitePosition,
        after: Sighting,
        reported: Option<(Edge, Double)>,
    ) -> bool {
        &&& after.position == Some(position)
        &&& after.error is None
        &&& felt(calculator, sine_cosine, arc_tangent, position, time, after.field)
        &&& exists|elevation: Double|
            {
                &&& #[trigger] satellite::elevated(
                    sine_cosine,
                    arc_sine,
                    station.latitude,
                    station.longitude,
                    position.ecef_km@,
                    elevation,
                )
                &&& after.was_visible == station.elevation_mask.at_most(elevation)
                &&& reported == (if after.was_visible == self.was_visible {
                    None
                } else if after.was_visible {
                    Some((Edge::Aos, elevation))
                } else {
                    Some((Edge::Los, elevation))
                })
            }
    }

    /// That a satellite cannot be propagated for a reason: only that is left, and
    /// whether it was visible.
    pub open spec fn loses(self, error: SatelliteError, after: Sighting) -> bool {
        &&& after.position is None
        &&& after.field is None
        &&& after.trackless()
        &&& after.was_visible == self.was_visible
        &&& after.error matches Some(said) && said@ == error.text()
    }

    /// What looking at a satellite at a time makes of what was known, and what is
    /// reported: its position, the field there, its elevation over the station and
    /// the track around it are all of that time, or it is said why there is none.
    pub open spec fn becomes<
        S: Fn(Double) -> (Double, Double),
        A: Fn(Double, Double) -> Double,
        B: Fn(Double) -> Double,
    >(
        self,
        tracker: SatelliteTracker,
        calculator: GeomagnetismCalculator,
        station: Station,
        time: UtcDateTime,
        sine_cosine: S,
        arc_tangent: A,
        arc_sine: B,
        after: Sighting,
        reported: Option<(Edge, Double)>,
    ) -> bool {
        match after.position {
            Some(position) => {
                &&& tracker.places(sine_cosine, arc_tangent, time, Ok(position))
                &&& self.sights(
                    calculator,
                    station,
                    time,
                    sine_cosine,
                    arc_tangent,
                    arc_sine,
                    position,
                    after,
                    reported,
                )
                &&& after.shows_track(tracker, calculator, sine_cosine, arc_tangent, time)
            },
            None => reported is None && exists|error: SatelliteError|
                {
                    &&& #[trigger] tracker.places(sine_cosine, arc_tangent, time, Err(error))
                    &&& self.loses(error, after)
                },
        }
    }

    /// Takes in a position. What rose or set, and how high it stands.
    fn sight<
        S: Fn(Double) -> (Double, Double),
        A: Fn(Double, Double) -> Double,
        B: Fn(Double) -> Double,
    >(
        &mut self,
        calculator: &GeomagnetismCalculator,
        station: Station,
        time: UtcDateTime,
        sine_cosine: &S,
        arc_tangent: &A,
        arc_sine: &B,
        position: SatellitePosition,
    ) -> (reported: Option<(Edge, Double)>)
        requires
            angle::answers_angles(*sine_cosine),
            angle::answers_legs(*arc_tangent),
            angle::answers_sines(*arc_sine),
        ensures
            old(self).sights(
                *calculator,
                station,
                time,
                *sine_cosine,
                *arc_tangent,
                *arc_sine,
                position,
                *final(self),
                reported,
            ),
    {
        let field: Option<GeomagnetismResult> = field_at(
            calculator,
            position,
            time,
            sine_cosine,
            arc_tangent,
        );
        let elevation: Double = satellite::elevation_deg(
            station.latitude,
            station.longitude,
            position.ecef_km,
            sine_cosine,
            arc_sine,
        );
        let edge: Edge = self.seen(position, field, elevation, station.elevation_mask);
        match edge {
            Edge::Neither => None,
            Edge::Aos => Some((Edge::Aos, elevation)),
            Edge::Los => Some((Edge::Los, elevation)),
        }
    }

    /// Looks at a satellite from a station at a time. What rose or set, and how
    /// high it stands.
    pub fn observe<
        S: Fn(Double) -> (Double, Double),
        A: Fn(Double, Double) -> Double,
        B: Fn(Double) -> Double,
    >(
        &mut self,
        tracker: &SatelliteTracker,
        calculator: &GeomagnetismCalculator,
        station: Station,
        time: UtcDateTime,
        sine_cosine: &S,
        arc_tangent: &A,
        arc_sine: &B,
    ) -> (reported: Option<(Edge, Double)>)
        requires
            tracker.wf(),
            angle::answers_angles(*sine_cosine),
            angle::answers_legs(*arc_tangent),
            angle::answers_sines(*arc_sine),
        ensures
            old(self).becomes(
                *tracker,
                *calculator,
                station,
                time,
                *sine_cosine,
                *arc_tangent,
                *arc_sine,
                *final(self),
                reported,
            ),
    {
        match tracker.position_at(time, sine_cosine, arc_tangent) {
            Ok(position) => {
                let reported: Option<(Edge, Double)> = self.sight(
                    calculator,
                    station,
                    time,
                    sine_cosine,
                    arc_tangent,
                    arc_sine,
                    position,
                );
                self.trace(tracker, calculator, time, sine_cosine, arc_tangent);
                reported
            },
            Err(error) => {
                self.lost(error.message());
                assert(old(self).loses(error, *self));
                None
            },
        }
    }

    /// Tracking starts anew: the first sight of the satellite is a rising.
    pub fn begins(&mut self)
        ensures
            *final(self) == (Sighting { was_visible: false, ..*old(self) }),
    {
        self.was_visible = false;
    }
}

} // verus!

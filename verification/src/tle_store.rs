//! The local store of element sets: its table, its rows, and what a search asks
//! of it.
use crate::double::Double;
use crate::satellite::TleSet;
use crate::spacetrack;
use crate::spacetrack::{SpaceTrackError, SpaceTrackTle};
use crate::text;
use vstd::prelude::*;

verus! {

/// Every column except the `norad_cat_id` primary key, with its definition.
pub const COLUMNS: [(&'static str, &'static str); 40] = [
    ("object_name", "object_name TEXT NOT NULL DEFAULT ''"),
    ("object_id", "object_id TEXT NOT NULL DEFAULT ''"),
    ("tle_line0", "tle_line0 TEXT NOT NULL DEFAULT ''"),
    ("line1", "line1 TEXT NOT NULL DEFAULT ''"),
    ("line2", "line2 TEXT NOT NULL DEFAULT ''"),
    ("ccsds_omm_vers", "ccsds_omm_vers TEXT NOT NULL DEFAULT ''"),
    ("comment", "comment TEXT NOT NULL DEFAULT ''"),
    ("creation_date", "creation_date TEXT NOT NULL DEFAULT ''"),
    ("originator", "originator TEXT NOT NULL DEFAULT ''"),
    ("center_name", "center_name TEXT NOT NULL DEFAULT ''"),
    ("ref_frame", "ref_frame TEXT NOT NULL DEFAULT ''"),
    ("time_system", "time_system TEXT NOT NULL DEFAULT ''"),
    ("mean_element_theory", "mean_element_theory TEXT NOT NULL DEFAULT ''"),
    ("epoch", "epoch TEXT NOT NULL DEFAULT ''"),
    ("mean_motion", "mean_motion REAL NOT NULL DEFAULT 0"),
    ("eccentricity", "eccentricity REAL NOT NULL DEFAULT 0"),
    ("inclination", "inclination REAL NOT NULL DEFAULT 0"),
    ("ra_of_asc_node", "ra_of_asc_node REAL NOT NULL DEFAULT 0"),
    ("arg_of_pericenter", "arg_of_pericenter REAL NOT NULL DEFAULT 0"),
    ("mean_anomaly", "mean_anomaly REAL NOT NULL DEFAULT 0"),
    ("ephemeris_type", "ephemeris_type INTEGER NOT NULL DEFAULT 0"),
    ("classification_type", "classification_type TEXT NOT NULL DEFAULT ''"),
    ("element_set_no", "element_set_no INTEGER NOT NULL DEFAULT 0"),
    ("rev_at_epoch", "rev_at_epoch INTEGER NOT NULL DEFAULT 0"),
    ("bstar", "bstar REAL NOT NULL DEFAULT 0"),
    ("mean_motion_dot", "mean_motion_dot REAL NOT NULL DEFAULT 0"),
    ("mean_motion_ddot", "mean_motion_ddot REAL NOT NULL DEFAULT 0"),
    ("semimajor_axis", "semimajor_axis REAL NOT NULL DEFAULT 0"),
    ("period", "period REAL NOT NULL DEFAULT 0"),
    ("apoapsis", "apoapsis REAL NOT NULL DEFAULT 0"),
    ("periapsis", "periapsis REAL NOT NULL DEFAULT 0"),
    ("object_type", "object_type TEXT NOT NULL DEFAULT ''"),
    ("rcs_size", "rcs_size TEXT NOT NULL DEFAULT ''"),
    ("country_code", "country_code TEXT NOT NULL DEFAULT ''"),
    ("launch_date", "launch_date TEXT NOT NULL DEFAULT ''"),
    ("site", "site TEXT NOT NULL DEFAULT ''"),
    ("decay_date", "decay_date TEXT NOT NULL DEFAULT ''"),
    ("data_source", "data_source TEXT NOT NULL DEFAULT ''"),
    ("gp_id", "gp_id INTEGER NOT NULL DEFAULT 0"),
    ("fetched_at", "fetched_at TEXT NOT NULL DEFAULT ''"),
];

/// What can go wrong with the store.
#[derive(Debug)]
pub enum TleStoreError {
    /// Anything the database reported: open failure, constraint, I/O.
    Sql(String),
    /// A lookup for a catalog number that is not in the database.
    NotFound(u64),
}

impl TleStoreError {
    pub open spec fn text(self) -> Seq<char> {
        match self {
            TleStoreError::Sql(message) => "TLE store error: "@ + message@,
            TleStoreError::NotFound(id) => "no stored TLE for catalog number "@ + text::decimal(
                id as nat,
            ),
        }
    }

    /// The error in words.
    pub fn message(&self) -> (result: String)
        ensures
            result@ == self.text(),
    {
        match self {
            TleStoreError::Sql(message) => {
                let mut result: String = "TLE store error: ".to_owned();
                result.append(message.as_str());
                result
            },
            TleStoreError::NotFound(id) => {
                let mut result: String = "no stored TLE for catalog number ".to_owned();
                result.append(text::print(*id).as_str());
                result
            },
        }
    }
}

/// What can go wrong with a refresh.
#[derive(Debug)]
pub enum RefreshError {
    SpaceTrack(SpaceTrackError),
    Store(TleStoreError),
}

impl RefreshError {
    /// The error in words.
    pub fn message(&self) -> (result: String)
        ensures
            match *self {
                RefreshError::SpaceTrack(error) => result@ == error.text(),
                RefreshError::Store(error) => result@ == error.text(),
            },
    {
        match self {
            RefreshError::SpaceTrack(error) => error.message(),
            RefreshError::Store(error) => error.message(),
        }
    }
}

impl From<SpaceTrackError> for RefreshError {
    fn from(error: SpaceTrackError) -> (result: Self) {
        RefreshError::SpaceTrack(error)
    }
}

impl vstd::std_specs::convert::FromSpecImpl<SpaceTrackError> for RefreshError {
    open spec fn obeys_from_spec() -> bool {
        true
    }

    open spec fn from_spec(error: SpaceTrackError) -> Self {
        RefreshError::SpaceTrack(error)
    }
}

impl From<TleStoreError> for RefreshError {
    fn from(error: TleStoreError) -> (result: Self) {
        RefreshError::Store(error)
    }
}

impl vstd::std_specs::convert::FromSpecImpl<TleStoreError> for RefreshError {
    open spec fn obeys_from_spec() -> bool {
        true
    }

    open spec fn from_spec(error: TleStoreError) -> Self {
        RefreshError::Store(error)
    }
}

/// One catalog row as it sits in the database.
#[derive(Debug, Clone, PartialEq)]
pub struct StoredTle {
    pub norad_cat_id: u64,
    pub object_name: String,
    /// International designator, e.g. `1998-067A`.
    pub object_id: String,
    /// The `0 ISS (ZARYA)` name line, if the row carried one.
    pub tle_line0: String,
    pub line1: String,
    pub line2: String,
    pub ccsds_omm_vers: String,
    pub comment: String,
    /// When this element set was generated.
    pub creation_date: String,
    pub originator: String,
    pub center_name: String,
    pub ref_frame: String,
    pub time_system: String,
    pub mean_element_theory: String,
    /// Epoch as issued, e.g. `2026-02-05 12:03:05`.
    pub epoch: String,
    /// Revolutions per day.
    pub mean_motion: Double,
    pub eccentricity: Double,
    /// Degrees.
    pub inclination: Double,
    /// Degrees.
    pub ra_of_asc_node: Double,
    /// Degrees.
    pub arg_of_pericenter: Double,
    /// Degrees.
    pub mean_anomaly: Double,
    pub ephemeris_type: i64,
    /// `U` unclassified, `C` classified, `S` secret.
    pub classification_type: String,
    pub element_set_no: i64,
    pub rev_at_epoch: i64,
    /// Drag term, per Earth radius.
    pub bstar: Double,
    pub mean_motion_dot: Double,
    pub mean_motion_ddot: Double,
    /// Kilometres.
    pub semimajor_axis: Double,
    /// Minutes.
    pub period: Double,
    /// Kilometres.
    pub apoapsis: Double,
    /// Kilometres.
    pub periapsis: Double,
    /// `PAYLOAD`, `ROCKET BODY`, `DEBRIS`, `UNKNOWN` or `TBA`.
    pub object_type: String,
    /// `SMALL`, `MEDIUM` or `LARGE`; empty when unknown.
    pub rcs_size: String,
    pub country_code: String,
    /// `yyyy-mm-dd`.
    pub launch_date: String,
    /// Launch site code, e.g. `AFETR`.
    pub site: String,
    /// `yyyy-mm-dd`, empty while on orbit.
    pub decay_date: String,
    pub data_source: String,
    /// The source's own row id for this element set.
    pub gp_id: i64,
    /// RFC 3339 UTC instant at which this row was last written.
    pub fetched_at: String,
}

/// That a row is what is stored of a fetched one: every text without the white
/// space around it, and the codes that searches match exactly in upper case.
pub open spec fn stored_from(stored: StoredTle, tle: SpaceTrackTle, fetched_at: Seq<char>) -> bool {
    &&& stored.norad_cat_id == tle.norad_cat_id
    &&& stored.object_name@ == text::trim(tle.object_name@)
    &&& stored.object_id@ == text::trim(tle.object_id@)
    &&& stored.tle_line0@ == text::trim(tle.tle_line0@)
    &&& stored.line1@ == text::trim(tle.line1@)
    &&& stored.line2@ == text::trim(tle.line2@)
    &&& stored.ccsds_omm_vers@ == text::trim(tle.ccsds_omm_vers@)
    &&& stored.comment@ == text::trim(tle.comment@)
    &&& stored.creation_date@ == text::trim(tle.creation_date@)
    &&& stored.originator@ == text::trim(tle.originator@)
    &&& stored.center_name@ == text::trim(tle.center_name@)
    &&& stored.ref_frame@ == text::trim(tle.ref_frame@)
    &&& stored.time_system@ == text::trim(tle.time_system@)
    &&& stored.mean_element_theory@ == text::trim(tle.mean_element_theory@)
    &&& stored.epoch@ == text::trim(tle.epoch@)
    &&& stored.mean_motion == tle.mean_motion
    &&& stored.eccentricity == tle.eccentricity
    &&& stored.inclination == tle.inclination
    &&& stored.ra_of_asc_node == tle.ra_of_asc_node
    &&& stored.arg_of_pericenter == tle.arg_of_pericenter
    &&& stored.mean_anomaly == tle.mean_anomaly
    &&& stored.ephemeris_type == tle.ephemeris_type
    &&& stored.classification_type@ == text::uppercase(text::trim(tle.classification_type@))
    &&& stored.element_set_no == tle.element_set_no
    &&& stored.rev_at_epoch == tle.rev_at_epoch
    &&& stored.bstar == tle.bstar
    &&& stored.mean_motion_dot == tle.mean_motion_dot
    &&& stored.mean_motion_ddot == tle.mean_motion_ddot
    &&& stored.semimajor_axis == tle.semimajor_axis
    &&& stored.period == tle.period
    &&& stored.apoapsis == tle.apoapsis
    &&& stored.periapsis == tle.periapsis
    &&& stored.object_type@ == text::uppercase(text::trim(tle.object_type@))
    &&& stored.rcs_size@ == text::uppercase(text::trim(tle.rcs_size@))
    &&& stored.country_code@ == text::uppercase(text::trim(tle.country_code@))
    &&& stored.launch_date@ == text::trim(tle.launch_date@)
    &&& stored.site@ == text::uppercase(text::trim(tle.site@))
    &&& stored.decay_date@ == text::trim(tle.decay_date@)
    &&& stored.data_source@ == text::trim(tle.data_source@)
    &&& stored.gp_id == tle.gp_id
    &&& stored.fetched_at@ == fetched_at
}

/// A code in upper case, without the white space around it.
fn tidied(code: &str) -> (result: String)
    ensures
        result@ == text::uppercase(text::trim(code@)),
{
    let trimmed: String = text::trimmed(code);
    text::to_uppercase(trimmed.as_str())
}

impl StoredTle {
    /// What is stored of a fetched row.
    pub fn from_fetched(tle: &SpaceTrackTle, fetched_at: &str) -> (result: Self)
        ensures
            stored_from(result, *tle, fetched_at@),
    {
        StoredTle {
            norad_cat_id: tle.norad_cat_id,
            object_name: text::trimmed(tle.object_name.as_str()),
            object_id: text::trimmed(tle.object_id.as_str()),
            tle_line0: text::trimmed(tle.tle_line0.as_str()),
            line1: text::trimmed(tle.line1.as_str()),
            line2: text::trimmed(tle.line2.as_str()),
            ccsds_omm_vers: text::trimmed(tle.ccsds_omm_vers.as_str()),
            comment: text::trimmed(tle.comment.as_str()),
            creation_date: text::trimmed(tle.creation_date.as_str()),
            originator: text::trimmed(tle.originator.as_str()),
            center_name: text::trimmed(tle.center_name.as_str()),
            ref_frame: text::trimmed(tle.ref_frame.as_str()),
            time_system: text::trimmed(tle.time_system.as_str()),
            mean_element_theory: text::trimmed(tle.mean_element_theory.as_str()),
            epoch: text::trimmed(tle.epoch.as_str()),
            mean_motion: tle.mean_motion,
            eccentricity: tle.eccentricity,
            inclination: tle.inclination,
            ra_of_asc_node: tle.ra_of_asc_node,
            arg_of_pericenter: tle.arg_of_pericenter,
            mean_anomaly: tle.mean_anomaly,
            ephemeris_type: tle.ephemeris_type,
            classification_type: tidied(tle.classification_type.as_str()),
            element_set_no: tle.element_set_no,
            rev_at_epoch: tle.rev_at_epoch,
            bstar: tle.bstar,
            mean_motion_dot: tle.mean_motion_dot,
            mean_motion_ddot: tle.mean_motion_ddot,
            semimajor_axis: tle.semimajor_axis,
            period: tle.period,
            apoapsis: tle.apoapsis,
            periapsis: tle.periapsis,
            object_type: tidied(tle.object_type.as_str()),
            rcs_size: tidied(tle.rcs_size.as_str()),
            country_code: tidied(tle.country_code.as_str()),
            launch_date: text::trimmed(tle.launch_date.as_str()),
            site: tidied(tle.site.as_str()),
            decay_date: text::trimmed(tle.decay_date.as_str()),
            data_source: text::trimmed(tle.data_source.as_str()),
            gp_id: tle.gp_id,
            fetched_at: fetched_at.to_owned(),
        }
    }

    /// The row that is written for a fetched one: none, where it lacks an
    /// orbital line.
    pub fn writable(tle: &SpaceTrackTle, fetched_at: &str) -> (result: Option<Self>)
        ensures
            result is Some <==> text::trim(tle.line1@).len() > 0 && text::trim(tle.line2@).len()
                > 0,
            result matches Some(stored) ==> stored_from(stored, *tle, fetched_at@),
    {
        if tle.has_elements() {
            Some(StoredTle::from_fetched(tle, fetched_at))
        } else {
            None
        }
    }

    /// This row in the form that is propagated.
    pub fn to_tle_set(&self) -> (result: TleSet)
        ensures
            spacetrack::set_of(result, self.object_name@, self.line1@, self.line2@),
    {
        spacetrack::tle_set(self.object_name.as_str(), self.line1.as_str(), self.line2.as_str())
    }
}

/// An element set is the same whether it is taken from a fetched row or from
/// what was stored of it.
pub proof fn law_storing_keeps_the_element_set(
    tle: SpaceTrackTle,
    stored: StoredTle,
    fetched_at: Seq<char>,
    set: TleSet,
)
    requires
        stored_from(stored, tle, fetched_at),
    ensures
        spacetrack::set_of(set, stored.object_name@, stored.line1@, stored.line2@)
            <==> spacetrack::set_of(set, tle.object_name@, tle.line1@, tle.line2@),
{
    text::law_trim_is_idempotent(tle.object_name@);
    text::law_trim_is_idempotent(tle.line1@);
    text::law_trim_is_idempotent(tle.line2@);
}

/// The element set of a lookup, or the number that was not found.
pub fn found(norad_cat_id: u64, stored: Option<&StoredTle>) -> (result: Result<
    TleSet,
    TleStoreError,
>)
    ensures
        match stored {
            Some(stored) => result is Ok && spacetrack::set_of(
                result->Ok_0,
                stored.object_name@,
                stored.line1@,
                stored.line2@,
            ),
            None => result matches Err(TleStoreError::NotFound(id)) && id == norad_cat_id,
        },
{
    match stored {
        Some(stored) => Ok(stored.to_tle_set()),
        None => Err(TleStoreError::NotFound(norad_cat_id)),
    }
}

/// The key under which a catalog number stands in the table, whose integers are
/// signed.
pub open spec fn key_of(norad_cat_id: u64) -> int {
    if norad_cat_id < 0x8000_0000_0000_0000 {
        norad_cat_id as int
    } else {
        norad_cat_id - 0x1_0000_0000_0000_0000
    }
}

pub fn row_key(norad_cat_id: u64) -> (result: i64)
    ensures
        result == key_of(norad_cat_id),
{
    if norad_cat_id < 0x8000_0000_0000_0000 {
        norad_cat_id as i64
    } else {
        ((norad_cat_id as i128) - 0x1_0000_0000_0000_0000i128) as i64
    }
}

/// The catalog number behind a key.
pub fn catalog_number_of(key: i64) -> (result: u64)
    ensures
        key_of(result) == key,
{
    if key >= 0 {
        key as u64
    } else {
        (key as i128 + 0x1_0000_0000_0000_0000i128) as u64
    }
}

/// No two catalog numbers share a key.
pub proof fn law_keys_tell_numbers_apart(left: u64, right: u64)
    requires
        key_of(left) == key_of(right),
    ensures
        left == right,
{
}

/// A search over the stored catalog. A blank field is no constraint; several set
/// at once must all hold.
#[derive(Debug, Clone)]
pub struct TleFilter {
    /// Part of the object name.
    pub object_name: Option<String>,
    /// Part of the catalog number as text.
    pub norad_cat_id: Option<String>,
    /// RCS size (`SMALL` / `MEDIUM` / `LARGE`).
    pub rcs_size: Option<String>,
    /// Object type (`PAYLOAD` / `ROCKET BODY` / ...).
    pub object_type: Option<String>,
    /// Part of the launch site code.
    pub site: Option<String>,
    /// Part of the country code.
    pub country_code: Option<String>,
    /// `yyyy-mm-dd`; launched on or after this day.
    pub launch_date_from: Option<String>,
    /// `yyyy-mm-dd`; decayed on or after this day, so no longer on orbit.
    pub decay_date_from: Option<String>,
    /// `yyyy-mm-dd`; launched before this day.
    pub launch_date_before: Option<String>,
    /// `yyyy-mm-dd`; decayed before this day.
    pub decay_date_before: Option<String>,
}

impl Default for TleFilter {
    fn default() -> (result: Self)
        ensures
            result.blank(),
    {
        TleFilter {
            object_name: None,
            norad_cat_id: None,
            rcs_size: None,
            object_type: None,
            site: None,
            country_code: None,
            launch_date_from: None,
            decay_date_from: None,
            launch_date_before: None,
            decay_date_before: None,
        }
    }
}

/// What a field of a filter asks for: nothing, where it is blank.
pub open spec fn asked(field: Option<String>) -> Option<Seq<char>> {
    match field {
        Some(value) => if text::trim(value@).len() == 0 {
            None
        } else {
            Some(text::trim(value@))
        },
        None => None,
    }
}

/// The text of a field that is not blank.
fn nonblank(value: &Option<String>) -> (result: Option<String>)
    ensures
        match result {
            Some(text) => asked(*value) == Some(text@),
            None => asked(*value) is None,
        },
{
    match value {
        Some(value) => if text::is_blank(value.as_str()) {
            None
        } else {
            Some(text::trimmed(value.as_str()))
        },
        None => None,
    }
}

/// One condition on a row.
#[derive(Debug, Clone)]
pub enum Condition {
    /// The name is like a pattern.
    NameLike(String),
    /// The catalog number as text is like a pattern.
    NumberLike(String),
    SizeIs(String),
    TypeIs(String),
    SiteLike(String),
    CountryLike(String),
    LaunchedFrom(String),
    /// There is a decay date, and it is this day or a later one.
    DecayedFrom(String),
    /// There is a launch date, and it is an earlier day.
    LaunchedBefore(String),
    /// There is a decay date, and it is an earlier day.
    DecayedBefore(String),
}

/// A condition as it is compared: which column, and what is asked of it.
pub open spec fn condition_of(condition: Condition) -> (int, Seq<char>) {
    match condition {
        Condition::NameLike(text) => (0, text@),
        Condition::NumberLike(text) => (1, text@),
        Condition::SizeIs(text) => (2, text@),
        Condition::TypeIs(text) => (3, text@),
        Condition::SiteLike(text) => (4, text@),
        Condition::CountryLike(text) => (5, text@),
        Condition::LaunchedFrom(text) => (6, text@),
        Condition::DecayedFrom(text) => (7, text@),
        Condition::LaunchedBefore(text) => (8, text@),
        Condition::DecayedBefore(text) => (9, text@),
    }
}

/// The pattern that a part of a text is found by.
pub open spec fn around(part: Seq<char>) -> Seq<char> {
    "%"@ + part + "%"@
}

impl TleFilter {
    pub open spec fn field(self, at: int) -> Option<String> {
        if at == 0 {
            self.object_name
        } else if at == 1 {
            self.norad_cat_id
        } else if at == 2 {
            self.rcs_size
        } else if at == 3 {
            self.object_type
        } else if at == 4 {
            self.site
        } else if at == 5 {
            self.country_code
        } else if at == 6 {
            self.launch_date_from
        } else if at == 7 {
            self.decay_date_from
        } else if at == 8 {
            self.launch_date_before
        } else {
            self.decay_date_before
        }
    }

    /// That no field asks for anything.
    pub open spec fn blank(self) -> bool {
        forall|at: int| 0 <= at < 10 ==> asked(#[trigger] self.field(at)) is None
    }

    /// What a field asks of its column: parts of a name or a number as they are,
    /// sizes and types in upper case, parts of codes in upper case, and days as
    /// they are.
    pub open spec fn wanted(self, at: int) -> Option<Seq<char>> {
        match asked(self.field(at)) {
            None => None,
            Some(value) => Some(
                if at == 0 || at == 1 {
                    around(value)
                } else if at == 2 || at == 3 {
                    text::uppercase(value)
                } else if at == 4 || at == 5 {
                    around(text::uppercase(value))
                } else {
                    value
                },
            ),
        }
    }

    /// The conditions of the first `count` fields.
    pub open spec fn conditions_of(self, count: int) -> Seq<(int, Seq<char>)>
        decreases count,
    {
        if count <= 0 {
            Seq::empty()
        } else {
            match self.wanted(count - 1) {
                Some(value) => self.conditions_of(count - 1).push((count - 1, value)),
                None => self.conditions_of(count - 1),
            }
        }
    }

    /// True when no field constrains the search - it would match everything.
    pub fn is_empty(&self) -> (result: bool)
        ensures
            result == self.blank(),
    {
        let none: bool = nonblank(&self.object_name).is_none() && nonblank(
            &self.norad_cat_id,
        ).is_none() && nonblank(&self.rcs_size).is_none() && nonblank(&self.object_type).is_none()
            && nonblank(&self.site).is_none() && nonblank(&self.country_code).is_none()
            && nonblank(&self.launch_date_from).is_none() && nonblank(
            &self.decay_date_from,
        ).is_none() && nonblank(&self.launch_date_before).is_none() && nonblank(
            &self.decay_date_before,
        ).is_none();
        proof {
            if !none {
                assert(asked(self.field(0)) is Some || asked(self.field(1)) is Some || asked(
                    self.field(2),
                ) is Some || asked(self.field(3)) is Some || asked(self.field(4)) is Some || asked(
                    self.field(5),
                ) is Some || asked(self.field(6)) is Some || asked(self.field(7)) is Some || asked(
                    self.field(8),
                ) is Some || asked(self.field(9)) is Some);
            }
        }
        none
    }

    /// The conditions that a row must meet, one for each field that is not
    /// blank.
    pub fn conditions(&self) -> (result: Vec<Condition>)
        ensures
            result@.map_values(|condition: Condition| condition_of(condition))
                == self.conditions_of(10),
    {
        let mut list: Vec<Condition> = Vec::new();
        let ghost view = |condition: Condition| condition_of(condition);
        reveal_with_fuel(TleFilter::conditions_of, 11);
        assert(list@.map_values(view) =~= self.conditions_of(0));
        match nonblank(&self.object_name) {
            Some(name) => push_condition(&mut list, Condition::NameLike(pattern(name.as_str()))),
            None => {},
        }
        assert(list@.map_values(view) == self.conditions_of(1));
        match nonblank(&self.norad_cat_id) {
            Some(id) => push_condition(&mut list, Condition::NumberLike(pattern(id.as_str()))),
            None => {},
        }
        assert(list@.map_values(view) == self.conditions_of(2));
        match nonblank(&self.rcs_size) {
            Some(size) => push_condition(
                &mut list,
                Condition::SizeIs(text::to_uppercase(size.as_str())),
            ),
            None => {},
        }
        assert(list@.map_values(view) == self.conditions_of(3));
        match nonblank(&self.object_type) {
            Some(kind) => push_condition(
                &mut list,
                Condition::TypeIs(text::to_uppercase(kind.as_str())),
            ),
            None => {},
        }
        assert(list@.map_values(view) == self.conditions_of(4));
        match nonblank(&self.site) {
            Some(site) => push_condition(
                &mut list,
                Condition::SiteLike(pattern(text::to_uppercase(site.as_str()).as_str())),
            ),
            None => {},
        }
        assert(list@.map_values(view) == self.conditions_of(5));
        match nonblank(&self.country_code) {
            Some(country) => push_condition(
                &mut list,
                Condition::CountryLike(pattern(text::to_uppercase(country.as_str()).as_str())),
            ),
            None => {},
        }
        assert(list@.map_values(view) == self.conditions_of(6));
        match nonblank(&self.launch_date_from) {
            Some(from) => push_condition(&mut list, Condition::LaunchedFrom(from)),
            None => {},
        }
        assert(list@.map_values(view) == self.conditions_of(7));
        match nonblank(&self.decay_date_from) {
            Some(from) => push_condition(&mut list, Condition::DecayedFrom(from)),
            None => {},
        }
        assert(list@.map_values(view) == self.conditions_of(8));
        match nonblank(&self.launch_date_before) {
            Some(day) => push_condition(&mut list, Condition::LaunchedBefore(day)),
            None => {},
        }
        assert(list@.map_values(view) == self.conditions_of(9));
        match nonblank(&self.decay_date_before) {
            Some(day) => push_condition(&mut list, Condition::DecayedBefore(day)),
            None => {},
        }
        list
    }
}

fn pattern(part: &str) -> (result: String)
    ensures
        result@ == around(part@),
{
    let mut pattern: String = "%".to_owned();
    pattern.append(part);
    pattern.append("%");
    pattern
}

fn push_condition(list: &mut Vec<Condition>, condition: Condition)
    ensures
        final(list)@.map_values(|condition: Condition| condition_of(condition)) == old(
            list,
        )@.map_values(|condition: Condition| condition_of(condition)).push(condition_of(condition)),
{
    let ghost before = list@;
    list.push(condition);
    assert(list@.map_values(|condition: Condition| condition_of(condition)) =~= before.map_values(
        |condition: Condition| condition_of(condition),
    ).push(condition_of(condition)));
}

/// A filter is empty exactly where it puts no condition on a row.
pub proof fn law_empty_filters_ask_for_nothing(filter: TleFilter, count: int)
    requires
        0 <= count <= 10,
    ensures
        filter.conditions_of(count).len() == 0 <==> forall|at: int|
            0 <= at < count ==> asked(#[trigger] filter.field(at)) is None,
    decreases count,
{
    if count > 0 {
        law_empty_filters_ask_for_nothing(filter, count - 1);
        if asked(filter.field(count - 1)) is None {
            assert(filter.wanted(count - 1) is None);
        } else {
            assert(filter.wanted(count - 1) is Some);
        }
    }
}

/// One page of search results.
#[derive(Debug, Clone)]
pub struct TlePage {
    pub rows: Vec<StoredTle>,
    /// Total matches across all pages.
    pub total: usize,
    /// Zero-based page index this covers.
    pub page: usize,
    pub per_page: usize,
}

/// How many pages `total` rows fill; there is always one.
pub open spec fn pages(total: int, per_page: int) -> int {
    if total <= 0 {
        1
    } else {
        (total - 1) / per_page + 1
    }
}

/// A page holds a row at least.
pub open spec fn page_size(per_page: usize) -> int {
    if per_page == 0 {
        1
    } else {
        per_page as int
    }
}

pub(crate) fn count_pages(total: usize, per_page: usize) -> (result: usize)
    ensures
        result == pages(total as int, page_size(per_page)),
{
    if total == 0 {
        return 1;
    }
    let size: usize = if per_page == 0 {
        1
    } else {
        per_page
    };
    let full: usize = (total - 1) / size;
    assert(full <= total - 1) by (nonlinear_arith)
        requires
            size > 0,
            full == (total - 1) / size as int,
    ;
    full + 1
}

impl TlePage {
    pub fn page_count(&self) -> (result: usize)
        ensures
            result == pages(self.total as int, page_size(self.per_page)),
    {
        count_pages(self.total, self.per_page)
    }

    /// A page out of what the database returned.
    pub fn of(rows: Vec<StoredTle>, total: i64, page: usize, per_page: usize) -> (result: Self)
        requires
            total <= usize::MAX,
        ensures
            result.rows == rows,
            result.total == (if total < 0 {
                0
            } else {
                total as int
            }),
            result.page == page,
            result.per_page == page_size(per_page),
    {
        TlePage {
            rows,
            total: if total < 0 {
                0
            } else {
                total as usize
            },
            page,
            per_page: if per_page == 0 {
                1
            } else {
                per_page
            },
        }
    }
}

/// Every row of the matches is on exactly one page: the one that holds the rows
/// from `page * per_page` on.
pub proof fn law_pages_cover_every_match(total: int, per_page: int, row: int)
    requires
        per_page > 0,
        0 <= row < total,
    ensures
        0 <= row / per_page < pages(total, per_page),
        (row / per_page) * per_page <= row < (row / per_page) * per_page + per_page,
{
    assert(0 <= row / per_page <= (total - 1) / per_page && (row / per_page) * per_page <= row < (
    row / per_page) * per_page + per_page) by (nonlinear_arith)
        requires
            per_page > 0,
            0 <= row <= total - 1,
    ;
}

/// How many rows a page of a search asks for, and how many it leaves out.
pub fn window(page: usize, per_page: usize) -> (result: (i64, i64))
    requires
        page * page_size(per_page) <= i64::MAX,
        per_page <= i64::MAX,
    ensures
        result.0 == page_size(per_page),
        result.1 == page * page_size(per_page),
{
    let size: usize = if per_page == 0 {
        1
    } else {
        per_page
    };
    assert(page <= page * size) by (nonlinear_arith)
        requires
            size >= 1,
    ;
    (size as i64, page as i64 * size as i64)
}

/// The definitions of the first columns.
pub open spec fn column_definitions(count: int) -> Seq<Seq<char>>
    decreases count,
{
    if count <= 0 {
        Seq::empty()
    } else {
        column_definitions(count - 1).push(COLUMNS[count - 1].1@)
    }
}

/// The statements that make the table and its first index, where they are not
/// there yet.
pub fn create_statements() -> (result: String)
    ensures
        result@
            == "CREATE TABLE IF NOT EXISTS tle (\n    norad_cat_id INTEGER PRIMARY KEY,\n    "@
            + text::joined(column_definitions(40), ",\n    "@)
            + "\n);\nCREATE INDEX IF NOT EXISTS tle_object_name ON tle (object_name);"@,
{
    let mut definitions: Vec<String> = Vec::new();
    let mut at: usize = 0;
    assert(text::texts(definitions@) =~= column_definitions(0));
    while at < 40
        invariant
            at <= 40,
            text::texts(definitions@) == column_definitions(at as int),
        decreases 40 - at,
    {
        let ghost before = definitions@;
        definitions.push(COLUMNS[at].1.to_owned());
        assert(text::texts(definitions@) =~= text::texts(before).push(COLUMNS[at as int].1@));
        at = at + 1;
    }
    let mut statements: String =
        "CREATE TABLE IF NOT EXISTS tle (\n    norad_cat_id INTEGER PRIMARY KEY,\n    ".to_owned();
    statements.append(text::join(&definitions, ",\n    ").as_str());
    statements.append(
        "\n);\nCREATE INDEX IF NOT EXISTS tle_object_name ON tle (object_name);",
    );
    statements
}

/// The index that can be built once every column is there.
pub const TYPE_INDEX_STATEMENT: &'static str =
    "CREATE INDEX IF NOT EXISTS tle_object_type ON tle (object_type);";

/// The statement that drops a column which is no longer kept.
pub const DROP_STATEMENT: &'static str = "ALTER TABLE tle DROP COLUMN raw_json";

/// The statements that add the columns among the first `count` which a table
/// lacks.
pub open spec fn additions(present: Seq<Seq<char>>, count: int) -> Seq<Seq<char>>
    decreases count,
{
    if count <= 0 {
        Seq::empty()
    } else if present.contains(COLUMNS[count - 1].0@) {
        additions(present, count - 1)
    } else {
        additions(present, count - 1).push(
            "ALTER TABLE tle ADD COLUMN "@ + COLUMNS[count - 1].1@,
        )
    }
}

fn is_present(present: &Vec<String>, name: &str) -> (result: bool)
    ensures
        result == text::texts(present@).contains(name@),
{
    let mut at: usize = 0;
    while at < present.len()
        invariant
            at <= present.len(),
            forall|i: int| 0 <= i < at ==> text::texts(present@)[i] != name@,
        decreases present.len() - at,
    {
        if text::same(present[at].as_str(), name) {
            assert(text::texts(present@)[at as int] == name@);
            return true;
        }
        at = at + 1;
    }
    false
}

/// The statements that bring a table up to date: one for every column that it
/// lacks.
pub fn missing_columns(present: &Vec<String>) -> (result: Vec<String>)
    ensures
        text::texts(result@) == additions(text::texts(present@), 40),
{
    let mut statements: Vec<String> = Vec::new();
    let mut at: usize = 0;
    let ghost have = text::texts(present@);
    assert(text::texts(statements@) =~= additions(have, 0));
    while at < 40
        invariant
            at <= 40,
            have == text::texts(present@),
            text::texts(statements@) == additions(have, at as int),
        decreases 40 - at,
    {
        let (name, definition): (&'static str, &'static str) = COLUMNS[at];
        let ghost before = statements@;
        if !is_present(present, name) {
            let mut statement: String = "ALTER TABLE tle ADD COLUMN ".to_owned();
            statement.append(definition);
            statements.push(statement);
            assert(text::texts(statements@) =~= text::texts(before).push(statement@));
        }
        at = at + 1;
    }
    statements
}

/// Whether a table still has the column that is no longer kept.
pub fn has_stale_column(present: &Vec<String>) -> (result: bool)
    ensures
        result == text::texts(present@).contains("raw_json"@),
{
    is_present(present, "raw_json")
}

} // verus!

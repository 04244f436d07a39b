//! Space-Track: what is asked of the service, and what its answers mean.
use crate::decimal;
use crate::double::Double;
use crate::satellite::TleSet;
use crate::text;
use crate::whole;
use vstd::prelude::*;

verus! {

pub const LOGIN_URL: &'static str = "https://www.space-track.org/ajaxauth/login";

pub const LOGOUT_URL: &'static str = "https://www.space-track.org/ajaxauth/logout";

pub const QUERY_BASE: &'static str = "https://www.space-track.org/basicspacedata/query";

/// The service's recommended query for everything current: the newest element
/// set of each object, without decayed objects and stale epochs, ordered by
/// catalog number. `%3E` is `>`.
pub const ALL_GP_QUERY: &'static str =
    "class/gp/decay_date/null-val/epoch/%3Enow-30/orderby/norad_cat_id/format/json";

/// Upper bound on an answer that is read, well above the full catalog.
pub const MAX_RESPONSE_BYTES: u64 = 268_435_456;

/// Environment variables that hold the credentials.
pub const IDENTITY_ENV: &'static str = "SPACETRACK_IDENTITY";

pub const PASSWORD_ENV: &'static str = "SPACETRACK_PASSWORD";

/// What can go wrong with the service.
#[derive(Debug)]
pub enum SpaceTrackError {
    /// Transport-level failure: DNS, TLS, connection reset, timeout.
    Http(String),
    /// The credentials were missing or rejected by the login endpoint.
    Auth(String),
    /// A 4xx/5xx from the query endpoint, or an error object in its place.
    Api(String),
    /// The response was not the JSON array of rows that was expected.
    Decode(String),
}

impl SpaceTrackError {
    pub open spec fn text(self) -> Seq<char> {
        match self {
            SpaceTrackError::Http(message) => "Space-Track transport error: "@ + message@,
            SpaceTrackError::Auth(message) => "Space-Track authentication failed: "@ + message@,
            SpaceTrackError::Api(message) => "Space-Track query error: "@ + message@,
            SpaceTrackError::Decode(message) => "Space-Track response was not understood: "@
                + message@,
        }
    }

    /// The error in words.
    pub fn message(&self) -> (result: String)
        ensures
            result@ == self.text(),
    {
        let (head, detail): (&str, &String) = match self {
            SpaceTrackError::Http(message) => ("Space-Track transport error: ", message),
            SpaceTrackError::Auth(message) => ("Space-Track authentication failed: ", message),
            SpaceTrackError::Api(message) => ("Space-Track query error: ", message),
            SpaceTrackError::Decode(message) => (
                "Space-Track response was not understood: ",
                message,
            ),
        };
        let mut result: String = head.to_owned();
        result.append(detail.as_str());
        result
    }
}

/// What the service knows its user by. It has no `Debug` of its own; what may be
/// shown of it is [`Self::shown`], so that no log line can hold the password.
#[derive(Clone)]
pub struct Credentials {
    pub identity: String,
    pub password: String,
}

impl Credentials {
    pub fn new(identity: &str, password: &str) -> (result: Self)
        ensures
            result.identity@ == identity@,
            result.password@ == password@,
    {
        Credentials { identity: identity.to_owned(), password: password.to_owned() }
    }

    /// What may be shown: the identity, and that there is a password.
    pub open spec fn shown_text(self) -> Seq<char> {
        "Credentials { identity: "@ + text::debugged(self.identity@)
            + ", password: \"<redacted>\" }"@
    }

    /// The credentials for a log line, without the password.
    pub fn shown(&self) -> (result: String)
        ensures
            result@ == self.shown_text(),
    {
        let mut result: String = "Credentials { identity: ".to_owned();
        result.append(text::debug(self.identity.as_str()).as_str());
        result.append(", password: \"<redacted>\" }");
        result
    }

    /// The credentials out of the values of the two environment variables: both
    /// must be set, and neither may be empty.
    pub fn from_values(identity: Option<String>, password: Option<String>) -> (result: Result<
        Self,
        SpaceTrackError,
    >)
        ensures
            match (identity, password) {
                (None, _) => result matches Err(SpaceTrackError::Auth(message)) && message@
                    == IDENTITY_ENV@ + " is not set (add it to .env)"@,
                (Some(_), None) => result matches Err(SpaceTrackError::Auth(message)) && message@
                    == PASSWORD_ENV@ + " is not set (add it to .env)"@,
                (Some(identity), Some(password)) => if text::trim(identity@).len() == 0
                    || password@.len() == 0 {
                    result matches Err(SpaceTrackError::Auth(message)) && message@
                        == IDENTITY_ENV@ + "/"@ + PASSWORD_ENV@ + " are set but empty"@
                } else {
                    result matches Ok(credentials) && credentials.identity == identity
                        && credentials.password == password
                },
            },
    {
        let identity: String = match identity {
            Some(identity) => identity,
            None => {
                let mut message: String = IDENTITY_ENV.to_owned();
                message.append(" is not set (add it to .env)");
                return Err(SpaceTrackError::Auth(message));
            },
        };
        let password: String = match password {
            Some(password) => password,
            None => {
                let mut message: String = PASSWORD_ENV.to_owned();
                message.append(" is not set (add it to .env)");
                return Err(SpaceTrackError::Auth(message));
            },
        };
        if text::is_blank(identity.as_str()) || text::chars_of(password.as_str()).len() == 0 {
            let mut message: String = IDENTITY_ENV.to_owned();
            message.append("/");
            message.append(PASSWORD_ENV);
            message.append(" are set but empty");
            return Err(SpaceTrackError::Auth(message));
        }
        Ok(Credentials { identity, password })
    }
}

/// No password is ever shown: of one identity, the same is shown whatever the
/// password is.
pub proof fn law_passwords_are_not_shown(left: Credentials, right: Credentials)
    requires
        left.identity@ == right.identity@,
    ensures
        left.shown_text() == right.shown_text(),
{
}

/// One row of the `gp` class. Where an object lacks a field, a text is empty and
/// a number zero.
#[derive(Debug, Clone)]
pub struct SpaceTrackTle {
    pub norad_cat_id: u64,
    pub object_name: String,
    /// International designator, e.g. `1998-067A`.
    pub object_id: String,
    /// The `0 ISS (ZARYA)` name line, if the row carried one.
    pub tle_line0: String,
    pub line1: String,
    pub line2: String,
    pub ccsds_omm_vers: String,
    pub comment: String,
    /// When this element set was generated.
    pub creation_date: String,
    pub originator: String,
    pub center_name: String,
    pub ref_frame: String,
    pub time_system: String,
    pub mean_element_theory: String,
    /// Epoch as issued, e.g. `2026-02-05 12:03:05`.
    pub epoch: String,
    /// Revolutions per day.
    pub mean_motion: Double,
    pub eccentricity: Double,
    /// Degrees.
    pub inclination: Double,
    /// Degrees.
    pub ra_of_asc_node: Double,
    /// Degrees.
    pub arg_of_pericenter: Double,
    /// Degrees.
    pub mean_anomaly: Double,
    pub ephemeris_type: i64,
    /// `U` unclassified, `C` classified, `S` secret.
    pub classification_type: String,
    pub element_set_no: i64,
    pub rev_at_epoch: i64,
    /// Drag term, per Earth radius.
    pub bstar: Double,
    pub mean_motion_dot: Double,
    pub mean_motion_ddot: Double,
    /// Kilometres.
    pub semimajor_axis: Double,
    /// Minutes.
    pub period: Double,
    /// Kilometres.
    pub apoapsis: Double,
    /// Kilometres.
    pub periapsis: Double,
    /// `PAYLOAD`, `ROCKET BODY`, `DEBRIS`, `UNKNOWN` or `TBA`.
    pub object_type: String,
    /// `SMALL`, `MEDIUM` or `LARGE`; empty when unknown.
    pub rcs_size: String,
    pub country_code: String,
    /// `yyyy-mm-dd`.
    pub launch_date: String,
    /// Launch site code, e.g. `AFETR`.
    pub site: String,
    /// `yyyy-mm-dd`, empty while on orbit.
    pub decay_date: String,
    pub data_source: String,
    /// The source's own row id for this element set.
    pub gp_id: i64,
}

/// That a set holds the two lines and the name, each without the white space
/// around it; a blank name is none.
pub open spec fn set_of(set: TleSet, name: Seq<char>, line1: Seq<char>, line2: Seq<char>) -> bool {
    &&& set.line1@ == text::trim(line1)
    &&& set.line2@ == text::trim(line2)
    &&& if text::trim(name).len() == 0 {
        set.name is None
    } else {
        set.name is Some && set.name->0@ == text::trim(name)
    }
}

/// A set out of a name and two lines as they were received.
pub(crate) fn tle_set(name: &str, line1: &str, line2: &str) -> (result: TleSet)
    ensures
        set_of(result, name@, line1@, line2@),
{
    let line1: String = text::trimmed(line1);
    let line2: String = text::trimmed(line2);
    let set: TleSet = TleSet::new(line1.as_str(), line2.as_str());
    if text::is_blank(name) {
        set
    } else {
        let name: String = text::trimmed(name);
        set.with_name(name.as_str())
    }
}

impl SpaceTrackTle {
    /// Whether both orbital lines are present - the minimum to propagate.
    pub fn has_elements(&self) -> (result: bool)
        ensures
            result == (text::trim(self.line1@).len() > 0 && text::trim(self.line2@).len() > 0),
    {
        !text::is_blank(self.line1.as_str()) && !text::is_blank(self.line2.as_str())
    }

    /// The row in the form that is propagated.
    pub fn to_tle_set(&self) -> (result: TleSet)
        ensures
            set_of(result, self.object_name@, self.line1@, self.line2@),
    {
        tle_set(self.object_name.as_str(), self.line1.as_str(), self.line2.as_str())
    }
}

/// A JSON value as a field of a row sees it.
#[derive(Debug, Clone)]
pub enum Scalar {
    Null,
    Text(String),
    /// A number, as far as it is an unsigned or a signed integer, and as a
    /// floating-point number.
    Number { unsigned: Option<u64>, signed: Option<i64>, float: Option<Double> },
    /// Anything else, in its JSON text.
    Other(String),
}

/// A text field: missing text is empty.
pub fn text_field(value: Option<String>) -> (result: String)
    ensures
        match value {
            Some(text) => result@ == text@,
            None => result@.len() == 0,
        },
{
    match value {
        Some(text) => text,
        None => String::new(),
    }
}

pub open spec fn expected(what: Seq<char>, got: Seq<char>) -> Seq<char> {
    "expected a "@ + what + ", got "@ + got
}

fn unexpected(what: &str, got: &str) -> (result: String)
    ensures
        result@ == expected(what@, got@),
{
    let mut message: String = "expected a ".to_owned();
    message.append(what);
    message.append(", got ");
    message.append(got);
    message
}

/// Why a text is no number.
pub const BAD_FLOAT: &'static str = "invalid float literal";

/// A number field: a JSON number, a numeric text, or nothing, which counts as
/// zero, as a blank text does.
pub open spec fn float_of(value: Scalar) -> Result<Double, Seq<char>> {
    match value {
        Scalar::Null => Ok(Double { bits: 0 }),
        Scalar::Text(text) => if text::trim(text@).len() == 0 {
            Ok(Double { bits: 0 })
        } else {
            match decimal::number(text::trim(text@)) {
                Some(number) => Ok(number),
                None => Err(BAD_FLOAT@),
            }
        },
        Scalar::Number { float: Some(number), .. } => Ok(number),
        Scalar::Number { float: None, .. } => Err("not a float"@),
        Scalar::Other(text) => Err(expected("number"@, text@)),
    }
}

pub fn float_field(value: &Scalar) -> (result: Result<Double, String>)
    ensures
        match float_of(*value) {
            Ok(number) => result == Ok::<Double, String>(number),
            Err(reason) => result is Err && result->Err_0@ == reason,
        },
{
    match value {
        Scalar::Null => Ok(Double::zero()),
        Scalar::Text(text) => {
            if text::is_blank(text.as_str()) {
                return Ok(Double::zero());
            }
            let trimmed: String = text::trimmed(text.as_str());
            match decimal::read_text(trimmed.as_str()) {
                Some(number) => Ok(number),
                None => Err(BAD_FLOAT.to_owned()),
            }
        },
        Scalar::Number { unsigned: _, signed: _, float } => match float {
            Some(number) => Ok(*number),
            None => Err("not a float".to_owned()),
        },
        Scalar::Other(text) => Err(unexpected("number", text.as_str())),
    }
}

/// The signed integer that a text reads as, if it is one.
pub open spec fn signed_number(text: Seq<char>) -> Option<int> {
    if text.len() > 0 && text[0] == '-' {
        let digits = text.skip(1);
        if digits.len() > 0 && text::all_digits(digits) && text::digits_value(digits)
            <= 0x8000_0000_0000_0000 {
            Some(-(text::digits_value(digits) as int))
        } else {
            None
        }
    } else {
        match text::number(text, i64::MAX as nat) {
            Some(number) => Some(number as int),
            None => None,
        }
    }
}

/// Reads a signed integer.
fn read_signed(text: &str) -> (result: Option<i64>)
    ensures
        result is Some == signed_number(text@) is Some,
        result matches Some(number) ==> signed_number(text@) == Some(number as int),
{
    let characters: Vec<char> = text::chars_of(text);
    if characters.len() > 0 && characters[0] == '-' {
        let digits: Vec<char> = text::copy_range(characters.as_slice(), 1, characters.len());
        assert(digits@ =~= text@.skip(1));
        if digits.len() > 0 && digits[0] == '+' {
            assert(!text::is_digit(digits@[0]));
            return None;
        }
        assert(text::without_plus(digits@) == digits@);
        match text::parse_number(digits.as_slice(), 0x8000_0000_0000_0000) {
            Some(number) => Some((-(number as i128)) as i64),
            None => None,
        }
    } else {
        match text::parse_number(characters.as_slice(), i64::MAX as u64) {
            Some(number) => Some(number as i64),
            None => None,
        }
    }
}

/// An integer field, read like a number field; what is written with a decimal
/// point is cut down to its whole part.
pub open spec fn integer_of(value: Scalar) -> Result<int, Seq<char>> {
    match value {
        Scalar::Null => Ok(0),
        Scalar::Text(text) => {
            let trimmed = text::trim(text@);
            if trimmed.len() == 0 {
                Ok(0)
            } else {
                match signed_number(trimmed) {
                    Some(number) => Ok(number),
                    None => match decimal::number(trimmed) {
                        Some(number) => Ok(whole::cut_whole(number)),
                        None => Err(BAD_FLOAT@),
                    },
                }
            }
        },
        Scalar::Number { signed: Some(number), .. } => Ok(number as int),
        Scalar::Number { signed: None, float: Some(number), .. } => Ok(whole::cut_whole(number)),
        Scalar::Number { signed: None, float: None, .. } => Err("not an integer"@),
        Scalar::Other(text) => Err(expected("number"@, text@)),
    }
}

pub fn integer_field(value: &Scalar) -> (result: Result<i64, String>)
    ensures
        match integer_of(*value) {
            Ok(number) => result is Ok && result->Ok_0 == number,
            Err(reason) => result is Err && result->Err_0@ == reason,
        },
{
    match value {
        Scalar::Null => Ok(0),
        Scalar::Text(text) => {
            if text::is_blank(text.as_str()) {
                return Ok(0);
            }
            let trimmed: String = text::trimmed(text.as_str());
            match read_signed(trimmed.as_str()) {
                Some(number) => Ok(number),
                None => match decimal::read_text(trimmed.as_str()) {
                    Some(number) => Ok(number.cut_to_whole()),
                    None => Err(BAD_FLOAT.to_owned()),
                },
            }
        },
        Scalar::Number { unsigned: _, signed, float } => match signed {
            Some(number) => Ok(*number),
            None => match float {
                Some(number) => Ok(number.cut_to_whole()),
                None => Err("not an integer".to_owned()),
            },
        },
        Scalar::Other(text) => Err(unexpected("number", text.as_str())),
    }
}

/// Why a text is no catalog number.
pub open spec fn digits_fault(text: Seq<char>) -> Seq<char> {
    if text.len() == 0 {
        "cannot parse integer from empty string"@
    } else if text::without_plus(text).len() > 0 && text::all_digits(text::without_plus(text)) {
        "number too large to fit in target type"@
    } else {
        "invalid digit found in string"@
    }
}

/// A catalog number: a JSON number or a numeric text.
pub open spec fn catalog_of(value: Scalar) -> Result<nat, Seq<char>> {
    match value {
        Scalar::Text(text) => match text::number(text::trim(text@), u64::MAX as nat) {
            Some(number) => Ok(number),
            None => Err(digits_fault(text::trim(text@))),
        },
        Scalar::Number { unsigned: Some(number), .. } => Ok(number as nat),
        Scalar::Number { unsigned: None, .. } => Err("not a non-negative integer"@),
        Scalar::Null => Err(expected("catalog number"@, "null"@)),
        Scalar::Other(text) => Err(expected("catalog number"@, text@)),
    }
}

fn only_digits(characters: &[char], from: usize) -> (result: bool)
    requires
        from <= characters.len(),
    ensures
        result == text::all_digits(characters@.skip(from as int)),
{
    let ghost rest = characters@.skip(from as int);
    let mut at: usize = from;
    while at < characters.len()
        invariant
            from <= at <= characters.len(),
            rest == characters@.skip(from as int),
            forall|i: int| 0 <= i < at - from ==> text::is_digit(#[trigger] rest[i]),
        decreases characters.len() - at,
    {
        if characters[at] < '0' || characters[at] > '9' {
            assert(!text::is_digit(rest[at - from]));
            return false;
        }
        assert(rest[at - from] == characters@[at as int]);
        at = at + 1;
    }
    true
}

pub fn catalog_field(value: &Scalar) -> (result: Result<u64, String>)
    ensures
        match catalog_of(*value) {
            Ok(number) => result is Ok && result->Ok_0 == number,
            Err(reason) => result is Err && result->Err_0@ == reason,
        },
{
    match value {
        Scalar::Text(text) => {
            let trimmed: String = text::trimmed(text.as_str());
            let characters: Vec<char> = text::chars_of(trimmed.as_str());
            match text::parse_number(characters.as_slice(), u64::MAX) {
                Some(number) => Ok(number),
                None => {
                    if characters.len() == 0 {
                        return Err("cannot parse integer from empty string".to_owned());
                    }
                    let from: usize = if characters[0] == '+' {
                        1
                    } else {
                        0
                    };
                    assert(text::without_plus(characters@) =~= characters@.skip(from as int));
                    if from < characters.len() && only_digits(characters.as_slice(), from) {
                        Err("number too large to fit in target type".to_owned())
                    } else {
                        Err("invalid digit found in string".to_owned())
                    }
                },
            }
        },
        Scalar::Number { unsigned, signed: _, float: _ } => match unsigned {
            Some(number) => Ok(*number),
            None => Err("not a non-negative integer".to_owned()),
        },
        Scalar::Null => Err(unexpected("catalog number", "null")),
        Scalar::Other(text) => Err(unexpected("catalog number", text.as_str())),
    }
}

/// What the login endpoint's answer means. A rejected login is answered with 401
/// or 403, or with a body that says so.
pub open spec fn login_rejected(status: u16, body: Seq<char>) -> bool {
    status == 401 || status == 403 || (text::contains(body, "\"Login\""@) && text::contains(
        body,
        "Failed"@,
    ))
}

pub open spec fn succeeded(status: u16) -> bool {
    200 <= status < 300
}

pub fn login_outcome(status: u16, body: &str) -> (result: Result<(), SpaceTrackError>)
    ensures
        if login_rejected(status, body@) {
            result matches Err(SpaceTrackError::Auth(message)) && message@
                == "the login endpoint rejected the credentials"@
        } else if !succeeded(status) {
            result matches Err(SpaceTrackError::Api(message)) && message@
                == "login returned HTTP "@ + text::decimal(status as nat)
        } else {
            result is Ok
        },
{
    if status == 401 || status == 403 || (text::holds(body, "\"Login\"") && text::holds(
        body,
        "Failed",
    )) {
        return Err(
            SpaceTrackError::Auth("the login endpoint rejected the credentials".to_owned()),
        );
    }
    if !(200 <= status && status < 300) {
        let mut message: String = "login returned HTTP ".to_owned();
        message.append(text::print(status as u64).as_str());
        return Err(SpaceTrackError::Api(message));
    }
    Ok(())
}

/// `path` without the slashes before it.
pub open spec fn without_slashes(path: Seq<char>) -> Seq<char>
    decreases path.len(),
{
    if path.len() > 0 && path[0] == '/' {
        without_slashes(path.skip(1))
    } else {
        path
    }
}

/// The address of a query. Only a session that has logged in may ask.
pub fn query_url(logged_in: bool, predicate_path: &str) -> (result: Result<String, SpaceTrackError>)
    ensures
        if logged_in {
            result is Ok && result->Ok_0@ == QUERY_BASE@ + "/"@ + without_slashes(predicate_path@)
        } else {
            result matches Err(SpaceTrackError::Auth(message)) && message@ == "call login() first"@
        },
{
    if !logged_in {
        return Err(SpaceTrackError::Auth("call login() first".to_owned()));
    }
    let path: Vec<char> = text::chars_of(predicate_path);
    let mut from: usize = 0;
    assert(path@.skip(0) =~= path@);
    while from < path.len() && path[from] == '/'
        invariant
            from <= path.len(),
            without_slashes(path@.skip(from as int)) == without_slashes(predicate_path@),
        decreases path.len() - from,
    {
        assert(path@.skip(from as int).skip(1) =~= path@.skip(from + 1));
        from = from + 1;
    }
    assert(path@.subrange(from as int, path.len() as int) =~= path@.skip(from as int));
    let mut url: String = QUERY_BASE.to_owned();
    url.append("/");
    url.append(text::string_of(path.as_slice(), from, path.len()).as_str());
    Ok(url)
}

/// What a refused query is told: the status, and a word on the body. A page in
/// place of an answer means that the request never reached the query handler.
pub open spec fn refusal(status: u16, body: Seq<char>) -> Seq<char> {
    let trimmed = text::trim(body);
    "HTTP "@ + text::decimal(status as nat) + (if trimmed.len() == 0 {
        Seq::empty()
    } else if trimmed[0] == '<' {
        ": non-JSON response (check the query class/path)"@
    } else {
        ": "@ + text::at_most_chars(trimmed, 300)
    })
}

/// Whether a query was refused, and with what.
pub fn query_refusal(status: u16, body: &str) -> (result: Option<SpaceTrackError>)
    ensures
        if succeeded(status) {
            result is None
        } else {
            result matches Some(SpaceTrackError::Api(message)) && message@ == refusal(status, body@)
        },
{
    if 200 <= status && status < 300 {
        return None;
    }
    let trimmed: String = text::trimmed(body);
    let characters: Vec<char> = text::chars_of(trimmed.as_str());
    let mut message: String = "HTTP ".to_owned();
    message.append(text::print(status as u64).as_str());
    if characters.len() == 0 {
    } else if characters[0] == '<' {
        message.append(": non-JSON response (check the query class/path)");
    } else {
        message.append(": ");
        message.append(text::head(trimmed.as_str(), 300).as_str());
    }
    assert(message@ =~= refusal(status, body@));
    Some(SpaceTrackError::Api(message))
}

/// The text that a JSON object holds under `member`, as `serde_json` reads it:
/// nothing where the text is no JSON, or has no such member, or that is no string.
pub uninterp spec fn json_text_member(object: Seq<char>, member: Seq<char>) -> Option<Seq<char>>;

/// `serde_json::from_str` into a `Value`, then `Value::get` and `Value::as_str`:
/// the result is named.
#[verifier::external_body]
fn text_member(object: &str, member: &str) -> (result: Option<String>)
    ensures
        match result {
            Some(held) => json_text_member(object@, member@) == Some(held@),
            None => json_text_member(object@, member@) is None,
        },
{
    match serde_json::from_str::<serde_json::Value>(object) {
        Ok(value) => value.get(member).and_then(serde_json::Value::as_str).map(str::to_owned),
        Err(_) => None,
    }
}

/// What an error object says: its message, or the beginning of the object.
pub open spec fn complaint(object: Seq<char>, message: Option<Seq<char>>) -> Seq<char> {
    match message {
        Some(message) => message,
        None => text::at_most_chars(object, 300),
    }
}

/// The error that an object in place of rows stands for, given its message if it
/// has one.
pub fn object_error(object: &str, message: Option<String>) -> (result: SpaceTrackError)
    ensures
        result matches SpaceTrackError::Api(said) && said@ == complaint(
            object@,
            (match message {
                Some(message) => Some(message@),
                None => None,
            }),
        ),
{
    match message {
        Some(message) => SpaceTrackError::Api(message),
        None => SpaceTrackError::Api(text::head(object, 300)),
    }
}

/// The rows' JSON text in an answer, or the error that the answer holds in its
/// place: an error is sent as an object.
pub fn rows_text(body: &str) -> (result: Result<String, SpaceTrackError>)
    ensures
        ({
            let trimmed = text::trim_start(body@);
            if trimmed.len() > 0 && trimmed[0] == '{' {
                result matches Err(SpaceTrackError::Api(message)) && message@ == complaint(
                    trimmed,
                    json_text_member(trimmed, "error"@),
                )
            } else {
                result is Ok && result->Ok_0@ == trimmed
            }
        }),
{
    let characters: Vec<char> = text::chars_of(body);
    let mut from: usize = 0;
    assert(characters@.skip(0) =~= characters@);
    while from < characters.len() && text::is_whitespace(characters[from])
        invariant
            from <= characters.len(),
            text::trim_start(characters@.skip(from as int)) == text::trim_start(body@),
        decreases characters.len() - from,
    {
        assert(characters@.skip(from as int).skip(1) =~= characters@.skip(from + 1));
        from = from + 1;
    }
    let ghost trimmed = text::trim_start(body@);
    assert(characters@.skip(from as int) == trimmed);
    assert(characters@.subrange(from as int, characters.len() as int) =~= trimmed);
    let rest: String = text::string_of(characters.as_slice(), from, characters.len());
    if from < characters.len() && characters[from] == '{' {
        let message: Option<String> = text_member(rest.as_str(), "error");
        return Err(object_error(rest.as_str(), message));
    }
    Ok(rest)
}

/// A predicate value as it stands in an address: spaces are escaped, and the
/// values that are asked for need nothing else.
pub fn encode(value: &str) -> (result: String)
    ensures
        result@ == text::replaced(value@, ' ', "%20"@),
{
    text::replace(value, ' ', "%20")
}

/// The numbers in decimal.
pub open spec fn decimals(numbers: Seq<u64>) -> Seq<Seq<char>> {
    numbers.map_values(|number: u64| text::decimal(number as nat))
}

pub open spec fn ids_query(norad_ids: Seq<u64>) -> Seq<char> {
    "class/gp/NORAD_CAT_ID/"@ + text::joined(decimals(norad_ids), ","@) + "/format/json"@
}

/// Asks for the newest element set of each of some objects.
pub fn latest_by_ids_query(norad_ids: &Vec<u64>) -> (result: String)
    ensures
        result@ == ids_query(norad_ids@),
{
    let mut ids: Vec<String> = Vec::new();
    let mut at: usize = 0;
    while at < norad_ids.len()
        invariant
            at <= norad_ids.len(),
            ids@.len() == at,
            forall|i: int|
                0 <= i < at ==> (#[trigger] ids@[i])@ == text::decimal(norad_ids@[i] as nat),
        decreases norad_ids.len() - at,
    {
        ids.push(text::print(norad_ids[at]));
        at = at + 1;
    }
    assert(text::texts(ids@) =~= decimals(norad_ids@));
    let mut query: String = "class/gp/NORAD_CAT_ID/".to_owned();
    query.append(text::join(&ids, ",").as_str());
    query.append("/format/json");
    query
}

/// What is asked for the newest element sets of some objects: no object at all
/// means the whole catalog.
pub fn latest_query(norad_ids: &Vec<u64>) -> (result: String)
    ensures
        result@ == (if norad_ids@.len() == 0 {
            ALL_GP_QUERY@
        } else {
            ids_query(norad_ids@)
        }),
{
    if norad_ids.len() == 0 {
        ALL_GP_QUERY.to_owned()
    } else {
        latest_by_ids_query(norad_ids)
    }
}

/// Asks for objects whose name matches a predicate value: `^STARLINK` for
/// "starts with", `~~ISS` for "contains", or a bare name for an exact match.
pub fn latest_by_name_query(name_predicate: &str) -> (result: String)
    ensures
        result@ == "class/gp/OBJECT_NAME/"@ + text::replaced(name_predicate@, ' ', "%20"@)
            + "/format/json"@,
{
    let mut query: String = "class/gp/OBJECT_NAME/".to_owned();
    query.append(encode(name_predicate).as_str());
    query.append("/format/json");
    query
}

/// Asks for every object of one type.
pub fn by_object_type_query(object_type: &str) -> (result: String)
    ensures
        result@ == "class/gp/OBJECT_TYPE/"@ + text::replaced(text::trim(object_type@), ' ', "%20"@)
            + "/orderby/norad_cat_id/format/json"@,
{
    let object_type: String = text::trimmed(object_type);
    let mut query: String = "class/gp/OBJECT_TYPE/".to_owned();
    query.append(encode(object_type.as_str()).as_str());
    query.append("/orderby/norad_cat_id/format/json");
    query
}

/// No query that is built from a value holds a space.
pub proof fn law_encoded_values_hold_no_space(value: Seq<char>)
    ensures
        forall|i: int|
            0 <= i < text::replaced(value, ' ', "%20"@).len() ==> #[trigger] text::replaced(
                value,
                ' ',
                "%20"@,
            )[i] != ' ',
    decreases value.len(),
{
    reveal_strlit("%20");
    if value.len() > 0 {
        law_encoded_values_hold_no_space(value.drop_last());
        let before = text::replaced(value.drop_last(), ' ', "%20"@);
        let all = text::replaced(value, ' ', "%20"@);
        assert forall|i: int| 0 <= i < all.len() implies #[trigger] all[i] != ' ' by {
            if i < before.len() {
                assert(all[i] == before[i]);
            } else if value.last() == ' ' {
                assert(all[i] == "%20"@[i - before.len()]);
            }
        }
    }
}

} // verus!

//! What the panels of the program ask for and say.
use crate::config;
use crate::double::Double;
use crate::geomagnetism;
use crate::geomagnetism::Coordinate;
use crate::links;
use crate::netcfg;
use crate::netcfg::LanProfile;
use crate::setpoint;
use crate::text;
use vstd::prelude::*;

verus! {

/// The pages of the program.
#[derive(Debug, Clone, Copy, PartialEq, Eq, Structural)]
pub enum AppTab {
    Control,
    Model,
}

impl Default for AppTab {
    fn default() -> (result: Self)
        ensures
            result == AppTab::Control,
    {
        AppTab::Control
    }
}

impl AppTab {
    pub open spec fn name(self) -> Seq<char> {
        match self {
            AppTab::Control => "IGRF Control"@,
            AppTab::Model => "IGRF Model"@,
        }
    }

    pub fn label(self) -> (result: &'static str)
        ensures
            result@ == self.name(),
    {
        match self {
            AppTab::Control => "IGRF Control",
            AppTab::Model => "IGRF Model",
        }
    }
}

/// The network panel: the wired profiles, the selected one, and the address that
/// was typed.
pub struct LanPanel {
    pub profiles: Vec<LanProfile>,
    pub selected: usize,
    pub cidr: String,
    /// Whether a change is being applied.
    pub busy: bool,
}

/// What applying a change sent back.
pub enum LanReply {
    Done(String),
    Failed(String),
    Pending,
    Lost,
}

/// A line for the status bar: what happened, or what went wrong.
#[derive(Debug, Clone)]
pub enum Line {
    Status(String),
    Error(String),
}

pub const NO_PROFILE: &'static str = "No LAN profile selected";

impl LanPanel {
    /// The index of the selected profile, held inside the list.
    pub open spec fn held(selected: usize, count: int) -> int {
        if count == 0 {
            0
        } else if selected < count {
            selected as int
        } else {
            count - 1
        }
    }

    /// Takes in a fresh list. The selection stays inside it, and an address that
    /// was not typed yet is the selected profile's.
    pub fn refreshed(&mut self, profiles: Vec<LanProfile>)
        ensures
            final(self).profiles == profiles,
            final(self).busy == old(self).busy,
            final(self).selected == LanPanel::held(old(self).selected, profiles@.len() as int),
            if text::trim(old(self).cidr@).len() > 0 {
                final(self).cidr == old(self).cidr
            } else if profiles@.len() == 0 {
                final(self).cidr@.len() == 0
            } else {
                final(self).cidr@ == profiles@[LanPanel::held(
                    old(self).selected,
                    profiles@.len() as int,
                )].addresses@
            },
    {
        let count: usize = profiles.len();
        if count == 0 {
            self.selected = 0;
        } else if self.selected >= count {
            self.selected = count - 1;
        }
        if text::is_blank(self.cidr.as_str()) {
            self.cidr = if count == 0 {
                String::new()
            } else {
                profiles[self.selected].addresses.as_str().to_owned()
            };
        }
        self.profiles = profiles;
    }

    /// The profile and the address to be applied, or why there is nothing to
    /// apply.
    pub fn static_request(&self) -> (result: Result<(usize, String), String>)
        ensures
            if self.selected >= self.profiles@.len() {
                result is Err && result->Err_0@ == NO_PROFILE@
            } else {
                match netcfg::cidr(text::trim(self.cidr@)) {
                    Err(reason) => result is Err && result->Err_0@ == "LAN address: "@ + reason,
                    Ok(_) => result is Ok && result->Ok_0.0 == self.selected && result->Ok_0.1@
                        == text::trim(self.cidr@),
                }
            },
    {
        if self.selected >= self.profiles.len() {
            return Err(NO_PROFILE.to_owned());
        }
        let cidr: String = text::trimmed(self.cidr.as_str());
        match netcfg::validate_cidr(cidr.as_str()) {
            Err(reason) => {
                let mut message: String = "LAN address: ".to_owned();
                message.append(reason.as_str());
                Err(message)
            },
            Ok(_) => Ok((self.selected, cidr)),
        }
    }

    /// The profile that is to use DHCP, or why there is none.
    pub fn dhcp_request(&self) -> (result: Result<usize, String>)
        ensures
            if self.selected >= self.profiles@.len() {
                result is Err && result->Err_0@ == NO_PROFILE@
            } else {
                result == Ok::<usize, String>(self.selected)
            },
    {
        if self.selected >= self.profiles.len() {
            Err(NO_PROFILE.to_owned())
        } else {
            Ok(self.selected)
        }
    }

    /// Begins to apply a change, unless one is being applied. Whether it began.
    pub fn begin(&mut self) -> (began: bool)
        ensures
            began == !old(self).busy,
            *final(self) == (LanPanel { busy: true, ..*old(self) }),
    {
        let began: bool = !self.busy;
        self.busy = true;
        began
    }

    /// Takes in what applying a change sent back: the line to show, and whether
    /// the list has to be read again.
    pub fn replied(&mut self, reply: LanReply) -> (result: (Option<Line>, bool))
        ensures
            match reply {
                LanReply::Done(message) => {
                    &&& result.0 == Some(Line::Status(message))
                    &&& result.1
                    &&& *final(self) == (LanPanel { busy: false, ..*old(self) })
                },
                LanReply::Failed(message) => {
                    &&& result.0 matches Some(Line::Error(said)) && said@ == "LAN: "@ + message@
                    &&& result.1
                    &&& *final(self) == (LanPanel { busy: false, ..*old(self) })
                },
                LanReply::Pending => {
                    &&& result.0 is None
                    &&& !result.1
                    &&& *final(self) == *old(self)
                },
                LanReply::Lost => {
                    &&& result.0 matches Some(Line::Error(said)) && said@
                        == "LAN task ended without a result"@
                    &&& !result.1
                    &&& *final(self) == (LanPanel { busy: false, ..*old(self) })
                },
            },
    {
        match reply {
            LanReply::Done(message) => {
                self.busy = false;
                (Some(Line::Status(message)), true)
            },
            LanReply::Failed(message) => {
                self.busy = false;
                let mut said: String = "LAN: ".to_owned();
                said.append(message.as_str());
                (Some(Line::Error(said)), true)
            },
            LanReply::Pending => (None, false),
            LanReply::Lost => {
                self.busy = false;
                (Some(Line::Error("LAN task ended without a result".to_owned())), false)
            },
        }
    }
}

/// The place that was typed, or why it is none.
pub open spec fn place_of(latitude: Seq<char>, longitude: Seq<char>) -> Result<
    Coordinate,
    Seq<char>,
> {
    match (
        setpoint::field_text(latitude, "latitude"@),
        setpoint::field_text(longitude, "longitude"@),
    ) {
        (Err(reason), _) => Err(reason),
        (Ok(_), Err(reason)) => Err(reason),
        (Ok(latitude), Ok(longitude)) => match geomagnetism::place_fault(latitude, longitude) {
            Some(fault) => Err(fault.text()),
            None => Ok(Coordinate { latitude, longitude }),
        },
    }
}

pub fn manual_place(latitude: &str, longitude: &str) -> (result: Result<Coordinate, String>)
    ensures
        match place_of(latitude@, longitude@) {
            Ok(place) => result == Ok::<Coordinate, String>(place),
            Err(reason) => result is Err && result->Err_0@ == reason,
        },
{
    let latitude: Double = match setpoint::parse_f64(latitude, "latitude") {
        Ok(latitude) => latitude,
        Err(reason) => return Err(reason),
    };
    let longitude: Double = match setpoint::parse_f64(longitude, "longitude") {
        Ok(longitude) => longitude,
        Err(reason) => return Err(reason),
    };
    match Coordinate::new(latitude, longitude) {
        Ok(place) => Ok(place),
        Err(error) => Err(error.message().to_owned()),
    }
}

/// What of the settings is saved as a number.
pub struct SavedNumbers {
    pub sensor_baud: u32,
    pub controller_baud: u32,
    pub magson_port: i32,
    pub setpoint_port: i32,
}

/// Reads the numbers that were typed. Rates and the magnetometer's port must be
/// right before anything is saved; a port for commands that is not counts as
/// none.
pub fn numbers_to_save(
    sensor_baud: &str,
    controller_baud: &str,
    magson_port: &str,
    setpoint_port: &str,
) -> (result: Result<SavedNumbers, String>)
    ensures
        match (
            links::baud(sensor_baud@),
            links::baud(controller_baud@),
            links::tcp_port(magson_port@),
        ) {
            (Err(reason), _, _) => result is Err && result->Err_0@ == "Cannot save sensor baud: "@
                + reason,
            (Ok(_), Err(reason), _) => result is Err && result->Err_0@
                == "Cannot save controller baud: "@ + reason,
            (Ok(_), Ok(_), Err(reason)) => result is Err && result->Err_0@
                == "Cannot save Magson port: "@ + reason,
            (Ok(sensor), Ok(controller), Ok(magson)) => {
                &&& result is Ok
                &&& result->Ok_0.sensor_baud == sensor
                &&& result->Ok_0.controller_baud == controller
                &&& result->Ok_0.magson_port == magson
                &&& result->Ok_0.setpoint_port == (match links::tcp_port(setpoint_port@) {
                    Ok(port) => port as int,
                    Err(_) => 0,
                })
            },
        },
{
    let sensor_baud: u32 = match links::parse_baud(sensor_baud) {
        Ok(value) => value,
        Err(reason) => {
            let mut message: String = "Cannot save sensor baud: ".to_owned();
            message.append(reason.as_str());
            return Err(message);
        },
    };
    let controller_baud: u32 = match links::parse_baud(controller_baud) {
        Ok(value) => value,
        Err(reason) => {
            let mut message: String = "Cannot save controller baud: ".to_owned();
            message.append(reason.as_str());
            return Err(message);
        },
    };
    let magson_port: i32 = match links::parse_tcp_port(magson_port) {
        Ok(value) => value as i32,
        Err(reason) => {
            let mut message: String = "Cannot save Magson port: ".to_owned();
            message.append(reason.as_str());
            return Err(message);
        },
    };
    let setpoint_port: i32 = match links::parse_tcp_port(setpoint_port) {
        Ok(value) => value as i32,
        Err(_) => 0,
    };
    Ok(SavedNumbers { sensor_baud, controller_baud, magson_port, setpoint_port })
}

/// What is said once the settings were saved, or were not. Limits that were
/// pulled in are named; `ceilings` is the firmware's, as it is written.
pub fn saved_line(
    path: &str,
    clamped: &[bool; 3],
    ceilings: &str,
    failure: Option<&str>,
) -> (result: Line)
    ensures
        match failure {
            Some(reason) => result matches Line::Error(message) && message@ == "Cannot save "@
                + path@ + ": "@ + reason@,
            None => if clamped@[0] || clamped@[1] || clamped@[2] {
                result matches Line::Error(message) && message@ == "Saved "@ + path@
                    + ", but output limits on "@ + text::joined(
                    config::axis_names(clamped@),
                    "/"@,
                ) + " were pulled inside the firmware ceiling ("@ + ceilings@ + ")"@
            } else {
                result matches Line::Status(message) && message@ == "Saved "@ + path@
            },
        },
{
    match failure {
        Some(reason) => {
            let mut message: String = "Cannot save ".to_owned();
            message.append(path);
            message.append(": ");
            message.append(reason);
            Line::Error(message)
        },
        None => {
            let mut message: String = "Saved ".to_owned();
            message.append(path);
            if clamped[0] || clamped[1] || clamped[2] {
                message.append(", but output limits on ");
                message.append(config::name_axes(clamped).as_str());
                message.append(" were pulled inside the firmware ceiling (");
                message.append(ceilings);
                message.append(")");
                Line::Error(message)
            } else {
                Line::Status(message)
            }
        },
    }
}

/// What is said once the settings were loaded: the problem, or the first
/// warning, or that all is well.
pub fn loaded_line(path: &str, problem: Option<String>, warning: Option<&str>) -> (result: Line)
    ensures
        match (problem, warning) {
            (Some(problem), _) => result == Line::Error(problem),
            (None, Some(warning)) => result matches Line::Error(message) && message@ == "Loaded "@
                + path@ + ", but "@ + warning@,
            (None, None) => result matches Line::Status(message) && message@ == "Loaded "@ + path@,
        },
{
    match problem {
        Some(problem) => Line::Error(problem),
        None => {
            let mut message: String = "Loaded ".to_owned();
            message.append(path);
            match warning {
                Some(warning) => {
                    message.append(", but ");
                    message.append(warning);
                    Line::Error(message)
                },
                None => Line::Status(message),
            }
        },
    }
}

} // verus!

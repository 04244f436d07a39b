//! Where the commanded field comes from. Only one source is live at a time, so
//! that a profile cannot fight a socket for the coils.
use crate::double::Double;
use crate::links;
use crate::setpoint;
use crate::setpoint::{SetpointProfile, SlewLimiter};
use crate::text;
use vstd::prelude::*;

verus! {

/// 10 s: a commanded field with no fresh command for this long ramps back to
/// zero. A propagator that dies would otherwise leave the coils holding its last
/// vector.
pub const SETPOINT_SOURCE_TIMEOUT: u128 = 10_000_000_000;

/// Loopback only. Widening this is a decision that someone has to make.
pub const DEFAULT_BIND_ADDRESS: &'static str = "127.0.0.1";

/// The port that commands are listened for on, where the settings name none.
pub const DEFAULT_SETPOINT_PORT: &'static str = "5005";

/// The status line once a profile has run out.
pub const PROFILE_FINISHED: &'static str = "Setpoint profile finished; holding the last row";

/// The error line once commands have stayed away.
pub const SOURCE_SILENT: &'static str =
    "No setpoint datagram for 10s; ramping the field to zero";

#[derive(Debug, Clone, Copy, PartialEq, Eq, Structural)]
pub enum SetpointSource {
    /// Typed into the panel.
    Manual,
    /// Replayed from a CSV of `time_s,bx_nt,by_nt,bz_nt`.
    Profile,
    /// Pushed over UDP by an external propagator.
    Socket,
}

impl SetpointSource {
    pub open spec fn name(self) -> Seq<char> {
        match self {
            SetpointSource::Manual => "Manual"@,
            SetpointSource::Profile => "CSV profile"@,
            SetpointSource::Socket => "UDP socket"@,
        }
    }

    pub fn label(self) -> (result: &'static str)
        ensures
            result@ == self.name(),
    {
        match self {
            SetpointSource::Manual => "Manual",
            SetpointSource::Profile => "CSV profile",
            SetpointSource::Socket => "UDP socket",
        }
    }
}

/// What a poll has to report.
#[derive(Debug, Clone, Copy, PartialEq, Eq, Structural)]
pub enum SourceEvent {
    Nothing,
    ProfileFinished,
    Silent,
}

/// The ramp, and what commands it.
pub struct Commands {
    pub slew: SlewLimiter,
    pub source: SetpointSource,
    pub profile: Option<SetpointProfile>,
    /// Whether the profile is being played.
    pub playing: bool,
    /// When the last command came over the socket.
    pub last_command: Option<u128>,
}

/// The target after a command.
pub open spec fn target_after(slew: SlewLimiter, field: (Double, Double, Double)) -> Seq<Double> {
    seq![
        setpoint::commanded(slew.target[0], field.0),
        setpoint::commanded(slew.target[1], field.1),
        setpoint::commanded(slew.target[2], field.2),
    ]
}

/// That commands over the socket have stayed away for too long.
pub open spec fn silent(last_command: Option<u128>, now: u128) -> bool {
    last_command is Some && links::since(last_command->0, now) > SETPOINT_SOURCE_TIMEOUT
}

/// That only the target of a ramp has moved.
pub open spec fn retargeted(before: SlewLimiter, after: SlewLimiter, target: Seq<Double>) -> bool {
    &&& after.rate_nt_per_second == before.rate_nt_per_second
    &&& after.current == before.current
    &&& after.target@ == target
}

impl Commands {
    pub open spec fn wf(self) -> bool {
        self.profile is Some ==> self.profile->0.wf()
    }

    /// Takes the newest command from whichever source is live: the profile's
    /// field at `profile_time`, or the newest datagram, where the socket listens.
    /// A profile that has run out is stopped; a socket that has been silent for
    /// too long sends the field back to zero, once.
    pub fn poll(
        &mut self,
        profile_time: Double,
        listening: bool,
        newest: Option<[Double; 3]>,
        now: u128,
    ) -> (event: SourceEvent)
        requires
            old(self).wf(),
        ensures
            final(self).wf(),
            final(self).source == old(self).source,
            final(self).profile == old(self).profile,
            match old(self).source {
                SetpointSource::Manual => {
                    &&& event == SourceEvent::Nothing
                    &&& *final(self) == *old(self)
                },
                SetpointSource::Profile => {
                    &&& final(self).last_command == old(self).last_command
                    &&& if old(self).playing && old(self).profile is Some {
                        let points = setpoint::tuples(old(self).profile->0.points@);
                        let last = if points.len() == 0 {
                            Double { bits: 0 }
                        } else {
                            points.last().0
                        };
                        &&& if points.len() == 0 {
                            final(self).slew == old(self).slew
                        } else {
                            retargeted(
                                old(self).slew,
                                final(self).slew,
                                target_after(
                                    old(self).slew,
                                    setpoint::sampled(points, profile_time),
                                ),
                            )
                        }
                        &&& final(self).playing == !last.less(profile_time)
                        &&& event == (if last.less(profile_time) {
                            SourceEvent::ProfileFinished
                        } else {
                            SourceEvent::Nothing
                        })
                    } else {
                        event == SourceEvent::Nothing && *final(self) == *old(self)
                    }
                },
                SetpointSource::Socket => {
                    &&& final(self).playing == old(self).playing
                    &&& if !listening {
                        event == SourceEvent::Nothing && *final(self) == *old(self)
                    } else if newest is Some {
                        &&& event == SourceEvent::Nothing
                        &&& final(self).last_command == Some(now)
                        &&& retargeted(
                            old(self).slew,
                            final(self).slew,
                            target_after(
                                old(self).slew,
                                (newest->0[0], newest->0[1], newest->0[2]),
                            ),
                        )
                    } else if silent(old(self).last_command, now) {
                        &&& event == SourceEvent::Silent
                        &&& final(self).last_command is None
                        &&& retargeted(
                            old(self).slew,
                            final(self).slew,
                            seq![Double { bits: 0 }, Double { bits: 0 }, Double { bits: 0 }],
                        )
                    } else {
                        event == SourceEvent::Nothing && *final(self) == *old(self)
                    }
                },
            },
    {
        match self.source {
            SetpointSource::Manual => SourceEvent::Nothing,
            SetpointSource::Profile => {
                if !self.playing {
                    return SourceEvent::Nothing;
                }
                let (field, last): (Option<[Double; 3]>, Double) = match &self.profile {
                    Some(profile) => (profile.sample(profile_time), profile.duration_s()),
                    None => return SourceEvent::Nothing,
                };
                match field {
                    Some(field) => self.slew.command(field),
                    None => {},
                }
                if last.lt(profile_time) {
                    self.playing = false;
                    SourceEvent::ProfileFinished
                } else {
                    SourceEvent::Nothing
                }
            },
            SetpointSource::Socket => {
                if !listening {
                    return SourceEvent::Nothing;
                }
                match newest {
                    Some(field) => {
                        self.slew.command(field);
                        self.last_command = Some(now);
                        return SourceEvent::Nothing;
                    },
                    None => {},
                }
                let overdue: bool = match self.last_command {
                    Some(at) => links::elapsed(at, now) > SETPOINT_SOURCE_TIMEOUT,
                    None => false,
                };
                if overdue {
                    self.last_command = None;
                    self.slew.command([Double::zero(), Double::zero(), Double::zero()]);
                    SourceEvent::Silent
                } else {
                    SourceEvent::Nothing
                }
            },
        }
    }

    /// Advances the ramp at the given rate. What it returns is the live setpoint.
    pub fn advance(&mut self, rate_nt_per_second: Double, dt: Double) -> (result: [Double; 3])
        ensures
            ({
                let slew = SlewLimiter { rate_nt_per_second, ..old(self).slew };
                &&& result@ == setpoint::stepped(slew, dt)
                &&& final(self).slew.current == result
                &&& final(self).slew.target == old(self).slew.target
                &&& final(self).slew.rate_nt_per_second == rate_nt_per_second
                &&& *final(self) == (Commands { slew: final(self).slew, ..*old(self) })
            }),
    {
        self.slew.rate_nt_per_second = rate_nt_per_second;
        self.slew.step(dt)
    }

    /// Commands a field by hand: the hand takes over from the other sources.
    pub fn command_by_hand(&mut self, field: [Double; 3])
        ensures
            final(self).source == SetpointSource::Manual,
            retargeted(
                old(self).slew,
                final(self).slew,
                target_after(old(self).slew, (field[0], field[1], field[2])),
            ),
            *final(self) == (Commands {
                slew: final(self).slew,
                source: SetpointSource::Manual,
                ..*old(self)
            }),
    {
        self.source = SetpointSource::Manual;
        self.slew.command(field);
    }

    /// The socket listens: it is the source now, and its silence counts from
    /// here.
    pub fn listens(&mut self, now: u128)
        ensures
            *final(self) == (Commands {
                source: SetpointSource::Socket,
                last_command: Some(now),
                ..*old(self)
            }),
    {
        self.source = SetpointSource::Socket;
        self.last_command = Some(now);
    }

    /// The socket has stopped: the last command is held.
    pub fn stops_listening(&mut self)
        ensures
            *final(self) == (Commands {
                source: if old(self).source == SetpointSource::Socket {
                    SetpointSource::Manual
                } else {
                    old(self).source
                },
                ..*old(self)
            }),
    {
        match self.source {
            SetpointSource::Socket => {
                self.source = SetpointSource::Manual;
            },
            _ => {},
        }
    }

    /// Takes in a profile, to be played when told.
    pub fn load_profile(&mut self, profile: SetpointProfile)
        requires
            profile.wf(),
        ensures
            *final(self) == (Commands {
                source: SetpointSource::Profile,
                profile: Some(profile),
                playing: false,
                ..*old(self)
            }),
            final(self).wf(),
    {
        self.profile = Some(profile);
        self.playing = false;
        self.source = SetpointSource::Profile;
    }

    /// Everything back to zero, with no ramp in flight.
    pub fn reset(&mut self)
        ensures
            final(self).slew.target@ == seq![
                Double { bits: 0 },
                Double { bits: 0 },
                Double { bits: 0 },
            ],
            final(self).slew.current == final(self).slew.target,
            final(self).slew.rate_nt_per_second == old(self).slew.rate_nt_per_second,
            *final(self) == (Commands { slew: final(self).slew, playing: false, ..*old(self) }),
    {
        let zero: [Double; 3] = [Double::zero(), Double::zero(), Double::zero()];
        self.slew.snap(zero);
        self.playing = false;
        assert(zero@ =~= seq![Double { bits: 0 }, Double { bits: 0 }, Double { bits: 0 }]);
    }
}

/// The address that commands are listened for on: loopback, where none was
/// chosen.
pub fn bind_address(chosen: &str) -> (result: String)
    ensures
        result@ == (if text::trim(chosen@).len() == 0 {
            DEFAULT_BIND_ADDRESS@
        } else {
            text::trim(chosen@)
        }),
{
    if text::is_blank(chosen) {
        DEFAULT_BIND_ADDRESS.to_owned()
    } else {
        text::trimmed(chosen)
    }
}

/// The port as it is shown: the saved one, or the usual one where none is saved.
pub fn shown_port(saved: i32) -> (result: String)
    ensures
        result@ == (if saved > 0 {
            text::decimal(saved as nat)
        } else {
            DEFAULT_SETPOINT_PORT@
        }),
{
    if saved > 0 {
        text::print(saved as u64)
    } else {
        DEFAULT_SETPOINT_PORT.to_owned()
    }
}

/// The status line once the socket listens.
pub open spec fn listening_text(address: Seq<char>, port: u16) -> Seq<char> {
    "Setpoint socket listening on UDP "@ + address + ":"@ + text::decimal(port as nat)
        + ": send \"bx,by,bz\" in nT"@
}

/// The warning for an address that other machines can reach.
pub open spec fn exposed_text(address: Seq<char>) -> Seq<char> {
    "Setpoint socket is reachable from the network on "@ + address
        + ". Datagrams are not authenticated: any host that can route here can drive the coils."@
}

/// What is said once the socket listens: a status line, and a warning unless the
/// address stays on this machine.
pub fn listening_lines(address: &str, port: u16, loopback: bool) -> (result: (
    String,
    Option<String>,
))
    ensures
        result.0@ == listening_text(address@, port),
        result.1 is None <==> loopback,
        result.1 matches Some(warning) ==> warning@ == exposed_text(address@),
{
    let mut status: String = "Setpoint socket listening on UDP ".to_owned();
    status.append(address);
    status.append(":");
    status.append(text::print(port as u64).as_str());
    status.append(": send \"bx,by,bz\" in nT");
    if loopback {
        return (status, None);
    }
    let mut warning: String = "Setpoint socket is reachable from the network on ".to_owned();
    warning.append(address);
    warning.append(
        ". Datagrams are not authenticated: any host that can route here can drive the coils.",
    );
    (status, Some(warning))
}

/// A new ramp rate, as it was typed: a number above zero.
pub fn slew_request(typed: &str) -> (result: Result<Double, String>)
    ensures
        match setpoint::field_text(typed@, "slew rate"@) {
            Err(reason) => result is Err && result->Err_0@ == "Slew rate: "@ + reason,
            Ok(rate) => if (Double { bits: 0 }).less(rate) {
                result == Ok::<Double, String>(rate)
            } else {
                result is Err && result->Err_0@ == "Slew rate must be above zero"@
            },
        },
{
    match setpoint::parse_f64(typed, "slew rate") {
        Ok(rate) => if Double::zero().lt(rate) {
            Ok(rate)
        } else {
            Err("Slew rate must be above zero".to_owned())
        },
        Err(reason) => {
            let mut message: String = "Slew rate: ".to_owned();
            message.append(reason.as_str());
            Err(message)
        },
    }
}

} // verus!

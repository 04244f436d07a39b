//! When the coils may be driven: faults, pauses and resumes of the control loop.
//!
//! Times are nanoseconds.
use crate::accuracy;
use crate::arithmetic;
use crate::config;
use crate::config::PidSettings;
use crate::double;
use crate::double::Double;
use crate::order;
use crate::pid;
use crate::pid::PidController;
use crate::setpoint;
use vstd::arithmetic::power2::*;
use vstd::prelude::*;

verus! {

/// 100 ms: how often the loop runs.
pub const PID_INTERVAL: u128 = 100_000_000;

/// 1 s: a running loop is stopped once the newest sensor packet is older.
pub const SENSOR_TIMEOUT: u128 = 1_000_000_000;

/// 5 s: how long every raw count may sit unchanged before the sensor counts as
/// dead. One count is below the sensor's noise floor, so all three axes holding
/// still for seconds is a frozen sensor, not a quiet cage.
pub const SENSOR_FROZEN_TIMEOUT: u128 = 5_000_000_000;

/// Why the loop must not be driving the coils.
#[derive(Debug, Clone, Copy, PartialEq, Eq, Structural)]
pub enum LoopFault {
    ControllerDown,
    SensorFrozen,
    SensorStale,
}

/// An age past [`SENSOR_TIMEOUT`]; never having received a packet counts too.
pub open spec fn stale(age: Option<u128>) -> bool {
    age is None || age->Some_0 > SENSOR_TIMEOUT
}

/// An age past [`SENSOR_FROZEN_TIMEOUT`]; no age is no fault, because staleness
/// already covers it.
pub open spec fn frozen(age: Option<u128>) -> bool {
    age is Some && age->Some_0 > SENSOR_FROZEN_TIMEOUT
}

/// The first fault that the operator has to deal with: a controller that is gone
/// makes the sensor's state irrelevant, and a frozen sensor is the more specific
/// diagnosis than a silent one.
pub open spec fn fault_of(
    controller_open: bool,
    sensor_age: Option<u128>,
    sensor_change_age: Option<u128>,
) -> Option<LoopFault> {
    if !controller_open {
        Some(LoopFault::ControllerDown)
    } else if frozen(sensor_change_age) {
        Some(LoopFault::SensorFrozen)
    } else if stale(sensor_age) {
        Some(LoopFault::SensorStale)
    } else {
        None
    }
}

/// An open port that stopped delivering packets leaves the last reading in
/// place, and the loop would keep integrating against that frozen value.
pub fn sensor_is_stale(age: Option<u128>) -> (result: bool)
    ensures
        result == stale(age),
{
    match age {
        None => true,
        Some(age) => age > SENSOR_TIMEOUT,
    }
}

pub fn sensor_is_frozen(age: Option<u128>) -> (result: bool)
    ensures
        result == frozen(age),
{
    match age {
        None => false,
        Some(age) => age > SENSOR_FROZEN_TIMEOUT,
    }
}

/// The one gate that every path uses, so that pausing and resuming cannot
/// disagree about what counts as healthy.
pub fn loop_fault(
    controller_open: bool,
    sensor_age: Option<u128>,
    sensor_change_age: Option<u128>,
) -> (result: Option<LoopFault>)
    ensures
        result == fault_of(controller_open, sensor_age, sensor_change_age),
{
    if !controller_open {
        return Some(LoopFault::ControllerDown);
    }
    if sensor_is_frozen(sensor_change_age) {
        return Some(LoopFault::SensorFrozen);
    }
    if sensor_is_stale(sensor_age) {
        return Some(LoopFault::SensorStale);
    }
    None
}

/// What a fault is reported as. `seconds` is the age behind it as a number of
/// seconds in text, where there is one.
pub open spec fn pause_reason(fault: LoopFault, seconds: Option<Seq<char>>) -> Seq<char> {
    match (fault, seconds) {
        (LoopFault::ControllerDown, _) =>
            "controller link down; the coils hold their last command until it reopens"@,
        (LoopFault::SensorFrozen, Some(age)) => "sensor readings unchanged for "@ + age + "s"@,
        (LoopFault::SensorFrozen, None) => "sensor readings unchanged for "@ + "0.0"@ + "s"@,
        (LoopFault::SensorStale, Some(age)) => "no sensor data for "@ + age + "s"@,
        (LoopFault::SensorStale, None) => "no sensor data received yet"@,
    }
}

/// The error line for a pause.
pub fn pause_message(fault: LoopFault, seconds: Option<&str>) -> (result: String)
    ensures
        result@ == "PID paused: "@ + pause_reason(
            fault,
            match seconds {
                Some(age) => Some(age@),
                None => None,
            },
        ),
{
    let reason: String = match (fault, seconds) {
        (LoopFault::ControllerDown, _) => {
            "controller link down; the coils hold their last command until it reopens".to_owned()
        },
        (LoopFault::SensorFrozen, age) => {
            let mut reason: String = "sensor readings unchanged for ".to_owned();
            match age {
                Some(age) => reason.append(age),
                None => reason.append("0.0"),
            }
            reason.append("s");
            reason
        },
        (LoopFault::SensorStale, Some(age)) => {
            let mut reason: String = "no sensor data for ".to_owned();
            reason.append(age);
            reason.append("s");
            reason
        },
        (LoopFault::SensorStale, None) => "no sensor data received yet".to_owned(),
    };
    let mut message: String = "PID paused: ".to_owned();
    message.append(reason.as_str());
    message
}

/// Which axes run, which the watchdog has paused, and whether they wait for
/// every fault to clear before they run again.
pub struct Loop {
    pub running: Seq<bool>,
    pub paused: Seq<bool>,
    pub resume_pending: bool,
}

/// No axis at all.
pub open spec fn none() -> Seq<bool> {
    seq![false, false, false]
}

/// That at least one axis is flagged.
pub open spec fn any(flags: Seq<bool>) -> bool {
    flags[0] || flags[1] || flags[2]
}

/// What the loop does this tick.
#[derive(Debug, Clone, Copy, PartialEq, Eq, Structural)]
pub enum LoopAction {
    /// The settings of this axis could not be used and have been repaired: send
    /// zeros.
    Repaired(usize),
    /// A fault: hold the controllers, send zeros.
    Pause(LoopFault),
    /// Drive the running axes and send zero for the others.
    Drive,
    /// As `Drive`, with axes running again that a fault had paused.
    Resume,
}

/// One tick with usable settings. A fault pauses whatever runs and remembers it;
/// a pending resume happens once no fault is left.
pub open spec fn tick(state: Loop, fault: Option<LoopFault>) -> (Loop, LoopAction) {
    if any(state.running) && fault is Some {
        (Loop { running: none(), paused: state.running, ..state }, LoopAction::Pause(fault->Some_0))
    } else if state.resume_pending && fault is None {
        (
            Loop { running: state.paused, paused: none(), resume_pending: false },
            if any(state.paused) {
                LoopAction::Resume
            } else {
                LoopAction::Drive
            },
        )
    } else {
        (state, LoopAction::Drive)
    }
}

/// The first axis whose settings cannot be used, or 3.
pub open spec fn first_unusable(settings: Seq<PidSettings>) -> int {
    if !config::usable_pid(settings[0]) {
        0
    } else if !config::usable_pid(settings[1]) {
        1
    } else if !config::usable_pid(settings[2]) {
        2
    } else {
        3
    }
}

/// What one tick makes of the loop and its settings. Settings that cannot be used
/// stop everything and are repaired; else the loop ticks.
pub open spec fn runs(
    before: Loop,
    after: Loop,
    settings: Seq<PidSettings>,
    kept: Seq<PidSettings>,
    fault: Option<LoopFault>,
    action: LoopAction,
) -> bool {
    let bad = first_unusable(settings);
    if bad < 3 {
        &&& action == LoopAction::Repaired(bad as usize)
        &&& after == Loop { running: none(), ..before }
        &&& kept == settings.update(bad, config::repaired_pid(settings[bad]))
    } else {
        &&& kept == settings
        &&& (after, action) == tick(before, fault)
    }
}

/// The state of the control loop.
#[derive(Debug, Clone, Copy, PartialEq)]
pub struct LoopControl {
    pub pid_running: [bool; 3],
    pub paused_by_watchdog: [bool; 3],
    pub resume_pending: bool,
}

impl View for LoopControl {
    type V = Loop;

    open spec fn view(&self) -> Loop {
        Loop {
            running: self.pid_running@,
            paused: self.paused_by_watchdog@,
            resume_pending: self.resume_pending,
        }
    }
}

/// A loop in which nothing runs and nothing waits.
pub open spec fn inert() -> Loop {
    Loop { running: none(), paused: none(), resume_pending: false }
}

impl Default for LoopControl {
    fn default() -> (result: Self)
        ensures
            result@ == inert(),
    {
        let result: LoopControl = LoopControl {
            pid_running: [false, false, false],
            paused_by_watchdog: [false, false, false],
            resume_pending: false,
        };
        assert(result.pid_running@ =~= none());
        assert(result.paused_by_watchdog@ =~= none());
        result
    }
}

fn any_flag(flags: &[bool; 3]) -> (result: bool)
    ensures
        result == any(flags@),
{
    flags[0] || flags[1] || flags[2]
}

/// Whether enough time has passed for the loop to run again.
pub fn tick_is_due(elapsed: u128) -> (result: bool)
    ensures
        result == (elapsed >= PID_INTERVAL),
{
    elapsed >= PID_INTERVAL
}

impl LoopControl {
    /// One tick of the loop. Settings that cannot be used stop everything and
    /// are repaired; else a fault pauses what runs, and a pending resume happens
    /// once every fault is clear.
    pub fn run_pid(
        &mut self,
        settings: &mut [PidSettings; 3],
        controller_open: bool,
        sensor_age: Option<u128>,
        sensor_change_age: Option<u128>,
    ) -> (action: LoopAction)
        ensures
            runs(
                old(self)@,
                final(self)@,
                old(settings)@,
                final(settings)@,
                fault_of(controller_open, sensor_age, sensor_change_age),
                action,
            ),
    {
        let ghost before = self@;
        let mut axis: usize = 0;
        while axis < 3
            invariant
                axis <= 3,
                self@ == before,
                settings@ == old(settings)@,
                before == old(self)@,
                forall|i: int| 0 <= i < axis ==> config::usable_pid(#[trigger] settings@[i]),
            decreases 3 - axis,
        {
            let mut chosen: PidSettings = settings[axis];
            if config::validate_pid_settings(&chosen).is_err() {
                self.pid_running = [false, false, false];
                assert(self.pid_running@ =~= none());
                chosen.sanitize();
                settings[axis] = chosen;
                return LoopAction::Repaired(axis);
            }
            axis = axis + 1;
        }
        assert(config::usable_pid(settings@[0]));
        assert(config::usable_pid(settings@[1]));
        assert(config::usable_pid(settings@[2]));
        let fault: Option<LoopFault> = loop_fault(controller_open, sensor_age, sensor_change_age);
        if any_flag(&self.pid_running) {
            match fault {
                Some(fault) => {
                    self.paused_by_watchdog = self.pid_running;
                    self.pid_running = [false, false, false];
                    assert(self.pid_running@ =~= none());
                    return LoopAction::Pause(fault);
                },
                None => {},
            }
        }
        if self.resume_pending && fault.is_none() {
            self.resume_pending = false;
            self.pid_running = self.paused_by_watchdog;
            self.paused_by_watchdog = [false, false, false];
            assert(self.paused_by_watchdog@ =~= none());
            if any_flag(&self.pid_running) {
                return LoopAction::Resume;
            }
        }
        LoopAction::Drive
    }

    /// One tick of the loop and of the three controllers, over `dt` seconds and
    /// against what was measured: what was decided, and what to send.
    ///
    /// A pause holds the controllers; where settings had to be repaired, they are
    /// left alone.
    pub fn drive_axes(
        &mut self,
        settings: &mut [PidSettings; 3],
        pids: &mut [PidController; 3],
        measured: [Double; 3],
        dt: Double,
        controller_open: bool,
        sensor_age: Option<u128>,
        sensor_change_age: Option<u128>,
    ) -> (result: (LoopAction, [Double; 3]))
        ensures
            runs(
                old(self)@,
                final(self)@,
                old(settings)@,
                final(settings)@,
                fault_of(controller_open, sensor_age, sensor_change_age),
                result.0,
            ),
            forall|axis: int|
                0 <= axis < 3 ==> (#[trigger] final(pids)@[axis], result.1@[axis]) == acted(
                    result.0,
                    old(pids)@[axis],
                    final(settings)@[axis],
                    final(self)@.running[axis],
                    measured@[axis],
                    dt,
                ),
    {
        let action: LoopAction = self.run_pid(
            settings,
            controller_open,
            sensor_age,
            sensor_change_age,
        );
        let zero: Double = Double::zero();
        match action {
            LoopAction::Repaired(_) => (action, [zero, zero, zero]),
            LoopAction::Pause(_) => {
                pids[0].hold();
                pids[1].hold();
                pids[2].hold();
                (action, [zero, zero, zero])
            },
            _ => {
                let running: [bool; 3] = self.pid_running;
                let x: Double = drive(&mut pids[0], &settings[0], running[0], measured[0], dt);
                let y: Double = drive(&mut pids[1], &settings[1], running[1], measured[1], dt);
                let z: Double = drive(&mut pids[2], &settings[2], running[2], measured[2], dt);
                (action, [x, y, z])
            },
        }
    }

    /// A deliberate stop: whoever asks for it wants the cage inert, not parked
    /// ready to resume.
    pub fn stop_all(&mut self)
        ensures
            final(self)@ == inert(),
    {
        *self = LoopControl::default();
    }

    /// Forgets what the watchdog paused, as a deliberate disconnect of the
    /// sensor does.
    pub fn forget_pause(&mut self)
        ensures
            final(self)@ == (Loop { paused: none(), resume_pending: false, ..old(self)@ }),
    {
        self.resume_pending = false;
        self.paused_by_watchdog = [false, false, false];
        assert(self.paused_by_watchdog@ =~= none());
    }

    /// A link has come back. Where that was asked for, the paused axes wait for
    /// every fault to clear.
    pub fn link_restored(&mut self, resume_after_reconnect: bool)
        ensures
            final(self)@ == (Loop {
                resume_pending: old(self)@.resume_pending || resume_after_reconnect,
                ..old(self)@
            }),
    {
        if resume_after_reconnect {
            self.resume_pending = true;
        }
    }

    /// Starts a stopped axis or stops a running one, and says whether it was
    /// stopped: a zero for it has to be sent then.
    pub fn toggle_axis(&mut self, axis: usize) -> (paused: bool)
        requires
            axis < 3,
        ensures
            final(self)@ == (Loop {
                running: old(self)@.running.update(axis as int, !old(self)@.running[axis as int]),
                ..old(self)@
            }),
            paused == old(self)@.running[axis as int],
    {
        let running: bool = self.pid_running[axis];
        self.pid_running[axis] = !running;
        running
    }

    /// How many axes run.
    pub fn running_count(&self) -> (result: usize)
        ensures
            result == self@.running.filter(|flag: bool| flag).len(),
    {
        let mut count: usize = 0;
        if self.pid_running[0] {
            count = count + 1;
        }
        if self.pid_running[1] {
            count = count + 1;
        }
        if self.pid_running[2] {
            count = count + 1;
        }
        proof {
            let flags = self.pid_running@;
            let keep = |flag: bool| flag;
            reveal(Seq::filter);
            assert(flags.drop_last().drop_last().drop_last() =~= Seq::empty());
            assert(flags.drop_last().drop_last().drop_last().filter(keep).len() == 0);
            assert(flags.drop_last().drop_last().filter(keep).len() == (if flags[0] {
                1int
            } else {
                0int
            }));
            assert(flags.drop_last().filter(keep).len() == (if flags[0] {
                1int
            } else {
                0int
            }) + (if flags[1] {
                1int
            } else {
                0int
            }));
        }
        count
    }
}

/// The coils are never driven through a fault: whenever a tick leaves an axis
/// running, there is none.
pub proof fn law_nothing_runs_through_a_fault(state: Loop, fault: Option<LoopFault>)
    requires
        any(tick(state, fault).0.running),
    ensures
        fault is None,
{
}

/// A stopped loop stays stopped, whatever the links do, until an axis is
/// started.
pub proof fn law_a_stopped_loop_stays_stopped(fault: Option<LoopFault>)
    ensures
        tick(inert(), fault) == (inert(), LoopAction::Drive),
{
}

/// A pause remembers the axes: once a link is restored and every fault is clear,
/// exactly those run again that ran before.
pub proof fn law_a_resume_restores_what_a_pause_stopped(state: Loop, fault: LoopFault)
    requires
        state.running.len() == 3,
        any(state.running),
    ensures
        ({
            let (paused, action) = tick(state, Some(fault));
            let (resumed, next) = tick(Loop { resume_pending: true, ..paused }, None);
            &&& action == LoopAction::Pause(fault)
            &&& paused.running == none()
            &&& resumed.running == state.running
            &&& next == LoopAction::Resume
        }),
{
}

/// What an output does to its limits: at the limit the loop has no authority
/// left.
pub fn is_saturated(running: bool, output: Double, min_output: Double, max_output: Double) -> (result:
    bool)
    ensures
        result == (running && (max_output.at_most(output) || output.at_most(min_output))),
{
    running && (max_output.le(output) || output.le(min_output))
}

/// How far off a reading is.
#[derive(Debug, Clone, Copy, PartialEq, Eq, Structural)]
pub enum Severity {
    /// Within 1 percent.
    Good,
    /// Within 5 percent.
    Fair,
    /// Further off, or no number at all.
    Bad,
}

/// Rates an error in percent, whichever its sign.
pub fn error_severity(percent: Double) -> (result: Severity)
    ensures
        result == (if percent.magnitude() < 0x3ff0_0000_0000_0000 {
            Severity::Good
        } else if percent.magnitude() < 0x4014_0000_0000_0000 {
            Severity::Fair
        } else {
            Severity::Bad
        }),
{
    let magnitude: u64 = percent.magnitude_bits();
    if magnitude < 0x3ff0_0000_0000_0000 {
        Severity::Good
    } else if magnitude < 0x4014_0000_0000_0000 {
        Severity::Fair
    } else {
        Severity::Bad
    }
}

/// How far the filter is told that the field was asked to move between two
/// packets. Only an axis whose loop is closed, whose packets reach the coils and
/// whose last setpoint is known has been told to move.
pub open spec fn commanded_move(
    previous: Option<[Double; 3]>,
    setpoint: [Double; 3],
    controller_open: bool,
    running: [bool; 3],
    axis: int,
) -> Double {
    match previous {
        Some(previous) => if controller_open && running[axis] {
            arithmetic::difference(setpoint[axis], previous[axis])
        } else {
            Double { bits: 0 }
        },
        None => Double { bits: 0 },
    }
}

pub fn command_delta(
    previous: Option<[Double; 3]>,
    setpoint: [Double; 3],
    controller_open: bool,
    running: [bool; 3],
) -> (result: [Double; 3])
    ensures
        forall|axis: int|
            0 <= axis < 3 ==> #[trigger] result@[axis] == commanded_move(
                previous,
                setpoint,
                controller_open,
                running,
                axis,
            ),
{
    match previous {
        Some(previous) => {
            let mut result: [Double; 3] = [Double::zero(), Double::zero(), Double::zero()];
            if controller_open && running[0] {
                result[0] = setpoint[0].minus(previous[0]);
            }
            if controller_open && running[1] {
                result[1] = setpoint[1].minus(previous[1]);
            }
            if controller_open && running[2] {
                result[2] = setpoint[2].minus(previous[2]);
            }
            result
        },
        None => [Double::zero(), Double::zero(), Double::zero()],
    }
}

/// A controller with the gains and limits of the settings.
pub open spec fn configured(pid: PidController, settings: PidSettings) -> PidController {
    PidController {
        kp: settings.kp,
        ki: settings.ki,
        kd: settings.kd,
        min_output: settings.min_output,
        max_output: settings.max_output,
        ..pid
    }
}

/// What one axis does in a tick: a running one calculates, a stopped one puts
/// out nothing.
pub open spec fn driven(
    pid: PidController,
    settings: PidSettings,
    running: bool,
    measured: Double,
    dt: Double,
) -> (PidController, Double) {
    if running {
        pid::step(configured(pid, settings), settings.setpoint, measured, dt)
    } else {
        (configured(pid, settings), Double { bits: 0 })
    }
}

/// Drives one axis for a tick of `dt` seconds.
pub fn drive(
    pid: &mut PidController,
    settings: &PidSettings,
    running: bool,
    measured: Double,
    dt: Double,
) -> (output: Double)
    ensures
        (*final(pid), output) == driven(*old(pid), *settings, running, measured, dt),
{
    pid.apply_settings(settings);
    if running {
        pid.calculate_dt(settings.setpoint, measured, dt)
    } else {
        Double::zero()
    }
}

/// What one axis does once it is decided what the loop does: a tick drives it, a
/// pause holds its controller, and a repair leaves it alone.
pub open spec fn acted(
    action: LoopAction,
    pid: PidController,
    settings: PidSettings,
    running: bool,
    measured: Double,
    dt: Double,
) -> (PidController, Double) {
    match action {
        LoopAction::Repaired(_) => (pid, Double { bits: 0 }),
        LoopAction::Pause(_) => (pid::held(pid), Double { bits: 0 }),
        _ => driven(pid, settings, running, measured, dt),
    }
}

/// Nothing reaches the coils through a fault: an axis is sent anything but zero
/// only when every setting can be used and there is no fault.
pub proof fn law_faults_send_zeros(
    before: Loop,
    after: Loop,
    settings: Seq<PidSettings>,
    kept: Seq<PidSettings>,
    fault: Option<LoopFault>,
    action: LoopAction,
    pid: PidController,
    axis: int,
    measured: Double,
    dt: Double,
)
    requires
        0 <= axis < 3,
        runs(before, after, settings, kept, fault, action),
        acted(action, pid, kept[axis], after.running[axis], measured, dt).1 != (Double { bits: 0 }),
    ensures
        after.running[axis],
        fault is None,
        first_unusable(settings) == 3,
{
}

/// How far into its limits an output lies, from zero to one; zero, where the
/// limits or the output make no sense.
pub open spec fn fraction_of(output: Double, min: Double, max: Double) -> Double {
    let span = arithmetic::difference(max, min);
    if !span.finite() || span.at_most(Double { bits: 0 }) || !output.finite() {
        Double { bits: 0 }
    } else {
        arithmetic::quotient(arithmetic::difference(output, min), span).clamped(
            Double { bits: 0 },
            Double { bits: 0x3ff0_0000_0000_0000 },
        )
    }
}

pub fn output_fraction(output: Double, min: Double, max: Double) -> (result: Double)
    ensures
        result == fraction_of(output, min, max),
{
    let span: Double = max.minus(min);
    if !span.is_finite() || span.le(Double::zero()) || !output.is_finite() {
        return Double::zero();
    }
    output.minus(min).over(span).clamp(Double::zero(), Double::from_bits(0x3ff0_0000_0000_0000))
}

/// An output against the wider of its two limits, from minus one to one.
pub open spec fn drive_of(output: Double, min: Double, max: Double) -> Double {
    let span = config::wider(min.absolute(), max.absolute());
    if (Double { bits: 0 }).less(span) {
        arithmetic::quotient(output, span).clamped(
            Double { bits: 0xbff0_0000_0000_0000 },
            Double { bits: 0x3ff0_0000_0000_0000 },
        )
    } else {
        Double { bits: 0 }
    }
}

pub fn signed_drive(output: Double, min: Double, max: Double) -> (result: Double)
    ensures
        result == drive_of(output, min, max),
{
    let span: Double = min.abs().max(max.abs());
    if Double::zero().lt(span) {
        output.over(span).clamp(
            Double::from_bits(0xbff0_0000_0000_0000),
            Double::from_bits(0x3ff0_0000_0000_0000),
        )
    } else {
        Double::zero()
    }
}

/// The bar never leaves its frame: a fraction is a number from zero to one.
pub proof fn law_fractions_stay_in_the_bar(output: Double, min: Double, max: Double)
    ensures
        (Double { bits: 0 }).at_most(fraction_of(output, min, max)),
        fraction_of(output, min, max).at_most(Double { bits: 0x3ff0_0000_0000_0000 }),
{
    let span = arithmetic::difference(max, min);
    if span.finite() && !span.at_most(Double { bits: 0 }) && output.finite() {
        arithmetic::law_sums_are_numbers(max, min.negated());
        arithmetic::law_sums_are_numbers(output, min.negated());
        let above = arithmetic::difference(output, min);
        arithmetic::law_quotients_are_numbers(above, span);
    }
}

/// The status line for axis `axis` after a repair.
pub fn repaired_message(axis: usize, reason: &str) -> (result: String)
    requires
        axis < 3,
    ensures
        result@ == "PID "@ + axis_name(axis as int) + ": "@ + reason@
            + "; restored safe defaults"@,
{
    let mut message: String = "PID ".to_owned();
    message.append(name_of(axis));
    message.append(": ");
    message.append(reason);
    message.append("; restored safe defaults");
    message
}

pub open spec fn axis_name(axis: int) -> Seq<char> {
    if axis == 0 {
        "X"@
    } else if axis == 1 {
        "Y"@
    } else {
        "Z"@
    }
}

pub fn name_of(axis: usize) -> (result: &'static str)
    ensures
        result@ == axis_name(axis as int),
{
    if axis == 0 {
        "X"
    } else if axis == 1 {
        "Y"
    } else {
        "Z"
    }
}

/// Of three ratios the one that stands last in the total order, the later axis
/// where two are the same.
pub fn most_lopsided(ratios: &[Double; 3]) -> (result: usize)
    ensures
        result < 3,
        forall|axis: int|
            0 <= axis < 3 ==> (#[trigger] ratios@[axis]).total_rank()
                <= ratios@[result as int].total_rank(),
        forall|axis: int|
            result < axis < 3 ==> (#[trigger] ratios@[axis]).total_rank()
                < ratios@[result as int].total_rank(),
{
    let mut best: usize = 0;
    if ratios[best].total_le(ratios[1]) {
        best = 1;
    }
    if ratios[best].total_le(ratios[2]) {
        best = 2;
    }
    best
}

/// 1.5: output limits that are more lopsided are reported. A coil pair drives the
/// same both ways, so the expected ratio is one; this leaves room for a
/// deliberately trimmed axis without passing over a missing digit.
pub const AUTHORITY_RATIO_LIMIT: u64 = 0x3ff8_0000_0000_0000;

/// The most lopsided axis and its ratio, where that is worth reporting.
pub fn lopsided_axis(settings: &[PidSettings; 3]) -> (result: Option<(usize, Double)>)
    ensures
        result is Some == exists|axis: int|
            0 <= axis < 3 && stands_out(config::authority(#[trigger] settings@[axis]), settings@),
        match result {
            Some((axis, ratio)) => {
                &&& axis < 3
                &&& ratio == config::authority(settings@[axis as int])
                &&& stands_out(ratio, settings@)
                &&& forall|later: int|
                    axis < later < 3 ==> config::authority(
                        #[trigger] settings@[later],
                    ).total_rank() < ratio.total_rank()
            },
            None => true,
        },
{
    let ratios: [Double; 3] = [
        settings[0].authority_ratio(),
        settings[1].authority_ratio(),
        settings[2].authority_ratio(),
    ];
    let axis: usize = most_lopsided(&ratios);
    let ratio: Double = ratios[axis];
    assert forall|other: int| 0 <= other < 3 implies ratios@[other] == config::authority(
        #[trigger] settings@[other],
    ) by {}
    if Double::from_bits(AUTHORITY_RATIO_LIMIT).lt(ratio) {
        assert(stands_out(ratio, settings@));
        Some((axis, ratio))
    } else {
        proof {
            assert forall|other: int| 0 <= other < 3 implies !stands_out(
                config::authority(#[trigger] settings@[other]),
                settings@,
            ) by {
                if config::authority(settings@[other]).total_rank() == ratio.total_rank() {
                    double::law_total_rank_tells_patterns_apart(
                        config::authority(settings@[other]),
                        ratio,
                    );
                }
            }
        }
        None
    }
}

/// A ratio past the limit that no axis stands above.
pub open spec fn stands_out(ratio: Double, settings: Seq<PidSettings>) -> bool {
    &&& (Double { bits: AUTHORITY_RATIO_LIMIT }).less(ratio)
    &&& forall|axis: int|
        0 <= axis < 3 ==> config::authority(#[trigger] settings[axis]).total_rank()
            <= ratio.total_rank()
}

/// A bar is empty at the lower limit and full at the upper one, and what lies past
/// them changes nothing.
pub proof fn law_bars_fill_from_limit_to_limit(output: Double, min: Double, max: Double)
    requires
        min.finite(),
        max.finite(),
        min.less(max),
        arithmetic::difference(max, min).finite(),
        output.finite(),
    ensures
        output.at_most(min) ==> fraction_of(output, min, max).magnitude() == 0,
        max.at_most(output) ==> fraction_of(output, min, max) == (Double {
            bits: 0x3ff0_0000_0000_0000,
        }),
{
    let zero = Double { bits: 0 };
    let span = arithmetic::difference(max, min);
    setpoint::lemma_later_less_earlier(min, max);
    let above = arithmetic::difference(output, min);
    arithmetic::law_sums_are_numbers(output, min.negated());
    arithmetic::law_quotients_are_numbers(above, span);
    arithmetic::law_quotients_are_numbers(zero, span);
    arithmetic::law_quotients_are_numbers(span, span);
    if output.at_most(min) {
        arithmetic::law_a_number_less_itself_is_zero(min);
        order::law_differences_keep_order(output, min, min, min);
        order::law_quotients_keep_order(above, zero, span);
        arithmetic::law_zero_over_a_number(zero, span);
    }
    if max.at_most(output) {
        order::law_differences_keep_order(max, min, output, min);
        order::law_quotients_keep_order(span, above, span);
        arithmetic::law_a_number_over_itself(span);
    }
}

/// A larger output never shows a shorter bar.
pub proof fn law_larger_outputs_show_longer_bars(
    less: Double,
    more: Double,
    min: Double,
    max: Double,
)
    requires
        less.finite(),
        more.finite(),
        less.at_most(more),
    ensures
        fraction_of(less, min, max).at_most(fraction_of(more, min, max)),
{
    let span = arithmetic::difference(max, min);
    if span.finite() && !span.at_most(Double { bits: 0 }) {
        arithmetic::law_sums_are_numbers(max, min.negated());
        arithmetic::law_sums_are_numbers(less, min.negated());
        arithmetic::law_sums_are_numbers(more, min.negated());
        order::law_differences_keep_order(less, min, more, min);
        let below = arithmetic::difference(less, min);
        let above = arithmetic::difference(more, min);
        arithmetic::law_quotients_are_numbers(below, span);
        arithmetic::law_quotients_are_numbers(above, span);
        order::law_quotients_keep_order(below, above, span);
    }
}

/// Inside its limits a bar is as long as the output is far from the lower limit, as
/// a share of the way between the two, as closely as numbers can tell.
pub proof fn law_bars_are_shares(output: Double, min: Double, max: Double)
    requires
        min.finite(),
        max.finite(),
        min.less(max),
        arithmetic::difference(max, min).finite(),
        output.finite(),
        (Double { bits: 0 }).less(fraction_of(output, min, max)),
        fraction_of(output, min, max).less(Double { bits: 0x3ff0_0000_0000_0000 }),
        arithmetic::difference(output, min).finite(),
    ensures
        ({
            let bar = fraction_of(output, min, max).units();
            let way = arithmetic::difference(output, min).units();
            let span = arithmetic::difference(max, min).units();
            let half: int = 0x10_0000_0000_0000;
            2 * half * accuracy::apart(span * bar, way * pow2(1074)) <= (bar + half) * span
        }),
{
    let span = arithmetic::difference(max, min);
    setpoint::lemma_later_less_earlier(min, max);
    let way = arithmetic::difference(output, min);
    arithmetic::law_quotients_are_numbers(way, span);
    let bar = arithmetic::quotient(way, span);
    assert(fraction_of(output, min, max) == bar);
    order::law_units_follow_rank(bar, bar);
    order::law_units_follow_rank(span, span);
    accuracy::law_quotients_are_close(way, span);
}

/// A drive has no favourite side: the opposite output is the opposite drive, and it
/// does not matter which of the limits is the wider.
pub proof fn law_drives_are_symmetric(output: Double, min: Double, max: Double)
    requires
        !min.nan(),
        !max.nan(),
    ensures
        order::opposite(
            drive_of(output, min, max),
            drive_of(output.negated(), max.negated(), min.negated()),
        ),
        drive_of(output, min, max) == drive_of(output, max, min),
{
    let span = config::wider(min.absolute(), max.absolute());
    assert(span == config::wider(max.absolute(), min.absolute()));
    if (Double { bits: 0 }).less(span) {
        order::law_negatives_are_opposite(output);
        order::law_opposite_quotients(output, span, output.negated(), span);
    }
}

/// An output at the wider limit is the whole of the drive.
pub proof fn law_the_wider_limit_is_the_whole_drive(min: Double, max: Double)
    requires
        min.finite(),
        max.finite(),
        max.magnitude() > 0,
        min.magnitude() <= max.magnitude(),
    ensures
        drive_of(max.absolute(), min, max) == (Double { bits: 0x3ff0_0000_0000_0000 }),
        drive_of(max.absolute(), max, min) == (Double { bits: 0x3ff0_0000_0000_0000 }),
        drive_of(max.absolute().negated(), min, max) == (Double { bits: 0xbff0_0000_0000_0000 }),
{
    let span = config::wider(min.absolute(), max.absolute());
    assert(span == max.absolute());
    arithmetic::law_a_number_over_itself(span);
    law_drives_are_symmetric(span, min, max);
}

/// What the filter is told is how far the setpoint moved: from the last setpoint, it
/// leads to the new one, as closely as numbers can tell. An axis that does not run,
/// or whose packets do not reach the coils, was not told to move.
pub proof fn law_commanded_moves_lead_to_the_setpoint(
    previous: [Double; 3],
    setpoint: [Double; 3],
    controller_open: bool,
    running: [bool; 3],
    axis: int,
)
    requires
        0 <= axis < 3,
        previous[axis].finite(),
        setpoint[axis].finite(),
        arithmetic::difference(setpoint[axis], previous[axis]).finite(),
    ensures
        ({
            let told = commanded_move(
                Some(previous),
                setpoint,
                controller_open,
                running,
                axis,
            ).units();
            let half: int = 0x10_0000_0000_0000;
            if controller_open && running[axis] {
                2 * half * accuracy::apart(previous[axis].units() + told, setpoint[axis].units())
                    <= accuracy::apart(told, 0) + half
            } else {
                told == 0
            }
        }),
{
    assert(double::double_units(0) == 0);
    assert(previous[axis].negated().units() == -previous[axis].units());
    accuracy::law_sums_are_close(setpoint[axis], previous[axis].negated());
}

} // verus!

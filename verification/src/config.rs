//! Settings: their defaults, and the repair of what cannot be used.
use crate::arithmetic;
use crate::double::Double;
use crate::order;
use crate::packet;
use crate::packet::FIRMWARE_MAX_OUTPUT;
use crate::text;
use vstd::prelude::*;

verus! {

/// nT per raw count of the sensor, 20/3: full scale is +-2 G over +-30000
/// counts.
pub const DEFAULT_COUNT_TO_NT: u64 = 0x401a_aaaa_aaaa_aaab;

/// Gains, limits and setpoint of one axis.
#[derive(Debug, Clone, Copy, PartialEq, Eq, Structural)]
pub struct PidSettings {
    pub kp: Double,
    pub ki: Double,
    pub kd: Double,
    pub max_output: Double,
    pub min_output: Double,
    pub setpoint: Double,
}

/// 100, the output limit where nothing else is set.
pub open spec fn hundred() -> Double {
    Double { bits: 0x4059_0000_0000_0000 }
}

/// No gain, limits of +-100 and a setpoint of zero.
pub open spec fn default_pid() -> PidSettings {
    PidSettings {
        kp: Double { bits: 0 },
        ki: Double { bits: 0 },
        kd: Double { bits: 0 },
        max_output: hundred(),
        min_output: hundred().negated(),
        setpoint: Double { bits: 0 },
    }
}

/// That the limits leave room: both finite, the lower one below the upper one.
pub open spec fn usable_limits(settings: PidSettings) -> bool {
    settings.min_output.finite() && settings.max_output.finite() && settings.min_output.less(
        settings.max_output,
    )
}

/// That every value is finite and the limits leave room.
pub open spec fn usable_pid(settings: PidSettings) -> bool {
    &&& settings.kp.finite()
    &&& settings.ki.finite()
    &&& settings.kd.finite()
    &&& settings.setpoint.finite()
    &&& usable_limits(settings)
}

/// `value` where it is finite, else zero.
pub open spec fn finite_or_zero(value: Double) -> Double {
    if value.finite() {
        value
    } else {
        Double { bits: 0 }
    }
}

/// Settings with every unusable value put back to its default; the two limits
/// go together.
pub open spec fn repaired_pid(settings: PidSettings) -> PidSettings {
    PidSettings {
        kp: finite_or_zero(settings.kp),
        ki: finite_or_zero(settings.ki),
        kd: finite_or_zero(settings.kd),
        setpoint: finite_or_zero(settings.setpoint),
        min_output: if usable_limits(settings) {
            settings.min_output
        } else {
            hundred().negated()
        },
        max_output: if usable_limits(settings) {
            settings.max_output
        } else {
            hundred()
        },
    }
}

/// That a limit lies past what the firmware acts on, on either side.
pub open spec fn beyond_firmware(settings: PidSettings, axis: int) -> bool {
    let limit = packet::firmware_limit(axis);
    ||| limit.less(settings.max_output)
    ||| settings.max_output.less(limit.negated())
    ||| limit.less(settings.min_output)
    ||| settings.min_output.less(limit.negated())
}

/// A limit pulled inside what the firmware acts on; one that is no number gives
/// way to `otherwise`.
pub open spec fn pulled(output: Double, limit: Double, otherwise: Double) -> Double {
    if output.nan() {
        otherwise
    } else {
        output.clamped(limit.negated(), limit)
    }
}

/// Settings with both limits pulled inside what the firmware acts on. Where that
/// leaves no room between them, as it does where both lie past one ceiling, they
/// are the default ones.
pub open spec fn inside_firmware(settings: PidSettings, axis: int) -> PidSettings {
    let limit = packet::firmware_limit(axis);
    let min = pulled(settings.min_output, limit, limit.negated());
    let max = pulled(settings.max_output, limit, limit);
    if beyond_firmware(settings, axis) && !min.less(max) {
        PidSettings { min_output: hundred().negated(), max_output: hundred(), ..settings }
    } else {
        PidSettings { min_output: min, max_output: max, ..settings }
    }
}

impl Default for PidSettings {
    fn default() -> (result: Self)
        ensures
            result == default_pid(),
    {
        PidSettings {
            kp: Double::zero(),
            ki: Double::zero(),
            kd: Double::zero(),
            max_output: Double::from_bits(0x4059_0000_0000_0000),
            min_output: Double::from_bits(0x4059_0000_0000_0000).neg(),
            setpoint: Double::zero(),
        }
    }
}

fn pull(output: Double, limit: Double, otherwise: Double) -> (result: Double)
    requires
        limit.negated().at_most(limit),
    ensures
        result == pulled(output, limit, otherwise),
{
    if output.is_nan() {
        otherwise
    } else {
        output.clamp(limit.neg(), limit)
    }
}

impl PidSettings {
    /// Pulls the output limits inside what the controller firmware can act on,
    /// and says whether one of them was past it. Limits that both lie past one
    /// ceiling would leave no room inside it, and go back to their defaults.
    ///
    /// `axis` is 0/1/2 for X/Y/Z. A limit above the ceiling does not buy extra
    /// authority, it buys a command that arrives as something else entirely.
    pub fn clamp_to_firmware(&mut self, axis: usize) -> (clamped: bool)
        ensures
            clamped == beyond_firmware(*old(self), axis as int),
            *final(self) == inside_firmware(*old(self), axis as int),
    {
        let slot: usize = if axis < 2 {
            axis
        } else {
            2
        };
        let limit: Double = Double::from_bits(FIRMWARE_MAX_OUTPUT[slot]);
        let clamped: bool = limit.lt(self.max_output) || self.max_output.lt(limit.neg())
            || limit.lt(self.min_output) || self.min_output.lt(limit.neg());
        self.max_output = pull(self.max_output, limit, limit);
        self.min_output = pull(self.min_output, limit, limit.neg());
        if clamped && !self.min_output.lt(self.max_output) {
            let defaults: PidSettings = PidSettings::default();
            self.min_output = defaults.min_output;
            self.max_output = defaults.max_output;
        }
        clamped
    }

    /// How much harder the axis can push the field one way than the other: the
    /// larger limit over the smaller one, signs aside.
    pub fn authority_ratio(&self) -> (result: Double)
        ensures
            result == authority(*self),
    {
        let up: Double = self.max_output.abs();
        let down: Double = self.min_output.abs();
        up.max(down).over(up.min(down))
    }

    /// Puts every value that cannot be used back to its default.
    pub fn sanitize(&mut self)
        ensures
            *final(self) == repaired_pid(*old(self)),
    {
        let defaults: PidSettings = PidSettings::default();
        if !self.kp.is_finite() {
            self.kp = defaults.kp;
        }
        if !self.ki.is_finite() {
            self.ki = defaults.ki;
        }
        if !self.kd.is_finite() {
            self.kd = defaults.kd;
        }
        if !self.setpoint.is_finite() {
            self.setpoint = defaults.setpoint;
        }
        if !self.min_output.is_finite() || !self.max_output.is_finite() || self.max_output.le(
            self.min_output,
        ) {
            self.min_output = defaults.min_output;
            self.max_output = defaults.max_output;
        }
    }
}

/// How much harder limits let an axis push one way than the other.
pub open spec fn authority(settings: PidSettings) -> Double {
    let up = settings.max_output.absolute();
    let down = settings.min_output.absolute();
    arithmetic::quotient(wider(up, down), narrower(up, down))
}

/// The smaller of two numbers; a NaN gives way to the other side.
pub open spec fn narrower(found: Double, other: Double) -> Double {
    if found.nan() || other.less(found) {
        other
    } else {
        found
    }
}

/// Why settings cannot be used as they stand.
pub open spec fn pid_fault(settings: PidSettings) -> Option<Seq<char>> {
    if !(settings.kp.finite() && settings.ki.finite() && settings.kd.finite()
        && settings.min_output.finite() && settings.max_output.finite()
        && settings.setpoint.finite()) {
        Some("all values must be finite"@)
    } else if !settings.min_output.less(settings.max_output) {
        Some("minimum output must be less than maximum output"@)
    } else {
        None
    }
}

/// Says why settings cannot be used as they stand, if they cannot.
pub fn validate_pid_settings(settings: &PidSettings) -> (result: Result<(), String>)
    ensures
        match pid_fault(*settings) {
            None => result is Ok,
            Some(reason) => result is Err && result->Err_0@ == reason,
        },
        result is Ok == usable_pid(*settings),
{
    if !settings.kp.is_finite() || !settings.ki.is_finite() || !settings.kd.is_finite()
        || !settings.min_output.is_finite() || !settings.max_output.is_finite()
        || !settings.setpoint.is_finite() {
        return Err("all values must be finite".to_owned());
    }
    if settings.max_output.le(settings.min_output) {
        return Err("minimum output must be less than maximum output".to_owned());
    }
    Ok(())
}

/// Repaired settings can always be used, repairing them again changes nothing,
/// and settings that can be used are left alone.
pub proof fn law_repaired_settings_are_usable(settings: PidSettings)
    ensures
        usable_pid(repaired_pid(settings)),
        repaired_pid(repaired_pid(settings)) == repaired_pid(settings),
        usable_pid(settings) ==> repaired_pid(settings) == settings,
{
}

/// That both limits lie inside what the firmware acts on, the lower one below the
/// upper one.
pub open spec fn limits_fit(settings: PidSettings, axis: int) -> bool {
    &&& packet::firmware_limit(axis).negated().at_most(settings.min_output)
    &&& settings.min_output.less(settings.max_output)
    &&& settings.max_output.at_most(packet::firmware_limit(axis))
}

/// Whatever limits are configured, afterwards neither lies past what the firmware
/// acts on, on either side. Limits that leave room still do, and those that fit
/// are left alone.
pub proof fn law_no_limit_leaves_the_firmware_range(settings: PidSettings, axis: int)
    requires
        0 <= axis < 3,
    ensures
        ({
            let limit = packet::firmware_limit(axis);
            let inside = inside_firmware(settings, axis);
            &&& limit.negated().at_most(inside.min_output) && inside.min_output.at_most(limit)
            &&& limit.negated().at_most(inside.max_output) && inside.max_output.at_most(limit)
            &&& !beyond_firmware(inside, axis)
            &&& usable_limits(settings) ==> limits_fit(inside, axis)
            &&& usable_pid(settings) ==> usable_pid(inside)
            &&& limits_fit(settings, axis) ==> inside == settings
        }),
{
}

/// Kalman noise terms of one axis.
#[derive(Debug, Clone, Copy, PartialEq, Eq, Structural)]
pub struct FilterSettings {
    pub q: Double,
    pub r: Double,
}

/// That `value` can stand in the Kalman gain: finite and above zero.
pub open spec fn positive(value: Double) -> bool {
    value.finite() && value.rank() > 0
}

pub(crate) fn is_positive(value: Double) -> (result: bool)
    ensures
        result == positive(value),
{
    value.is_finite() && Double::zero().lt(value)
}

pub open spec fn default_filter() -> FilterSettings {
    FilterSettings { q: Double { bits: 0x3ff0_0000_0000_0000 }, r: hundred() }
}

pub open spec fn repaired_filter(settings: FilterSettings) -> FilterSettings {
    FilterSettings {
        q: if positive(settings.q) {
            settings.q
        } else {
            default_filter().q
        },
        r: if positive(settings.r) {
            settings.r
        } else {
            default_filter().r
        },
    }
}

impl Default for FilterSettings {
    fn default() -> (result: Self)
        ensures
            result == default_filter(),
    {
        FilterSettings {
            q: Double::from_bits(0x3ff0_0000_0000_0000),
            r: Double::from_bits(0x4059_0000_0000_0000),
        }
    }
}

impl FilterSettings {
    /// Both terms divide into the Kalman gain, so a zero, negative or non-finite
    /// value would poison every later sample instead of just detuning it.
    pub fn sanitize(&mut self)
        ensures
            *final(self) == repaired_filter(*old(self)),
    {
        let defaults: FilterSettings = FilterSettings::default();
        if !is_positive(self.q) {
            self.q = defaults.q;
        }
        if !is_positive(self.r) {
            self.r = defaults.r;
        }
    }
}

/// Sensor calibration for the magnetometer mounted in the cage.
#[derive(Debug, Clone, Copy, PartialEq)]
pub struct CalibrationSettings {
    /// nT per raw ADC count.
    pub count_to_nt: Double,
    /// Hard-iron offset in nT, subtracted before the soft-iron matrix.
    pub hard_iron: [Double; 3],
    /// Soft-iron correction, row by row.
    pub soft_iron: [[Double; 3]; 3],
}

/// The offsets 1349.5, 4110.95 and -1343.37.
pub open spec fn default_hard_iron() -> Seq<Double> {
    seq![
        Double { bits: 0x4095_1600_0000_0000 },
        Double { bits: 0x40b0_0ef3_3333_3333 },
        Double { bits: 0xc094_fd7a_e147_ae14 },
    ]
}

/// The rows 0.9958, -0.0050, 0.0064; -0.050, 1.0042, -0.0087; and 0.0064,
/// -0.0087, 1.0003.
pub open spec fn default_soft_iron(row: int) -> Seq<Double> {
    if row == 0 {
        seq![
            Double { bits: 0x3fef_dd97_f62b_6ae8 },
            Double { bits: 0xbf74_7ae1_47ae_147b },
            Double { bits: 0x3f7a_36e2_eb1c_432d },
        ]
    } else if row == 1 {
        seq![
            Double { bits: 0xbfa9_9999_9999_999a },
            Double { bits: 0x3ff0_1134_04ea_4a8c },
            Double { bits: 0xbf81_d14e_3bcd_35a8 },
        ]
    } else {
        seq![
            Double { bits: 0x3f7a_36e2_eb1c_432d },
            Double { bits: 0xbf81_d14e_3bcd_35a8 },
            Double { bits: 0x3ff0_013a_92a3_0553 },
        ]
    }
}

pub open spec fn all_finite(values: Seq<Double>) -> bool {
    forall|i: int| 0 <= i < values.len() ==> (#[trigger] values[i]).finite()
}

/// That every term of the matrix is finite.
pub open spec fn finite_matrix(matrix: [[Double; 3]; 3]) -> bool {
    all_finite(matrix[0]@) && all_finite(matrix[1]@) && all_finite(matrix[2]@)
}

/// That `after` is `before` with every part put back that would poison a sample:
/// a scale that is not finite or is zero, an offset or a matrix with a term
/// that is not finite.
pub open spec fn calibration_repaired(
    before: CalibrationSettings,
    after: CalibrationSettings,
) -> bool {
    &&& after.count_to_nt == (if before.count_to_nt.finite() && before.count_to_nt.rank() != 0 {
        before.count_to_nt
    } else {
        Double { bits: DEFAULT_COUNT_TO_NT }
    })
    &&& if all_finite(before.hard_iron@) {
        after.hard_iron == before.hard_iron
    } else {
        after.hard_iron@ == default_hard_iron()
    }
    &&& if finite_matrix(before.soft_iron) {
        after.soft_iron == before.soft_iron
    } else {
        is_default_matrix(after.soft_iron)
    }
}

pub open spec fn is_default_matrix(matrix: [[Double; 3]; 3]) -> bool {
    &&& matrix[0]@ == default_soft_iron(0)
    &&& matrix[1]@ == default_soft_iron(1)
    &&& matrix[2]@ == default_soft_iron(2)
}

pub open spec fn is_default_calibration(settings: CalibrationSettings) -> bool {
    &&& settings.count_to_nt.bits == DEFAULT_COUNT_TO_NT
    &&& settings.hard_iron@ == default_hard_iron()
    &&& is_default_matrix(settings.soft_iron)
}

fn triple_is_finite(values: &[Double; 3]) -> (result: bool)
    ensures
        result == all_finite(values@),
{
    let result: bool = values[0].is_finite() && values[1].is_finite() && values[2].is_finite();
    proof {
        if result {
            assert forall|i: int| 0 <= i < values@.len() implies (#[trigger] values@[i]).finite() by {
                assert(i == 0 || i == 1 || i == 2);
            }
        } else {
            assert(!values@[0].finite() || !values@[1].finite() || !values@[2].finite());
        }
    }
    result
}

impl Default for CalibrationSettings {
    fn default() -> (result: Self)
        ensures
            is_default_calibration(result),
    {
        let hard_iron: [Double; 3] = [
            Double::from_bits(0x4095_1600_0000_0000),
            Double::from_bits(0x40b0_0ef3_3333_3333),
            Double::from_bits(0xc094_fd7a_e147_ae14),
        ];
        let first: [Double; 3] = [
            Double::from_bits(0x3fef_dd97_f62b_6ae8),
            Double::from_bits(0xbf74_7ae1_47ae_147b),
            Double::from_bits(0x3f7a_36e2_eb1c_432d),
        ];
        let second: [Double; 3] = [
            Double::from_bits(0xbfa9_9999_9999_999a),
            Double::from_bits(0x3ff0_1134_04ea_4a8c),
            Double::from_bits(0xbf81_d14e_3bcd_35a8),
        ];
        let third: [Double; 3] = [
            Double::from_bits(0x3f7a_36e2_eb1c_432d),
            Double::from_bits(0xbf81_d14e_3bcd_35a8),
            Double::from_bits(0x3ff0_013a_92a3_0553),
        ];
        assert(hard_iron@ =~= default_hard_iron());
        assert(first@ =~= default_soft_iron(0));
        assert(second@ =~= default_soft_iron(1));
        assert(third@ =~= default_soft_iron(2));
        CalibrationSettings {
            count_to_nt: Double::from_bits(DEFAULT_COUNT_TO_NT),
            hard_iron,
            soft_iron: [first, second, third],
        }
    }
}

/// How far two terms lie apart.
pub open spec fn gap(left: Double, right: Double) -> Double {
    arithmetic::difference(left, right).absolute()
}

/// The larger of what has been found and a gap.
pub open spec fn wider(found: Double, gap: Double) -> Double {
    if found.nan() || found.less(gap) {
        gap
    } else {
        found
    }
}

/// How far a matrix is from being symmetric.
pub open spec fn matrix_asymmetry(m: [[Double; 3]; 3]) -> Double {
    wider(
        wider(wider(Double { bits: 0 }, gap(m[0][1], m[1][0])), gap(m[0][2], m[2][0])),
        gap(m[1][2], m[2][1]),
    )
}

/// Above this a soft-iron matrix is mistyped: an ellipsoid fit is symmetric by
/// construction.
pub const SOFT_IRON_ASYMMETRY_LIMIT: u64 = 0x3f50_624d_d2f1_a9fc;

impl CalibrationSettings {
    /// Largest gap between a soft-iron term and its transpose. A gap in a fitted
    /// matrix leaks one axis into another.
    pub fn asymmetry(&self) -> (result: Double)
        ensures
            result == matrix_asymmetry(self.soft_iron),
    {
        let m: &[[Double; 3]; 3] = &self.soft_iron;
        Double::zero().max(m[0][1].minus(m[1][0]).abs()).max(m[0][2].minus(m[2][0]).abs()).max(
            m[1][2].minus(m[2][1]).abs(),
        )
    }

    /// Whether the soft-iron matrix is worth a warning.
    pub fn is_asymmetric(&self) -> (result: bool)
        ensures
            result == (Double { bits: SOFT_IRON_ASYMMETRY_LIMIT }).less(
                matrix_asymmetry(self.soft_iron),
            ),
    {
        Double::from_bits(SOFT_IRON_ASYMMETRY_LIMIT).lt(self.asymmetry())
    }

    /// Restores any part that would poison every later sample. A non-finite or
    /// zero scale silences the sensor; a non-finite matrix turns the whole
    /// reading into NaN.
    pub fn sanitize(&mut self)
        ensures
            calibration_repaired(*old(self), *final(self)),
    {
        let defaults: CalibrationSettings = CalibrationSettings::default();
        if !self.count_to_nt.is_finite() || self.count_to_nt.same(Double::zero()) {
            self.count_to_nt = defaults.count_to_nt;
        }
        if !triple_is_finite(&self.hard_iron) {
            self.hard_iron = defaults.hard_iron;
        }
        if !triple_is_finite(&self.soft_iron[0]) || !triple_is_finite(&self.soft_iron[1])
            || !triple_is_finite(&self.soft_iron[2]) {
            self.soft_iron = defaults.soft_iron;
        }
    }
}

/// Everything that the settings file holds.
#[derive(Debug, Clone, PartialEq)]
pub struct AppConfig {
    pub pid_x: PidSettings,
    pub pid_y: PidSettings,
    pub pid_z: PidSettings,
    pub filter_x: FilterSettings,
    pub filter_y: FilterSettings,
    pub filter_z: FilterSettings,
    pub calibration: CalibrationSettings,
    pub setpoint_slew_nt_per_second: Double,
    pub setpoint_source_port: i32,
    pub setpoint_profile_path: String,
    pub sensor2_ip: String,
    pub sensor2_port: i32,
    pub sensor_port: String,
    pub sensor_baud: u32,
    pub controller_port: String,
    pub controller_baud: u32,
}

/// Where the Magson answers on the bench.
pub const DEFAULT_SENSOR2_IP: &'static str = "192.168.124.41";

pub fn default_sensor2_ip() -> (result: String)
    ensures
        result@ == DEFAULT_SENSOR2_IP@,
{
    DEFAULT_SENSOR2_IP.to_owned()
}

pub fn default_sensor2_port() -> (result: i32)
    ensures
        result == 1234,
{
    1234
}

pub fn default_baud() -> (result: u32)
    ensures
        result == 9600,
{
    9600
}

/// 5000: how fast a commanded setpoint may move, in nT/s, where nothing else is
/// set. It crosses the cage's full +-0.5 G range in about ten seconds.
pub const DEFAULT_SETPOINT_SLEW: u64 = 0x40b3_8800_0000_0000;

pub fn default_setpoint_slew() -> (result: Double)
    ensures
        result.bits == DEFAULT_SETPOINT_SLEW,
{
    Double::from_bits(DEFAULT_SETPOINT_SLEW)
}

pub open spec fn is_default_config(config: AppConfig) -> bool {
    &&& config.pid_x == default_pid()
    &&& config.pid_y == default_pid()
    &&& config.pid_z == default_pid()
    &&& config.filter_x == default_filter()
    &&& config.filter_y == default_filter()
    &&& config.filter_z == default_filter()
    &&& is_default_calibration(config.calibration)
    &&& config.setpoint_slew_nt_per_second.bits == DEFAULT_SETPOINT_SLEW
    &&& config.setpoint_source_port == 0
    &&& config.setpoint_profile_path@.len() == 0
    &&& config.sensor2_ip@ == DEFAULT_SENSOR2_IP@
    &&& config.sensor2_port == 1234
    &&& config.sensor_port@.len() == 0
    &&& config.sensor_baud == 9600
    &&& config.controller_port@.len() == 0
    &&& config.controller_baud == 9600
}

/// That `after` is `before` with every unusable value put back to its default
/// and every output limit pulled inside the firmware's range.
pub open spec fn config_repaired(before: AppConfig, after: AppConfig) -> bool {
    &&& after.pid_x == inside_firmware(repaired_pid(before.pid_x), 0)
    &&& after.pid_y == inside_firmware(repaired_pid(before.pid_y), 1)
    &&& after.pid_z == inside_firmware(repaired_pid(before.pid_z), 2)
    &&& after.filter_x == repaired_filter(before.filter_x)
    &&& after.filter_y == repaired_filter(before.filter_y)
    &&& after.filter_z == repaired_filter(before.filter_z)
    &&& calibration_repaired(before.calibration, after.calibration)
    &&& after.setpoint_slew_nt_per_second == (if positive(before.setpoint_slew_nt_per_second) {
        before.setpoint_slew_nt_per_second
    } else {
        Double { bits: DEFAULT_SETPOINT_SLEW }
    })
    &&& after.setpoint_source_port == (if 0 <= before.setpoint_source_port <= 65535 {
        before.setpoint_source_port
    } else {
        0
    })
    &&& after.setpoint_profile_path == before.setpoint_profile_path
    &&& after.sensor2_ip@ == (if text::trim(before.sensor2_ip@).len() == 0 {
        DEFAULT_SENSOR2_IP@
    } else {
        before.sensor2_ip@
    })
    &&& after.sensor2_port == (if 1 <= before.sensor2_port <= 65535 {
        before.sensor2_port
    } else {
        1234
    })
    &&& after.sensor_port == before.sensor_port
    &&& after.sensor_baud == (if before.sensor_baud == 0 {
        9600
    } else {
        before.sensor_baud
    })
    &&& after.controller_port == before.controller_port
    &&& after.controller_baud == (if before.controller_baud == 0 {
        9600
    } else {
        before.controller_baud
    })
}

/// Which axes, X, Y and Z, had a limit past what the firmware acts on.
pub open spec fn pulled_in(before: AppConfig) -> Seq<bool> {
    seq![
        beyond_firmware(repaired_pid(before.pid_x), 0),
        beyond_firmware(repaired_pid(before.pid_y), 1),
        beyond_firmware(repaired_pid(before.pid_z), 2),
    ]
}

impl Default for AppConfig {
    fn default() -> (result: Self)
        ensures
            is_default_config(result),
    {
        AppConfig {
            pid_x: PidSettings::default(),
            pid_y: PidSettings::default(),
            pid_z: PidSettings::default(),
            filter_x: FilterSettings::default(),
            filter_y: FilterSettings::default(),
            filter_z: FilterSettings::default(),
            calibration: CalibrationSettings::default(),
            setpoint_slew_nt_per_second: default_setpoint_slew(),
            setpoint_source_port: 0,
            setpoint_profile_path: String::new(),
            sensor2_ip: default_sensor2_ip(),
            sensor2_port: default_sensor2_port(),
            sensor_port: String::new(),
            sensor_baud: default_baud(),
            controller_port: String::new(),
            controller_baud: default_baud(),
        }
    }
}

impl AppConfig {
    /// Repairs anything unusable and returns which axes had their output limits
    /// pulled inside the firmware ceiling, as X/Y/Z flags. The caller surfaces
    /// that: a limit silently different from the one in the file gets tuned
    /// around for a week before anyone notices.
    pub fn sanitize(&mut self) -> (clamped: [bool; 3])
        ensures
            config_repaired(*old(self), *final(self)),
            clamped@ == pulled_in(*old(self)),
    {
        let ghost before = *self;
        self.pid_x.sanitize();
        self.pid_y.sanitize();
        self.pid_z.sanitize();
        let clamped: [bool; 3] = [
            self.pid_x.clamp_to_firmware(0),
            self.pid_y.clamp_to_firmware(1),
            self.pid_z.clamp_to_firmware(2),
        ];
        assert(clamped@ =~= pulled_in(before));
        self.filter_x.sanitize();
        self.filter_y.sanitize();
        self.filter_z.sanitize();
        self.calibration.sanitize();
        if !is_positive(self.setpoint_slew_nt_per_second) {
            self.setpoint_slew_nt_per_second = default_setpoint_slew();
        }
        if !(0 <= self.setpoint_source_port && self.setpoint_source_port <= 65535) {
            self.setpoint_source_port = 0;
        }
        if text::is_blank(self.sensor2_ip.as_str()) {
            self.sensor2_ip = default_sensor2_ip();
        }
        if !(1 <= self.sensor2_port && self.sensor2_port <= 65535) {
            self.sensor2_port = default_sensor2_port();
        }
        if self.sensor_baud == 0 {
            self.sensor_baud = default_baud();
        }
        if self.controller_baud == 0 {
            self.controller_baud = default_baud();
        }
        clamped
    }
}

/// What came of reading the settings file.
pub enum ConfigRead {
    /// The settings in it.
    Parsed(AppConfig),
    /// It is there but does not parse, for the reason given.
    NotJson(String),
    /// There is no such file.
    Missing,
    /// It is there but cannot be read, for the reason given.
    Unreadable(String),
}

/// The names of the flagged axes.
pub open spec fn axis_names(flags: Seq<bool>) -> Seq<Seq<char>> {
    let x = if flags[0] {
        seq!["X"@]
    } else {
        Seq::empty()
    };
    let xy = if flags[1] {
        x.push("Y"@)
    } else {
        x
    };
    if flags[2] {
        xy.push("Z"@)
    } else {
        xy
    }
}

/// The flagged axes as `X/Y/Z`; empty where none is.
pub(crate) fn name_axes(flags: &[bool; 3]) -> (result: String)
    ensures
        result@ == text::joined(axis_names(flags@), "/"@),
{
    let mut names: Vec<String> = Vec::new();
    if flags[0] {
        names.push("X".to_owned());
    }
    assert(text::texts(names@) =~= (if flags[0] {
        seq!["X"@]
    } else {
        Seq::empty()
    }));
    if flags[1] {
        let ghost before = names@;
        names.push("Y".to_owned());
        assert(text::texts(names@) =~= text::texts(before).push("Y"@));
    }
    if flags[2] {
        let ghost before = names@;
        names.push("Z".to_owned());
        assert(text::texts(names@) =~= text::texts(before).push("Z"@));
    }
    assert(text::texts(names@) =~= axis_names(flags@));
    text::join(&names, "/")
}

/// What to tell about limits that were pulled in.
pub open spec fn pulled_in_message(flags: Seq<bool>) -> Seq<char> {
    "output limits on "@ + text::joined(axis_names(flags), "/"@)
        + " exceed what the controller firmware acts on (42000/17700/69000) and were pulled in; past the ceiling the firmware writes the raw value into a 16-bit register instead of clamping"@
}

/// The settings to use after reading `path`, plus a message when a file is there
/// but unusable, or when limits had to be pulled in. A missing file is the
/// normal first run and says nothing.
pub fn load(read: ConfigRead, path: &str) -> (result: (AppConfig, Option<String>))
    ensures
        match read {
            ConfigRead::Parsed(parsed) => {
                &&& config_repaired(parsed, result.0)
                &&& result.1 is Some == pulled_in(parsed).contains(true)
                &&& result.1 matches Some(message) ==> message@ == pulled_in_message(
                    pulled_in(parsed),
                )
            },
            ConfigRead::NotJson(reason) => {
                &&& is_default_config(result.0)
                &&& result.1 is Some
                &&& result.1->Some_0@ == path@ + " is not valid JSON ("@ + reason@
                    + "); using defaults"@
            },
            ConfigRead::Missing => is_default_config(result.0) && result.1 is None,
            ConfigRead::Unreadable(reason) => {
                &&& is_default_config(result.0)
                &&& result.1 is Some
                &&& result.1->Some_0@ == "cannot read "@ + path@ + " ("@ + reason@
                    + "); using defaults"@
            },
        },
{
    let (mut config, problem) = match read {
        ConfigRead::Parsed(config) => (config, None),
        ConfigRead::NotJson(reason) => {
            let mut message: String = path.to_owned();
            message.append(" is not valid JSON (");
            message.append(reason.as_str());
            message.append("); using defaults");
            (AppConfig::default(), Some(message))
        },
        ConfigRead::Missing => (AppConfig::default(), None),
        ConfigRead::Unreadable(reason) => {
            let mut message: String = "cannot read ".to_owned();
            message.append(path);
            message.append(" (");
            message.append(reason.as_str());
            message.append("); using defaults");
            (AppConfig::default(), Some(message))
        },
    };
    let ghost before = config;
    let clamped: [bool; 3] = config.sanitize();
    let report: Option<String> = match problem {
        Some(message) => Some(message),
        None => if clamped[0] || clamped[1] || clamped[2] {
            let mut message: String = "output limits on ".to_owned();
            message.append(name_axes(&clamped).as_str());
            message.append(
                " exceed what the controller firmware acts on (42000/17700/69000) and were pulled in; past the ceiling the firmware writes the raw value into a 16-bit register instead of clamping",
            );
            Some(message)
        } else {
            None
        },
    };
    proof {
        let flags = pulled_in(before);
        assert(flags.contains(true) <==> flags[0] || flags[1] || flags[2]) by {
            assert(flags.len() == 3);
        }
    }
    (config, report)
}

/// Whatever stands in the settings file, what comes out of a load can be used:
/// every gain and setpoint is finite, every noise term is above zero, every rate
/// and port is in range, and the output limits of each axis leave room inside
/// what the firmware acts on. An axis is reported exactly where limits that could
/// be used had to be pulled in.
pub proof fn law_repaired_configs_are_usable(before: AppConfig, after: AppConfig)
    requires
        config_repaired(before, after),
    ensures
        positive(after.filter_x.q) && positive(after.filter_x.r),
        positive(after.filter_y.q) && positive(after.filter_y.r),
        positive(after.filter_z.q) && positive(after.filter_z.r),
        positive(after.setpoint_slew_nt_per_second),
        after.calibration.count_to_nt.finite(),
        after.calibration.count_to_nt.rank() != 0,
        all_finite(after.calibration.hard_iron@),
        finite_matrix(after.calibration.soft_iron),
        0 <= after.setpoint_source_port <= 65535,
        1 <= after.sensor2_port <= 65535,
        after.sensor_baud > 0,
        after.controller_baud > 0,
        usable_pid(after.pid_x),
        usable_pid(after.pid_y),
        usable_pid(after.pid_z),
        limits_fit(after.pid_x, 0),
        limits_fit(after.pid_y, 1),
        limits_fit(after.pid_z, 2),
        pulled_in(before) == seq![
            usable_limits(before.pid_x) && !limits_fit(before.pid_x, 0),
            usable_limits(before.pid_y) && !limits_fit(before.pid_y, 1),
            usable_limits(before.pid_z) && !limits_fit(before.pid_z, 2),
        ],
{
    law_repaired_settings_are_usable(before.pid_x);
    law_repaired_settings_are_usable(before.pid_y);
    law_repaired_settings_are_usable(before.pid_z);
    law_no_limit_leaves_the_firmware_range(repaired_pid(before.pid_x), 0);
    law_no_limit_leaves_the_firmware_range(repaired_pid(before.pid_y), 1);
    law_no_limit_leaves_the_firmware_range(repaired_pid(before.pid_z), 2);
}

/// Limits that reach as far both ways are balanced, and no limits are more so: the
/// ratio is one there and never less. Which side reaches further does not matter.
pub proof fn law_balanced_limits_have_a_ratio_of_one(settings: PidSettings, other: PidSettings)
    requires
        settings.min_output.finite(),
        settings.max_output.finite(),
        settings.min_output.magnitude() > 0,
        settings.max_output.magnitude() > 0,
        other == (PidSettings {
            min_output: settings.max_output.negated(),
            max_output: settings.min_output.negated(),
            ..settings
        }),
    ensures
        (Double { bits: 0x3ff0_0000_0000_0000 }).at_most(authority(settings)),
        settings.min_output.magnitude() == settings.max_output.magnitude() ==> authority(settings)
            == (Double { bits: 0x3ff0_0000_0000_0000 }),
        authority(other) == authority(settings),
{
    let up = settings.max_output.absolute();
    let down = settings.min_output.absolute();
    let large = wider(up, down);
    let small = narrower(up, down);
    arithmetic::law_a_number_over_itself(small);
    arithmetic::law_quotients_are_numbers(small, small);
    arithmetic::law_quotients_are_numbers(large, small);
    order::law_quotients_keep_order(small, large, small);
}

/// A matrix is as asymmetric as its transpose, and as its worst pair of terms: no pair
/// lies further apart, and one of a symmetric matrix lies no way apart at all.
pub proof fn law_asymmetry_is_the_widest_gap(m: [[Double; 3]; 3], row: int, column: int)
    requires
        0 <= row < 3,
        0 <= column < 3,
        row != column,
        forall|i: int, j: int|
            0 <= i < 3 && 0 <= j < 3 ==> (#[trigger] m[i][j]).finite(),
    ensures
        gap(m[row][column], m[column][row]).at_most(matrix_asymmetry(m)),
        (forall|i: int, j: int|
            0 <= i < 3 && 0 <= j < 3 ==> (#[trigger] m[i][j]) == m[j][i])
            ==> matrix_asymmetry(m).magnitude() == 0,
{
    assert(m[0][1].finite() && m[1][0].finite() && m[0][2].finite() && m[2][0].finite()
        && m[1][2].finite() && m[2][1].finite());
    lemma_gap(m[0][1], m[1][0]);
    lemma_gap(m[0][2], m[2][0]);
    lemma_gap(m[1][2], m[2][1]);
    if forall|i: int, j: int| 0 <= i < 3 && 0 <= j < 3 ==> (#[trigger] m[i][j]) == m[j][i] {
        assert(m[0][1] == m[1][0] && m[0][2] == m[2][0] && m[1][2] == m[2][1]);
    }
}

proof fn lemma_gap(left: Double, right: Double)
    requires
        left.finite(),
        right.finite(),
    ensures
        !gap(left, right).nan(),
        !gap(left, right).negative(),
        gap(left, right).equals(gap(right, left)),
        left == right ==> gap(left, right).magnitude() == 0,
{
    order::law_negatives_are_opposite(left);
    order::law_negatives_are_opposite(right);
    order::law_opposite_sums(left, right.negated(), left.negated(), right);
    arithmetic::law_terms_may_change_places(left.negated(), right);
    arithmetic::law_sums_are_numbers(left, right.negated());
    if left == right {
        arithmetic::law_a_number_less_itself_is_zero(left);
    }
}

} // verus!

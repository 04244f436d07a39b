use igrf::calculation::{
    CalculationError, CalculationService, DEFAULT_SPIKE_THRESHOLD_NT, REJECTS_BEFORE_FAULT,
};
use igrf::config::{
    self, AppConfig, CalibrationSettings, ConfigRead, FilterSettings, PidSettings,
    DEFAULT_COUNT_TO_NT,
};
use igrf::double::Double;
use igrf::kalman::KalmanFilter;
use igrf::packet::{build_controller_packet, calculate_mod_rtu_crc, clamp_to_firmware};
use igrf::pid::{PidController, NOMINAL_TICK_SECONDS};
use igrf::sensor::{RawSensorData, SensorService};

fn d(value: f64) -> Double {
    Double::from_bits(value.to_bits())
}

fn f(value: Double) -> f64 {
    f64::from_bits(value.to_bits())
}

fn d3(values: [f64; 3]) -> [Double; 3] {
    values.map(d)
}

fn close(actual: f64, expected: f64) {
    assert!((actual - expected).abs() < 1e-12, "{actual} != {expected}");
}

fn raw(mag_x: f64, mag_y: f64, mag_z: f64) -> RawSensorData {
    RawSensorData { mag_x: d(mag_x), mag_y: d(mag_y), mag_z: d(mag_z) }
}

#[test]
fn set_noise_rejects_non_finite_and_non_positive_terms() {
    let mut service = CalculationService::default();
    for (q, r) in [
        (0.0, 100.0),
        (-1.0, 100.0),
        (1.0, 0.0),
        (1.0, -5.0),
        (f64::NAN, 100.0),
        (1.0, f64::INFINITY),
    ] {
        assert!(service.set_noise(0, d(q), d(r)).is_err(), "accepted {q}/{r}");
    }
    assert!(service.set_noise(2, d(0.5), d(25.0)).is_ok());
    assert_eq!(f(service.filter_z.q), 0.5);
    assert_eq!(f(service.filter_z.r), 25.0);
}

#[test]
fn first_sample_is_filtered_and_errors_are_absolute() {
    let mut service = CalculationService::default();
    let data = service.process_sensor_data(
        &raw(100.0, -50.0, 0.0),
        d3([10.0, -10.0, 0.0]),
        d3([0.0; 3]),
        d(1.0),
    );

    close(f(data.mag_x), 1.9607843137254901);
    close(f(data.mag_y), -0.9803921568627451);
    close(f(data.error_x), 8.03921568627451);
    close(f(data.error_y), 9.019607843137255);
    close(f(data.error_per_x), 80.3921568627451);
    close(f(data.error_per_y), 90.19607843137256);
    assert_eq!(f(data.error_per_z), 0.0);
}

#[test]
fn spike_is_rejected_then_reset_after_ten_consecutive_samples() {
    let mut service = CalculationService::default();
    service.spike_threshold_x = d(10.0);
    service.spike_threshold_y = d(f64::MAX);
    service.spike_threshold_z = d(f64::MAX);
    let base = raw(0.0, 0.0, 0.0);
    service.process_sensor_data(&base, d3([0.0; 3]), d3([0.0; 3]), d(1.0));

    let spike = raw(1000.0, 0.0, 0.0);
    for _ in 0..9 {
        let data = service.process_sensor_data(&spike, d3([0.0; 3]), d3([0.0; 3]), d(1.0));
        assert_eq!(f(data.mag_x), 0.0);
    }
    let data = service.process_sensor_data(&spike, d3([0.0; 3]), d3([0.0; 3]), d(1.0));
    assert!(f(data.mag_x) > 0.0);
    assert_eq!(f(service.filter_states()[0]), 1000.0);
}

#[test]
fn the_default_spike_threshold_cannot_fire() {
    let threshold = f64::from_bits(DEFAULT_SPIKE_THRESHOLD_NT);
    let full_scale_nt = 30_000.0 * f64::from_bits(DEFAULT_COUNT_TO_NT);
    assert!(threshold >= 2.0 * full_scale_nt, "{threshold} can be reached");
}

#[test]
fn a_run_of_rejected_samples_is_reported() {
    let mut service = CalculationService::default();
    service.spike_threshold_x = d(100.0);
    service.spike_threshold_y = d(f64::MAX);
    service.spike_threshold_z = d(f64::MAX);
    let base = raw(0.0, 0.0, 0.0);
    service.process_sensor_data(&base, d3([0.0; 3]), d3([0.0; 3]), d(1.0));
    assert_eq!(service.consecutive_rejects(), 0);

    let spike = raw(5_000.0, 0.0, 0.0);
    for expected in 1..=REJECTS_BEFORE_FAULT {
        let held = service.process_sensor_data(&spike, d3([0.0; 3]), d3([0.0; 3]), d(1.0));
        assert_eq!(service.consecutive_rejects(), expected);
        close(f(held.mag_x), 0.0);
    }

    service.process_sensor_data(&base, d3([0.0; 3]), d3([0.0; 3]), d(1.0));
    assert_eq!(service.consecutive_rejects(), 0);
}

#[test]
fn a_commanded_ramp_is_not_mistaken_for_a_spike() {
    let mut service = CalculationService::default();
    service.spike_threshold_x = d(100.0);
    service.spike_threshold_y = d(f64::MAX);
    service.spike_threshold_z = d(f64::MAX);
    service.process_sensor_data(&raw(0.0, 0.0, 0.0), d3([0.0; 3]), d3([0.0; 3]), d(1.0));

    let data = service.process_sensor_data(
        &raw(500.0, 0.0, 0.0),
        d3([500.0, 0.0, 0.0]),
        d3([500.0, 0.0, 0.0]),
        d(1.0),
    );
    close(f(data.mag_x), 500.0);

    let held = service.process_sensor_data(
        &raw(1000.0, 0.0, 0.0),
        d3([500.0, 0.0, 0.0]),
        d3([0.0; 3]),
        d(1.0),
    );
    close(f(held.mag_x), 500.0);
}

#[test]
fn set_spike_threshold_rejects_values_that_would_disable_or_invert_it() {
    let mut service = CalculationService::default();
    for bad in [0.0, -1.0, f64::NAN, f64::INFINITY] {
        assert!(service.set_spike_threshold(1, d(bad)).is_err(), "took {bad}");
    }
    assert!(service.set_spike_threshold(1, d(2500.0)).is_ok());
    assert_eq!(f(service.spike_threshold_y), 2500.0);
}

#[test]
fn reset_clears_spike_state_and_noise_setters_validate() {
    let mut service = CalculationService::default();
    assert!(service.set_measurement_noise_x(d(0.0)).is_err());
    assert!(service.set_measurement_noise_y(d(5.0)).is_ok());
    service.reset_filters();
    assert_eq!(service.filter_states().map(f), [0.0, 0.0, 0.0]);
}

#[test]
fn calculation_errors_say_what_was_wrong() {
    let mut service = CalculationService::default();
    assert!(matches!(
        service.set_noise(0, d(-1.0), d(1.0)),
        Err(CalculationError::InvalidMeasurementNoise)
    ));
    assert!(matches!(
        service.set_spike_threshold(0, d(0.0)),
        Err(CalculationError::InvalidSpikeThreshold)
    ));
}

#[test]
fn loading_a_config_pulls_output_limits_inside_the_firmware_ceiling() {
    let mut config = AppConfig::default();
    config.pid_z.max_output = d(100_000.0);
    config.pid_z.min_output = d(-100_000.0);

    let clamped = config.sanitize();

    assert_eq!(f(config.pid_z.max_output), 69_000.0);
    assert_eq!(f(config.pid_z.min_output), -69_000.0);
    assert_eq!(clamped, [false, false, true]);
}

#[test]
fn limits_past_one_ceiling_fall_back() {
    let mut config = AppConfig::default();
    config.pid_x.min_output = d(50_000.0);
    config.pid_x.max_output = d(60_000.0);
    config.pid_y.min_output = d(-30_000.0);
    config.pid_y.max_output = d(-17_700.0);
    config.pid_z.min_output = d(-90_000.0);
    config.pid_z.max_output = d(-5.0);
    assert_eq!(config.sanitize(), [true, true, true]);
    assert_eq!([f(config.pid_x.min_output), f(config.pid_x.max_output)], [-100.0, 100.0]);
    assert_eq!([f(config.pid_y.min_output), f(config.pid_y.max_output)], [-100.0, 100.0]);
    assert_eq!([f(config.pid_z.min_output), f(config.pid_z.max_output)], [-69_000.0, -5.0]);
    let again = config.clone();
    assert_eq!(config.sanitize(), [false; 3]);
    assert_eq!(config, again);

    // Limits that could not be used are repaired, and that is not a pull.
    config.pid_x.min_output = d(f64::INFINITY);
    config.pid_y.min_output = d(90_000.0);
    config.pid_y.max_output = d(1.0);
    assert_eq!(config.sanitize(), [false; 3]);
    assert_eq!(f(config.pid_y.max_output), 100.0);
}

#[test]
fn a_limit_already_inside_the_ceiling_is_left_alone() {
    let mut settings = PidSettings::default();
    settings.max_output = d(10_000.0);
    settings.min_output = d(-10_000.0);

    assert!(!settings.clamp_to_firmware(1));
    assert_eq!(f(settings.max_output), 10_000.0);
    assert_eq!(f(settings.min_output), -10_000.0);
}

#[test]
fn defaults_keep_csharp_limits_and_the_bench_magson_endpoint() {
    let config = AppConfig::default();
    assert_eq!(f(config.pid_x.max_output), 100.0);
    assert_eq!(f(config.pid_x.min_output), -100.0);
    assert_eq!(config.sensor2_ip, "192.168.124.41");
    assert_eq!(config.sensor2_port, 1234);
}

#[test]
fn missing_file_is_silent_but_invalid_json_is_reported() {
    assert_eq!(config::load(ConfigRead::Missing, "SystemConfig.json"), (AppConfig::default(), None));

    let read = match serde_json::from_str::<serde_json::Value>("{not-json") {
        Ok(_) => ConfigRead::Missing,
        Err(error) => ConfigRead::NotJson(error.to_string()),
    };
    let (config, problem) = config::load(read, "SystemConfig.json");
    assert_eq!(config, AppConfig::default());
    assert!(problem
        .expect("corrupt config must be reported")
        .contains("not valid JSON"));
}

#[test]
fn filter_settings_reject_values_that_would_poison_the_kalman_gain() {
    for bad in [0.0, -1.0, f64::NAN, f64::INFINITY] {
        let mut settings = FilterSettings { q: d(bad), r: d(bad) };
        settings.sanitize();
        assert_eq!(settings, FilterSettings::default(), "rejected {bad}");
    }
    let mut kept = FilterSettings { q: d(0.5), r: d(25.0) };
    kept.sanitize();
    assert_eq!(kept, FilterSettings { q: d(0.5), r: d(25.0) });
}

#[test]
fn sanitize_restores_unsafe_loaded_values() {
    let mut config = AppConfig::default();
    config.pid_x.kp = d(f64::NAN);
    config.pid_x.min_output = d(5.0);
    config.pid_x.max_output = d(1.0);
    config.sensor2_port = 0;
    config.sensor_baud = 0;
    config.sanitize();

    assert_eq!(f(config.pid_x.kp), 0.0);
    assert_eq!(f(config.pid_x.min_output), -100.0);
    assert_eq!(f(config.pid_x.max_output), 100.0);
    assert_eq!(config.sensor2_port, 1234);
    assert_eq!(config.sensor_baud, 9600);
}

#[test]
fn the_shipped_soft_iron_matrix_is_flagged() {
    let settings = CalibrationSettings::default();
    close(f(settings.asymmetry()), 0.045);
    assert!(settings.is_asymmetric());

    let mut symmetric = CalibrationSettings::default();
    symmetric.soft_iron[1][0] = symmetric.soft_iron[0][1];
    assert_eq!(f(symmetric.asymmetry()), 0.0);
    assert!(!symmetric.is_asymmetric());
}

#[test]
fn pid_settings_name_their_fault() {
    let mut settings = PidSettings::default();
    assert_eq!(config::validate_pid_settings(&settings), Ok(()));
    settings.min_output = settings.max_output;
    assert_eq!(
        config::validate_pid_settings(&settings),
        Err("minimum output must be less than maximum output".to_owned())
    );
    settings.kp = d(f64::INFINITY);
    assert_eq!(
        config::validate_pid_settings(&settings),
        Err("all values must be finite".to_owned())
    );
}

#[test]
fn filter_matches_predict_update_equations() {
    let mut filter = KalmanFilter::new(d(0.0), d(1.0), d(1.0), d(100.0));

    close(f(filter.filter(d(100.0), d(0.0))), 1.9607843137254901);
    close(f(filter.state()), 1.9607843137254901);
    close(f(filter.covariance()), 1.9607843137254903);
}

#[test]
fn measurement_noise_matches_csharp_validation_boundary() {
    let mut filter = KalmanFilter::new(d(0.0), d(1.0), d(1.0), d(100.0));
    assert!(filter.set_measurement_noise(d(0.0)).is_err());
    assert!(filter.set_measurement_noise(d(-1.0)).is_err());
    assert!(filter.set_measurement_noise(d(f64::INFINITY)).is_ok());
    assert!(filter.set_measurement_noise(d(f64::NAN)).is_ok());
    assert!(f(filter.r).is_nan());
    assert!(filter.set_measurement_noise(d(5.0)).is_ok());
    assert_eq!(f(filter.r), 5.0);
}

#[test]
fn a_known_step_is_tracked_without_the_gain_having_to_find_it() {
    let mut blind = KalmanFilter::new(d(0.0), d(1.0), d(1.0), d(500.0));
    let mut informed = blind;

    blind.filter(d(500.0), d(0.0));
    informed.filter(d(500.0), d(500.0));

    assert!(f(blind.state()) < 100.0, "the blind filter has to crawl there");
    close(f(informed.state()), 500.0);
}

#[test]
fn process_noise_scales_with_the_interval() {
    let mut once = KalmanFilter::new(d(0.0), d(1.0), d(1.0), d(100.0));
    let mut twice = once;

    once.filter_ticks(d(0.0), d(0.0), d(2.0));
    twice.filter(d(0.0), d(0.0));
    twice.filter(d(0.0), d(0.0));

    assert!(f(once.covariance()) > f(twice.covariance()));
}

#[test]
fn a_zero_or_negative_tick_leaves_the_gain_usable() {
    let mut filter = KalmanFilter::new(d(0.0), d(1.0), d(1.0), d(100.0));
    for ticks in [0.0, -5.0, f64::INFINITY] {
        let value = f(filter.filter_ticks(d(10.0), d(0.0), d(ticks)));
        assert!(value.is_finite(), "ticks {ticks} produced {value}");
    }
}

#[test]
fn reset_replaces_state_but_not_configuration() {
    let mut filter = KalmanFilter::new(d(0.0), d(1.0), d(2.0), d(3.0));
    filter.a = d(0.5);
    filter.reset(d(10.0), d(4.0));

    assert_eq!(f(filter.state()), 10.0);
    assert_eq!(f(filter.covariance()), 4.0);
    assert_eq!(f(filter.a), 0.5);
    assert_eq!(f(filter.q), 2.0);
    assert_eq!(f(filter.r), 3.0);
}

/// Data with its checksum behind it, low byte first, leaves nothing over.
#[test]
fn a_checksum_leaves_no_remainder() {
    for data in [&b""[..], b"123456789", &[0xA0, 0, 0xFF, 7], &[0; 40]] {
        let [high, low] = calculate_mod_rtu_crc(data);
        let mut all = data.to_vec();
        all.extend_from_slice(&[low, high]);
        assert_eq!(calculate_mod_rtu_crc(&all), [0, 0]);
        all[0] ^= 1;
        assert_ne!(calculate_mod_rtu_crc(&all), [0, 0]);
    }
}

#[test]
fn crc_is_high_byte_first() {
    assert_eq!(
        calculate_mod_rtu_crc(&[0x01, 0x03, 0x00, 0x00, 0x00, 0x0A]),
        [0xCD, 0xC5]
    );
}

#[test]
fn outputs_beyond_what_the_firmware_handles_are_clamped_not_wrapped() {
    let packet = build_controller_packet(d(100_000.0), d(-100_000.0), d(100_000.0));

    assert_eq!(&packet[1..5], &42_000.0_f32.to_le_bytes());
    assert_eq!(&packet[5..9], &(-17_700.0_f32).to_le_bytes());
    assert_eq!(&packet[9..13], &69_000.0_f32.to_le_bytes());
}

#[test]
fn values_inside_the_firmware_range_pass_through_untouched() {
    let packet = build_controller_packet(d(-7900.0), d(12_000.0), d(21_500.0));

    assert_eq!(&packet[1..5], &(-7900.0_f32).to_le_bytes());
    assert_eq!(&packet[5..9], &12_000.0_f32.to_le_bytes());
    assert_eq!(&packet[9..13], &21_500.0_f32.to_le_bytes());
}

#[test]
fn controller_packet_is_15_bytes_with_little_endian_f32_payload() {
    let packet = build_controller_packet(d(1.0), d(-2.5), d(3.25));
    assert_eq!(packet[0], 0xA0);
    assert_eq!(&packet[1..5], &1.0_f32.to_le_bytes());
    assert_eq!(&packet[5..9], &(-2.5_f32).to_le_bytes());
    assert_eq!(&packet[9..13], &3.25_f32.to_le_bytes());
    assert_eq!(&packet[13..], &calculate_mod_rtu_crc(&packet[..13]));
}

#[test]
fn the_firmware_ceiling_is_the_same_both_ways() {
    for (axis, ceiling) in [42_000.0, 17_700.0, 69_000.0].into_iter().enumerate() {
        assert_eq!(f(clamp_to_firmware(axis, d(1e9))), ceiling);
        assert_eq!(f(clamp_to_firmware(axis, d(-1e9))), -ceiling);
        assert_eq!(f(clamp_to_firmware(axis, d(ceiling / 3.0))), ceiling / 3.0);
    }
}

#[test]
fn defaults_match_csharp_controller() {
    let mut pid = PidController::default();
    assert_eq!(f(pid.kp), 0.0);
    assert_eq!(f(pid.ki), 0.0);
    assert_eq!(f(pid.kd), 0.0);
    assert_eq!(f(pid.max_output), 100.0);
    assert_eq!(f(pid.min_output), -100.0);
    assert_eq!(f(pid.calculate(d(0.0), d(0.0))), 0.0);
}

#[test]
fn calculate_uses_p_i_and_d_terms() {
    let mut pid = PidController::default();
    pid.kp = d(2.0);
    pid.ki = d(0.5);
    pid.kd = d(1.0);
    assert_eq!(f(pid.calculate(d(4.0), d(1.0))), 10.5);
    assert_eq!(f(pid.calculate(d(4.0), d(2.0))), 5.5);
}

#[test]
fn integral_is_clamped_before_final_output() {
    let mut pid = PidController::default();
    pid.ki = d(1.0);
    pid.max_output = d(10.0);
    pid.min_output = d(-10.0);
    assert_eq!(f(pid.calculate(d(20.0), d(0.0))), 10.0);
    assert_eq!(f(pid.calculate(d(-5.0), d(0.0))), 5.0);
}

#[test]
fn final_output_is_clamped() {
    let mut pid = PidController::default();
    pid.kp = d(2.0);
    pid.max_output = d(10.0);
    pid.min_output = d(-10.0);
    assert_eq!(f(pid.calculate(d(100.0), d(0.0))), 10.0);
    assert_eq!(f(pid.calculate(d(-100.0), d(0.0))), -10.0);
}

#[test]
fn a_late_tick_integrates_proportionally_more_than_an_on_time_one() {
    let tick = Double::from_bits(NOMINAL_TICK_SECONDS);
    let mut nominal = PidController::default();
    nominal.ki = d(1.0);
    let mut late = nominal;

    nominal.calculate_dt(d(10.0), d(0.0), tick);
    nominal.calculate_dt(d(10.0), d(0.0), tick);
    late.calculate_dt(d(10.0), d(0.0), d(f(tick) * 2.0));

    assert_eq!(f(nominal.integral()), f(late.integral()));
}

#[test]
fn the_untimed_call_still_matches_the_original_per_tick_loop() {
    let tick = Double::from_bits(NOMINAL_TICK_SECONDS);
    let mut untimed = PidController::default();
    untimed.kp = d(2.0);
    untimed.ki = d(0.5);
    untimed.kd = d(1.0);
    let mut timed = untimed;

    assert_eq!(
        f(untimed.calculate(d(4.0), d(1.0))),
        f(timed.calculate_dt(d(4.0), d(1.0), tick))
    );
    assert_eq!(
        f(untimed.calculate(d(4.0), d(2.0))),
        f(timed.calculate_dt(d(4.0), d(2.0), tick))
    );
}

#[test]
fn a_zero_or_negative_dt_cannot_divide_the_derivative_by_zero() {
    let mut pid = PidController::default();
    pid.kd = d(1.0);
    pid.ki = d(1.0);
    assert!(f(pid.calculate_dt(d(10.0), d(0.0), d(0.0))).is_finite());
    assert!(f(pid.calculate_dt(d(10.0), d(0.0), d(-5.0))).is_finite());
}

#[test]
fn hold_keeps_the_standing_output_but_drops_the_derivative_kick() {
    let mut pid = PidController::default();
    pid.ki = d(1.0);
    pid.kd = d(1.0);
    pid.calculate(d(10.0), d(0.0));
    let integral = pid.integral();

    pid.hold();

    assert_eq!(f(pid.integral()), f(integral), "the standing current must survive");
    assert_eq!(f(pid.calculate(d(0.0), d(0.0))), f(integral));
}

#[test]
fn reset_clears_integral_and_previous_error() {
    let mut pid = PidController::default();
    pid.ki = d(1.0);
    pid.kd = d(1.0);
    pid.calculate(d(10.0), d(0.0));
    pid.reset();
    assert_eq!(f(pid.calculate(d(0.0), d(0.0))), 0.0);
}

fn near(actual: f64, expected: f64) {
    assert!((actual - expected).abs() < 1e-9, "{actual} != {expected}");
}

#[test]
fn processes_signed_big_endian_axes_and_calibration() {
    let mut sensor = SensorService::default();
    sensor.reference_x = d(1.0);
    sensor.reference_y = d(-2.0);
    sensor.reference_z = d(3.0);
    let result = sensor.process_data(&[0x12, 0x34, 0xFF, 0xFE, 0x80, 0x00, 0x0D]);

    near(f(sensor.last_raw_x()), 31066.666666666668);
    near(f(sensor.last_raw_y()), -13.333333333333334);
    near(f(sensor.last_raw_z()), -218453.33333333334);
    near(f(result.mag_x), 28222.447218);
    near(f(result.mag_y), -3736.522475666666);
    near(f(result.mag_z), -216952.04989066668);
}

#[test]
fn short_packet_returns_zero_without_changing_last_raw_values() {
    let mut sensor = SensorService::default();
    sensor.process_data(&[0x12, 0x34, 0x56, 0x78, 0x00, 0x01, 0x0D]);
    assert_eq!(sensor.process_data(&[0; 6]), RawSensorData::default());
    assert_eq!(f(sensor.last_raw_x()), 31066.666666666668);
}

#[test]
fn set_zero_accumulates_references() {
    let mut sensor = SensorService::default();
    sensor.set_zero(d(1.5), d(-2.0), d(3.0));
    sensor.set_zero(d(0.5), d(1.0), d(-1.0));

    assert_eq!(f(sensor.reference_x), 2.0);
    assert_eq!(f(sensor.reference_y), -1.0);
    assert_eq!(f(sensor.reference_z), 2.0);
}

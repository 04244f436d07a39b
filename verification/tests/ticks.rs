use igrf::calculation::{usable_threshold, CalculationService, DEFAULT_SPIKE_THRESHOLD_NT};
use igrf::config::PidSettings;
use igrf::control::{lopsided_axis, LoopAction, LoopControl, LoopFault};
use igrf::double::Double;
use igrf::geomagnetism::UtcDateTime;
use igrf::intake::{seconds, Intake};
use igrf::links::SensorClock;
use igrf::pid::{PidController, NOMINAL_TICK_SECONDS};
use igrf::sensor::SensorService;
use igrf::setpoint::{SetpointProfile, SlewLimiter};
use igrf::propagation::TemePosition;
use igrf::satellite::{SatellitePosition, SatellitePreset};
use igrf::tracking::{Edge, Sighting, Station};

fn d(value: f64) -> Double {
    Double::from_bits(value.to_bits())
}

fn f(value: Double) -> f64 {
    f64::from_bits(value.to_bits())
}

fn d3(values: [f64; 3]) -> [Double; 3] {
    values.map(d)
}

const FRESH: Option<u128> = Some(10_000_000);

fn intake() -> Intake {
    Intake {
        service: SensorService::default(),
        calculation: CalculationService::default(),
        clock: SensorClock::default(),
        last_setpoint: None,
    }
}

const PACKET: [u8; 7] = [0x12, 0x34, 0xFF, 0xFE, 0x80, 0x00, 0x0D];

#[test]
fn a_packet_is_calibrated_aged_and_filtered() {
    let mut whole = intake();
    let setpoint = d3([100.0, 0.0, -50.0]);
    let reading = whole.packet(&PACKET, 5_000_000_000, 7, setpoint, true, [true; 3]);

    let mut service = SensorService::default();
    let calibrated = service.process_data(&PACKET);
    assert_eq!(reading.calibrated, calibrated);
    assert_eq!(f(reading.raw[0]), f(service.last_raw_x()));
    assert!(f(reading.raw[0]) > 31066.0);
    assert_eq!(whole.clock.last_packet, Some(5_000_000_000));
    assert_eq!(whole.last_setpoint, Some(setpoint));

    // Nothing moved before the first packet, and it counts as one tick.
    let mut calculation = CalculationService::default();
    let processed =
        calculation.process_sensor_data(&calibrated, setpoint, d3([0.0; 3]), d(1.0));
    assert_eq!(reading.processed, processed);

    // The second comes a quarter of a second later, with a new setpoint on two
    // axes of which one is stopped.
    let moved = d3([160.0, 40.0, -50.0]);
    let reading =
        whole.packet(&PACKET, 5_250_000_000, 8, moved, true, [true, false, true]);
    let processed =
        calculation.process_sensor_data(&calibrated, moved, d3([60.0, 0.0, 0.0]), d(2.5));
    assert_eq!(reading.processed, processed);

    whole.forget();
    assert_eq!(whole.clock, SensorClock::default());
    assert_eq!(whole.last_setpoint, None);
    assert_eq!(whole.calculation, calculation);
}

#[test]
fn nanoseconds_are_counted_in_seconds() {
    for (nanoseconds, expected) in [
        (0, 0.0),
        (100_000_000, 0.1),
        (1_500_000_000, 1.5),
        (86_400_000_000_001, 86_400.000000001),
    ] {
        assert_eq!(f(seconds(nanoseconds)), expected);
        let duration = std::time::Duration::from_nanos(nanoseconds as u64);
        assert_eq!(f(seconds(nanoseconds)), duration.as_secs_f64());
    }
}

fn driven_settings() -> [PidSettings; 3] {
    [PidSettings {
        kp: d(1.5),
        ki: d(0.25),
        kd: d(0.5),
        max_output: d(1000.0),
        min_output: d(-1000.0),
        setpoint: d(100.0),
    }; 3]
}

#[test]
fn a_tick_drives_pauses_and_resumes() {
    let mut settings = driven_settings();
    let mut pids = [PidController::default(); 3];
    let mut control = LoopControl { pid_running: [true, false, true], ..LoopControl::default() };
    let measured = d3([90.0, 90.0, 110.0]);
    let dt = d(0.1);

    let (action, outputs) =
        control.drive_axes(&mut settings, &mut pids, measured, dt, true, FRESH, FRESH);
    assert_eq!(action, LoopAction::Drive);
    // 1.5 * 10 + 0.25 * 10 + 0.5 * 10
    assert_eq!(outputs.map(f), [22.5, 0.0, -22.5]);
    assert_eq!(pids.map(|pid| f(pid.integral())), [10.0, 0.0, -10.0]);

    // The pause sends zeros and keeps what was learned.
    let (action, outputs) =
        control.drive_axes(&mut settings, &mut pids, measured, dt, false, FRESH, FRESH);
    assert_eq!(action, LoopAction::Pause(LoopFault::ControllerDown));
    assert_eq!(outputs.map(f), [0.0; 3]);
    assert_eq!(pids.map(|pid| f(pid.integral())), [10.0, 0.0, -10.0]);
    assert_eq!(pids.map(|pid| f(pid.prev_error)), [0.0; 3]);

    // On the setpoint again, the integral alone stands.
    control.link_restored(true);
    let (action, outputs) =
        control.drive_axes(&mut settings, &mut pids, d3([100.0; 3]), dt, true, FRESH, FRESH);
    assert_eq!(action, LoopAction::Resume);
    assert_eq!(outputs.map(f), [2.5, 0.0, -2.5]);

    // Settings that cannot be used are repaired, and the controllers wait.
    let before = pids;
    settings[1].kd = d(f64::NAN);
    let (action, outputs) =
        control.drive_axes(&mut settings, &mut pids, measured, dt, true, FRESH, FRESH);
    assert_eq!(action, LoopAction::Repaired(1));
    assert_eq!(outputs.map(f), [0.0; 3]);
    assert_eq!(pids, before);
    assert!(f(settings[1].kd).is_finite());
    assert_eq!(control.running_count(), 0);
}

#[test]
fn a_nominal_tick_is_an_untimed_step() {
    let mut timed = PidController::default();
    timed.apply_settings(&driven_settings()[0]);
    let (mut integral, mut previous) = (0.0, 0.0);
    for measured in [97.3, 101.9, 99.999, 88.25] {
        let error = 100.0 - measured;
        integral += error;
        let expected = 1.5 * error + 0.25 * integral + 0.5 * (error - previous);
        previous = error;
        let output =
            timed.calculate_dt(d(100.0), d(measured), Double::from_bits(NOMINAL_TICK_SECONDS));
        assert_eq!(f(output), expected);
    }
}

#[test]
fn lopsided_limits_are_told() {
    let mut settings = driven_settings();
    assert!(lopsided_axis(&settings).is_none());
    settings[0].min_output = d(-800.0);
    assert!(lopsided_axis(&settings).is_none());
    settings[2].min_output = d(-100.0);
    let (axis, ratio) = lopsided_axis(&settings).unwrap();
    assert_eq!((axis, f(ratio)), (2, 10.0));
    assert_eq!(f(settings[0].authority_ratio()), 1.25);
    // The later of two equals is told.
    settings[0].min_output = d(-100.0);
    assert_eq!(lopsided_axis(&settings).unwrap().0, 2);
    // Exactly at the limit nothing is.
    settings = driven_settings();
    settings[1].max_output = d(1500.0);
    assert!(lopsided_axis(&settings).is_none());
}

#[test]
fn stations_stay_on_the_globe() {
    let mut station = Station {
        latitude: d(91.0),
        longitude: d(-200.0),
        elevation_mask: d(-5.0),
    };
    station.sanitize();
    assert_eq!(f(station.latitude), 90.0);
    assert_eq!(f(station.longitude), -180.0);
    assert_eq!(f(station.elevation_mask), 0.0);
    station.latitude = d(f64::NAN);
    station.longitude = d(f64::INFINITY);
    station.elevation_mask = d(f64::NAN);
    station.sanitize();
    assert_eq!(station, Station::default());
    assert_eq!(f(station.latitude), 18.85);
    assert_eq!(f(station.longitude), 98.96);
    assert_eq!(f(station.elevation_mask), 10.0);
}

#[test]
fn thresholds_that_cannot_be_used_fall_back() {
    assert_eq!(f(usable_threshold(d(250.0))), 250.0);
    for unusable in [0.0, -1.0, f64::NAN, f64::INFINITY] {
        assert_eq!(usable_threshold(d(unusable)).to_bits(), DEFAULT_SPIKE_THRESHOLD_NT);
    }
}

#[test]
fn no_step_passes_its_target() {
    let mut slew = SlewLimiter::new(d(333.0), d3([10.0, -20.0, 30.0]));
    let target = [1000.0, -7000.0, 0.125];
    slew.command(d3(target));
    let mut last = [10.0, -20.0, 30.0];
    for _ in 0..300 {
        let now = slew.step(d(0.1)).map(f);
        for axis in 0..3 {
            let remaining = (target[axis] - last[axis]).abs();
            assert!((now[axis] - last[axis]).abs() <= remaining * (1.0 + 1e-9));
        }
        last = now;
    }
    assert_eq!(last, target);
}

#[test]
fn profiles_pass_through_their_rows() {
    let profile =
        SetpointProfile::parse("0,1,2,3\n2.5,100.1,-7,0.3\n7.75,-4,9.9,1e5\n").unwrap();
    for (time, field) in [
        (0.0, [1.0, 2.0, 3.0]),
        (2.5, [100.1, -7.0, 0.3]),
        (7.75, [-4.0, 9.9, 1e5]),
    ] {
        assert_eq!(profile.sample(d(time)).map(|field| field.map(f)), Some(field));
    }
}

#[test]
fn steps_keep_to_the_rate_and_hold_their_direction() {
    let start = [10.0, -20.0, 30.0];
    let mut slew = SlewLimiter::new(d(5000.0), d3(start));
    slew.command(d3([40_010.0, -30_020.0, 30.0]));
    let now = slew.step(d(0.1)).map(f);
    let moved = [now[0] - start[0], now[1] - start[1], now[2] - start[2]];
    let length = (moved[0] * moved[0] + moved[1] * moved[1] + moved[2] * moved[2]).sqrt();
    assert!((length - 500.0).abs() < 1e-9, "{length}");
    assert!((moved[0] - 400.0).abs() < 1e-9 && (moved[1] + 300.0).abs() < 1e-9);
    assert_eq!(moved[2], 0.0);
}

/// Some propagated position.
fn teme() -> TemePosition {
    let tracker = SatellitePreset::at(0).unwrap().to_tle_set().tracker().unwrap();
    tracker.teme_at(UtcDateTime::date(2026, 3, 1).unwrap()).unwrap()
}

fn position(longitude: f64) -> SatellitePosition {
    SatellitePosition {
        latitude: d(10.0),
        longitude: d(longitude),
        altitude_km: d(420.0),
        teme_x_km: d(0.0),
        teme_y_km: d(0.0),
        teme_z_km: d(0.0),
        ecef_km: d3([0.0; 3]),
        teme: teme(),
    }
}

#[test]
fn sightings_follow_the_satellite() {
    let mut sighting = Sighting::new(None);
    assert_eq!(sighting.seen(position(170.0), None, d(9.9), d(10.0)), Edge::Neither);
    assert_eq!(sighting.seen(position(171.0), None, d(10.0), d(10.0)), Edge::Aos);
    assert_eq!(sighting.position, Some(position(171.0)));

    let track = vec![position(170.0), position(179.0), position(-179.0)];
    let totals = vec![Some(d(40_000.0)), None, Some(d(41_000.0))];
    sighting.along(&track, &totals, d(90.0));
    let segments: Vec<Vec<f64>> = sighting
        .track_segments
        .iter()
        .map(|line| line.iter().map(|point| f(point[0])).collect())
        .collect();
    assert_eq!(segments, vec![vec![170.0, 179.0], vec![-179.0]]);
    let curve: Vec<[f64; 2]> =
        sighting.field_track.iter().map(|point| point.map(f)).collect();
    assert_eq!(curve, vec![[-45.0, 40_000.0], [45.0, 41_000.0]]);

    // A gap clears the track, but it is no setting.
    sighting.lost("decayed".to_owned());
    assert_eq!(sighting.error.as_deref(), Some("decayed"));
    assert!(sighting.track_segments.is_empty() && sighting.field_track.is_empty());
    assert!(sighting.position.is_none() && sighting.was_visible);
    assert_eq!(sighting.seen(position(172.0), None, d(3.0), d(10.0)), Edge::Los);
    assert!(sighting.error.is_none());

    sighting.seen(position(172.0), None, d(30.0), d(10.0));
    sighting.begins();
    assert_eq!(sighting.seen(position(172.0), None, d(30.0), d(10.0)), Edge::Aos);
}

use igrf::config::PidSettings;
use igrf::control::{
    command_delta, drive, error_severity, is_saturated, loop_fault, most_lopsided, name_of,
    output_fraction, pause_message, repaired_message, signed_drive, tick_is_due, LoopAction,
    LoopControl, LoopFault, Severity, PID_INTERVAL,
};
use igrf::csv_log::{
    day_changed, day_file, log_header, needs_header, series, snapshot_row, terminated, Gains,
    LogDay, Snapshot,
};
use igrf::double::Double;
use igrf::netcfg::LanProfile;
use igrf::panel::{
    loaded_line, manual_place, numbers_to_save, saved_line, AppTab, LanPanel, LanReply, Line,
};
use igrf::pid::PidController;
use igrf::satellite::{SatellitePreset, PRESETS};
use igrf::tracking::{
    display_name, draft_from_preset, edge_message, joined_reports, sample_minutes, visibility,
    Edge, SimulatedClock,
};

fn d(value: f64) -> Double {
    Double::from_bits(value.to_bits())
}

fn f(value: Double) -> f64 {
    f64::from_bits(value.to_bits())
}

const FRESH: Option<u128> = Some(10_000_000);

#[test]
fn nothing_runs_through_a_fault() {
    let mut settings = [PidSettings::default(); 3];
    let mut control = LoopControl { pid_running: [true, false, true], ..LoopControl::default() };
    assert_eq!(control.run_pid(&mut settings, true, FRESH, FRESH), LoopAction::Drive);
    assert_eq!(control.running_count(), 2);
    assert_eq!(
        control.run_pid(&mut settings, true, None, None),
        LoopAction::Pause(LoopFault::SensorStale)
    );
    assert_eq!(control.running_count(), 0);
    assert_eq!(control.run_pid(&mut settings, true, FRESH, FRESH), LoopAction::Drive);
    control.link_restored(true);
    assert_eq!(control.run_pid(&mut settings, true, FRESH, FRESH), LoopAction::Resume);
    assert_eq!(control.pid_running, [true, false, true]);
}

#[test]
fn a_stopped_loop_stays_stopped() {
    let mut settings = [PidSettings::default(); 3];
    let mut control = LoopControl { pid_running: [true; 3], ..LoopControl::default() };
    control.run_pid(&mut settings, false, FRESH, FRESH);
    control.stop_all();
    control.link_restored(true);
    control.run_pid(&mut settings, true, FRESH, FRESH);
    assert_eq!(control.running_count(), 0);
}

#[test]
fn faults_are_told_in_order() {
    let late = Some(6_000_000_000);
    assert_eq!(loop_fault(false, late, late), Some(LoopFault::ControllerDown));
    assert_eq!(loop_fault(true, late, late), Some(LoopFault::SensorFrozen));
    assert_eq!(loop_fault(true, late, FRESH), Some(LoopFault::SensorStale));
    assert_eq!(loop_fault(true, Some(1_000_000_000), Some(5_000_000_000)), None);
    assert_eq!(
        pause_message(LoopFault::SensorFrozen, Some("6.1")),
        "PID paused: sensor readings unchanged for 6.1s"
    );
    assert_eq!(
        pause_message(LoopFault::SensorStale, None),
        "PID paused: no sensor data received yet"
    );
    assert!(tick_is_due(PID_INTERVAL));
    assert!(!tick_is_due(PID_INTERVAL - 1));
}

#[test]
fn unusable_gains_stop_the_loop() {
    let mut settings = [PidSettings::default(); 3];
    settings[1].kp = d(f64::NAN);
    let mut control = LoopControl { pid_running: [true; 3], ..LoopControl::default() };
    assert_eq!(
        control.run_pid(&mut settings, true, FRESH, FRESH),
        LoopAction::Repaired(1)
    );
    assert_eq!(f(settings[1].kp), 0.0);
    assert_eq!(control.running_count(), 0);
    assert_eq!(name_of(1), "Y");
    assert!(repaired_message(1, "all values must be finite").contains("Y"));
}

#[test]
fn axes_are_driven_or_held() {
    let settings = PidSettings { kp: d(2.0), ..PidSettings::default() };
    let mut pid = PidController::default();
    let settings = PidSettings { setpoint: d(10.0), ..settings };
    assert_eq!(f(drive(&mut pid, &settings, true, d(4.0), d(0.1))), 12.0);
    assert_eq!(f(drive(&mut pid, &settings, false, d(4.0), d(0.1))), 0.0);
    assert!(is_saturated(true, d(100.0), d(-100.0), d(100.0)));
    assert!(!is_saturated(false, d(100.0), d(-100.0), d(100.0)));
    assert!(!is_saturated(true, d(99.0), d(-100.0), d(100.0)));
    assert_eq!(f(output_fraction(d(50.0), d(-100.0), d(100.0))), 0.75);
    assert_eq!(f(signed_drive(d(-50.0), d(-100.0), d(100.0))), -0.5);
    assert_eq!(
        command_delta(Some([d(1.0); 3]), [d(4.0); 3], true, [true, false, true]).map(f),
        [3.0, 0.0, 3.0]
    );
    assert_eq!(
        command_delta(Some([d(1.0); 3]), [d(4.0); 3], false, [true; 3]).map(f),
        [0.0; 3]
    );
    assert_eq!(most_lopsided(&[d(1.0), d(3.0), d(2.0)]), 1);
}

#[test]
fn errors_are_graded() {
    assert_eq!(error_severity(d(0.0)), Severity::Good);
    assert_eq!(error_severity(d(1e9)), Severity::Bad);
}

fn snapshot() -> Snapshot {
    let gains = Gains { kp: d(1.0), ki: d(2.0), kd: d(3.0) };
    Snapshot {
        filtered: [d(2.0), d(3.0), d(6.0)],
        setpoints: [d(0.0); 3],
        errors: [d(0.5); 3],
        gains: [gains; 3],
        outputs: [d(9.0); 3],
        magson: [d(1.0), d(2.0), d(2.0)],
        commanded: [d(4.0); 3],
        tick_seconds: d(0.1),
    }
}

#[test]
fn rows_fit_the_header() {
    let header = log_header();
    assert_eq!(header, "Timestamp,MagX,MagY,MagZ,MagTotal,SetX,SetY,SetZ,SetTotal,ErrX,ErrY,ErrZ,OutX,OutY,OutZ,KpX,KiX,KdX,KpY,KiY,KdY,KpZ,KiZ,KdZ,Mag2X,Mag2Y,Mag2Z,Mag2Total,CmdX,CmdY,CmdZ,TickMs");
    let values: Vec<String> = snapshot()
        .columns()
        .iter()
        .map(|(value, decimals)| format!("{:.*}", *decimals as usize, f(*value)))
        .collect();
    let row = snapshot_row("12:00:00", &values);
    assert_eq!(row.split(',').count(), header.split(',').count());
    assert_eq!(row, "12:00:00,2.00,3.00,6.00,7.00,0.00,0.00,0.00,0.00,0.50,0.50,0.50,9.00,9.00,9.00,1.000,2.000,3.000,1.000,2.000,3.000,1.000,2.000,3.000,1.00,2.00,2.00,3.00,4.00,4.00,4.00,100.0");
}

#[test]
fn each_day_has_its_own_file() {
    let first = LogDay { year: 2025, month: 8, day: 21 };
    let second = LogDay { year: 2025, month: 8, day: 22 };
    assert_eq!(day_file("sensor_log", first), "sensor_log_2025-08-21.csv");
    assert_eq!(day_file("sensor_log", second), "sensor_log_2025-08-22.csv");
    for year in [0, 7, 999, 1000, 9999, 10_000, 262_142, -1, -12_345] {
        let date = chrono::NaiveDate::from_ymd_opt(year, 3, 4).unwrap();
        let expected = format!("log_{}.csv", date.format("%Y-%m-%d"));
        assert_eq!(day_file("log", LogDay { year, month: 3, day: 4 }), expected);
    }
    assert!(day_changed(first, second));
    assert!(!day_changed(first, first));
    assert_eq!(
        series(Some("sensor_log"), None),
        ("logs".to_owned(), "sensor_log".to_owned())
    );
    assert_eq!(
        series(None, Some("elsewhere")),
        ("elsewhere".to_owned(), "sensor_log".to_owned())
    );
    assert!(needs_header(None));
    assert!(needs_header(Some(0)));
    assert!(!needs_header(Some(4)));
    assert_eq!(terminated("a,b"), "a,b\n");
}

#[test]
fn tracking_keeps_simulated_time() {
    let mut clock = SimulatedClock::default();
    assert_eq!(
        clock.start(0),
        Err("Add at least one satellite first".to_owned())
    );
    assert!(clock.start(1).is_ok());
    clock.speed = 60;
    let second = 1_000_000_000;
    assert!(clock.tick(1, 5 * second));
    assert!(!clock.tick(1, 6 * second - 1));
    assert!(clock.tick(1, 6 * second));
    assert_eq!(clock.offset_ms(), 120_000);
    clock.stop();
    assert!(!clock.tick(1, 60 * second));
    clock.reset();
    assert_eq!(clock.offset_ms(), 0);
}

#[test]
fn passes_alternate() {
    let mut visible = false;
    let mut reports = Vec::new();
    for elevation in [-5.0, 9.9, 10.0, 40.0, 9.0, -2.0, 11.0] {
        let (now, edge) = visibility(d(elevation), d(10.0), visible);
        visible = now;
        if edge != Edge::Neither {
            reports.push(edge_message("ISS", edge, &format!("{elevation:.1}")));
        }
    }
    assert_eq!(
        joined_reports(&reports).unwrap(),
        "ISS: AOS (elevation 10.0 deg); ISS: LOS (elevation 9.0 deg); ISS: AOS (elevation 11.0 deg)"
    );
    assert_eq!(joined_reports(&Vec::new()), None);
    assert_eq!(display_name(" "), "Satellite");
    assert_eq!(f(sample_minutes(0, 3, d(90.0))), -45.0);
    let draft = draft_from_preset(&SatellitePreset::at(1).unwrap(), None);
    assert_eq!((draft.name.as_str(), draft.line1.as_str()), (PRESETS[1].0, PRESETS[1].1));
}

fn profile(addresses: &str) -> LanProfile {
    LanProfile {
        device: "eth0".to_owned(),
        profile: "lab".to_owned(),
        method: "auto".to_owned(),
        addresses: addresses.to_owned(),
        carries_default_route: false,
    }
}

#[test]
fn the_lan_panel_follows_its_profiles() {
    let mut panel =
        LanPanel { profiles: Vec::new(), selected: 4, cidr: String::new(), busy: false };
    assert_eq!(panel.dhcp_request(), Err("No LAN profile selected".to_owned()));
    panel.refreshed(vec![profile("10.0.0.2/24"), profile("10.0.0.3/24")]);
    assert_eq!((panel.selected, panel.cidr.as_str()), (1, "10.0.0.3/24"));
    assert_eq!(panel.static_request(), Ok((1, "10.0.0.3/24".to_owned())));
    assert_eq!(panel.dhcp_request(), Ok(1));
    panel.cidr = "10.0.0.3".to_owned();
    assert!(panel.static_request().unwrap_err().starts_with("LAN address: "));
    assert!(panel.begin());
    assert!(!panel.begin());
    assert!(matches!(panel.replied(LanReply::Pending), (None, false)));
    assert!(matches!(
        panel.replied(LanReply::Failed("x".to_owned())),
        (Some(Line::Error(text)), true) if text == "LAN: x"
    ));
    assert!(matches!(
        panel.replied(LanReply::Lost),
        (Some(Line::Error(_)), false)
    ));
    assert!(matches!(
        panel.replied(LanReply::Done("ok".to_owned())),
        (Some(Line::Status(text)), true) if text == "ok"
    ));
    assert!(!panel.busy);
}

#[test]
fn typed_places_and_numbers_are_checked() {
    let place = manual_place(" 18.8 ", "98.9").unwrap();
    assert_eq!((f(place.latitude), f(place.longitude)), (18.8, 98.9));
    assert!(manual_place("x", "98.9").is_err());
    assert!(manual_place("95", "98.9").is_err());
    let kept = numbers_to_save("9600", "115200", "1234", "none").unwrap();
    assert_eq!(
        (kept.sensor_baud, kept.controller_baud, kept.magson_port, kept.setpoint_port),
        (9600, 115200, 1234, 0)
    );
    assert_eq!(
        numbers_to_save("x", "1", "1", "1").err(),
        Some("Cannot save sensor baud: must be a positive integer".to_owned())
    );
    assert!(matches!(
        saved_line("a.json", &[false; 3], "42", None),
        Line::Status(text) if text == "Saved a.json"
    ));
    assert!(matches!(
        saved_line("a.json", &[true, false, true], "42", None),
        Line::Error(text) if text.contains("X/Z") && text.ends_with("(42)")
    ));
    assert!(matches!(
        saved_line("a.json", &[false; 3], "42", Some("disk full")),
        Line::Error(text) if text == "Cannot save a.json: disk full"
    ));
    assert!(matches!(
        loaded_line("a.json", None, Some("limits moved")),
        Line::Error(text) if text == "Loaded a.json, but limits moved"
    ));
    assert!(matches!(loaded_line("a.json", None, None), Line::Status(_)));
    assert_eq!(AppTab::Control.label(), "IGRF Control");
    assert_eq!(AppTab::Model.label(), "IGRF Model");
}

use igrf::angle::Turn;
use igrf::double::Double;
use igrf::geomagnetism::expansion;
use igrf::geomagnetism::{
    days_in_month, Coordinate, CoordinateError, CoordinateZ, DateError, GeomagnetismCalculator,
    GeomagnetismError, GeomagnetismResult, UtcDateTime, Wgs84, Wmm2025,
};
use igrf::satellite::{
    bearings, ecef_to_geodetic, elevation_deg, elevation_sine, geodetic_to_ecef, place_at,
    split_dateline_segments, teme_to_ecef, SatelliteError, SatellitePosition, SatellitePreset,
    SatelliteTracker, TleSet, PRESETS,
};
use igrf::propagation::TemePosition;
use igrf::tracking::{field_at, Edge, Sighting, Station, GROUND_TRACK_SAMPLES};

fn d(value: f64) -> Double {
    Double::from_bits(value.to_bits())
}

fn f(value: Double) -> f64 {
    f64::from_bits(value.to_bits())
}

fn date(year: i32, month: u8, day: u8) -> UtcDateTime {
    UtcDateTime::date(year, month, day).unwrap()
}

fn sine_cosine(angle: Double) -> (Double, Double) {
    (d(f(angle).sin()), d(f(angle).cos()))
}

fn arc_tangent(across: Double, along: Double) -> Double {
    d(f(across).atan2(f(along)))
}

fn arc_sine(sine: Double) -> Double {
    d(f(sine).asin())
}

/// The colatitude and the radius of a place.
fn spherical(calculator: &GeomagnetismCalculator, place: CoordinateZ) -> (f64, f64) {
    let (theta, radius) = calculator.geodetic_to_spherical(place, &sine_cosine, &arc_tangent);
    (f(theta), f(radius))
}

fn result_at(
    calculator: &GeomagnetismCalculator,
    place: CoordinateZ,
    date: UtcDateTime,
) -> Result<Option<GeomagnetismResult>, GeomagnetismError> {
    calculator.try_calculate_z(place, date, &sine_cosine, &arc_tangent)
}

#[test]
fn wgs84_conversion_matches_expected_equatorial_radius() {
    let calculator = GeomagnetismCalculator::new();
    let coordinate = CoordinateZ::new(d(0.0), d(0.0), d(0.0)).unwrap();
    let (theta, radius) = spherical(&calculator, coordinate);

    assert!((theta - std::f64::consts::FRAC_PI_2).abs() < 1e-12);
    assert!((radius - 6378.137).abs() < 1e-9);
}

#[test]
fn wmm2025_returns_finite_field_inside_valid_period() {
    let calculator = GeomagnetismCalculator::new();
    let coordinate = Coordinate::new(d(13.7563), d(100.5018)).unwrap();
    let result = calculator
        .try_calculate(coordinate, date(2025, 1, 1), &sine_cosine, &arc_tangent)
        .unwrap()
        .unwrap();
    let place = CoordinateZ::new(coordinate.latitude, coordinate.longitude, d(0.0)).unwrap();
    assert_eq!(result_at(&calculator, place, date(2025, 1, 1)), Ok(Some(result)));

    let (x, y, z) = (f(result.x), f(result.y), f(result.z));
    let total_intensity = f(result.total_intensity);
    assert!(x.is_finite());
    assert!(y.is_finite());
    assert!(z.is_finite());
    assert!(total_intensity > 0.0);
    assert!((total_intensity.powi(2) - (x.powi(2) + y.powi(2) + z.powi(2))).abs() < 1e-6);
}

/// The published WMM2025 test values for 2025.0, to 0.1 nT.
#[test]
fn wmm2025_matches_the_published_test_values() {
    // lat, lon, height km, X, Y, Z, H, F, I, D
    let rows = [
        (80.0, 0.0, 0.0, 6521.6, 145.9, 54791.5, 6523.2, 55178.5, 83.21, 1.28),
        (0.0, 120.0, 0.0, 39677.8, -109.6, -10580.2, 39677.9, 41064.3, -14.93, -0.16),
        (-80.0, -120.0, 0.0, 6117.5, 15751.9, -52022.5, 16898.1, 54698.2, -72.00, 68.78),
        (80.0, 0.0, 100.0, 6216.0, 92.4, 52598.8, 6216.7, 52964.9, 83.26, 0.85),
        (0.0, 120.0, 100.0, 37688.6, -96.2, -10152.1, 37688.7, 39032.1, -15.08, -0.15),
        (-80.0, -120.0, 100.0, 5907.6, 14780.3, -49540.7, 15917.1, 52035.0, -72.19, 68.21),
    ];
    let calculator = GeomagnetismCalculator::new();

    for (latitude, longitude, height, x, y, z, h, total, i, declination) in rows {
        let coordinate = Coordinate::new(d(latitude), d(longitude)).unwrap();
        let result = calculator
            .try_calculate_at_altitude(
                coordinate,
                d(height),
                date(2025, 1, 1),
                &sine_cosine,
                &arc_tangent,
            )
            .unwrap()
            .unwrap();
        let check = |name: &str, actual: Double, expected: f64, tolerance: f64| {
            let actual = f(actual);
            assert!(
                (actual - expected).abs() < tolerance,
                "{name} at {latitude},{longitude},{height}km: {actual} != {expected}"
            );
        };

        check("X", result.x, x, 0.2);
        check("Y", result.y, y, 0.2);
        check("Z", result.z, z, 0.2);
        check("H", result.horizontal_intensity, h, 0.2);
        check("F", result.total_intensity, total, 0.2);
        check("I", result.inclination, i, 0.01);
        check("D", result.declination, declination, 0.01);
    }
}

/// The published values for 2027.5: the secular terms count too.
#[test]
fn the_field_drifts_with_the_years() {
    let calculator = GeomagnetismCalculator::new();
    let place = CoordinateZ::new(d(80.0), d(0.0), d(0.0)).unwrap();
    let later = UtcDateTime::new(2027, 7, 2, 15, 0, 0, 0).unwrap();
    let field = result_at(&calculator, place, later).unwrap().unwrap();
    assert!((f(field.x) - 6500.8).abs() < 0.2);
    assert!((f(field.y) - 294.5).abs() < 0.2);
    assert!((f(field.z) - 54869.4).abs() < 0.2);
}

#[test]
fn julian_day_counts_milliseconds_as_thousandths_of_a_second() {
    let base = UtcDateTime::new(2025, 6, 1, 12, 0, 0, 0).unwrap();
    let half_second = UtcDateTime::new(2025, 6, 1, 12, 0, 0, 500).unwrap();

    assert!((f(half_second.julian_day()) - f(base.julian_day()) - 0.5 / 86_400.0).abs() < 1e-8);
    assert_eq!(f(UtcDateTime::new(2000, 1, 1, 12, 0, 0, 0).unwrap().julian_day()), 2_451_545.0);
}

#[test]
fn dates_outside_model_and_invalid_coordinates_are_rejected() {
    let calculator = GeomagnetismCalculator::new();
    let coordinate = Coordinate::new(d(0.0), d(0.0)).unwrap();
    assert_eq!(
        calculator.try_calculate(coordinate, date(2024, 12, 31), &sine_cosine, &arc_tangent),
        Ok(None)
    );
    assert!(UtcDateTime::date(0, 1, 1).is_err());
    assert!(UtcDateTime::date(10_000, 1, 1).is_err());
    assert!(Coordinate::new(d(91.0), d(0.0)).is_err());
    assert!(CoordinateZ::new(d(0.0), d(0.0), d(f64::NAN)).is_err());
}

#[test]
fn every_coordinate_error_has_its_input() {
    assert_eq!(
        Coordinate::new(d(f64::NAN), d(0.0)),
        Err(CoordinateError::NonFiniteLatitude)
    );
    assert_eq!(
        Coordinate::new(d(0.0), d(f64::INFINITY)),
        Err(CoordinateError::NonFiniteLongitude)
    );
    assert_eq!(
        Coordinate::new(d(-90.5), d(0.0)),
        Err(CoordinateError::LatitudeOutOfRange)
    );
    assert_eq!(
        Coordinate::new(d(0.0), d(180.5)),
        Err(CoordinateError::LongitudeOutOfRange)
    );
    assert_eq!(
        CoordinateZ::new(d(0.0), d(0.0), d(f64::NAN)),
        Err(CoordinateError::NonFiniteElevation)
    );
    let bent = CoordinateZ { latitude: d(95.0), longitude: d(0.0), elevation: d(0.0) };
    let calculator = GeomagnetismCalculator::default();
    assert_eq!(
        result_at(&calculator, bent, date(2025, 1, 1)),
        Err(GeomagnetismError::Coordinate(CoordinateError::LatitudeOutOfRange))
    );
}

#[test]
fn calendar_rules_hold() {
    assert_eq!(days_in_month(2000, 2), 29);
    assert_eq!(days_in_month(1900, 2), 28);
    assert_eq!(days_in_month(2024, 2), 29);
    assert_eq!(days_in_month(2025, 4), 30);
    assert_eq!(UtcDateTime::date(2025, 2, 29), Err(DateError::InvalidDate));
    assert_eq!(
        UtcDateTime::new(2025, 1, 1, 24, 0, 0, 0),
        Err(DateError::InvalidTime)
    );
    assert_eq!(
        UtcDateTime::new(2025, 1, 1, 0, 0, 0, 1000),
        Err(DateError::InvalidTime)
    );
    assert_eq!(Wmm2025::valid_from(), date(2025, 1, 1));
    assert_eq!(Wmm2025::valid_to(), date(2030, 1, 1));
    let early = date(2025, 5, 31);
    let late = UtcDateTime::new(2025, 5, 31, 0, 0, 0, 1).unwrap();
    assert!(early.is_before(late));
    assert!(!late.is_before(early));
    assert!(!late.is_before(late));
}

#[test]
fn the_ellipsoid_is_that_of_wgs84() {
    let spheroid = Wgs84::default();
    assert_eq!(f(spheroid.flattening()), 1.0 / 298.257223563);
    assert!((f(spheroid.polar_axis_m()) - 6_356_752.314_245).abs() < 1e-6);
    assert!((f(spheroid.eccentricity()) - 0.081_819_190_842_622).abs() < 1e-14);
    assert!((f(spheroid.mean_radius_m()) - 6_371_008.771_4).abs() < 1e-3);
    let other = GeomagnetismCalculator::with_spheroid(Wgs84 {
        equatorial_axis_m: d(6_371_000.0),
        ..spheroid
    });
    let place = CoordinateZ::new(d(0.0), d(0.0), d(0.0)).unwrap();
    assert!((spherical(&other, place).1 - 6371.0).abs() < 1e-9);
}

/// The machine's own arithmetic, from a place to its angles.
#[test]
fn every_angle_is_that_of_the_place() {
    let calculator = GeomagnetismCalculator::new();
    for (latitude, longitude, height) in [(18.8, 98.9, 0.3), (-71.2, -179.5, 700.0)] {
        let place = CoordinateZ::new(d(latitude), d(longitude), d(height)).unwrap();
        let angles = calculator.measure(place, &sine_cosine, &arc_tangent);
        let turn = |angle: f64| Turn { angle: d(angle), sine: d(angle.sin()), cosine: d(angle.cos()) };
        let (theta, radius) = spherical(&calculator, place);
        assert_eq!(angles.latitude, turn(latitude.to_radians()));
        assert_eq!(angles.colatitude, turn(theta));
        for order in 1..13 {
            assert_eq!(angles.longitudes[order], turn(order as f64 * longitude.to_radians()));
        }
        let tilt = theta - (std::f64::consts::FRAC_PI_2 - latitude.to_radians());
        assert_eq!(angles.tilt, turn(tilt));

        let field = expansion::field_of(&angles, d(radius), &calculator.model, d(0.0));
        assert_eq!(calculator.field_by(place, date(2025, 1, 1), &angles), field);
        let report = result_at(&calculator, place, date(2025, 1, 1)).unwrap().unwrap();
        assert_eq!((report.x, report.y, report.z), (field.x, field.y, field.z));
        assert_eq!(report.coordinate, place);
        let (x, y, z) = (f(field.x), f(field.y), f(field.z));
        assert_eq!(f(report.declination), y.atan2(x).to_degrees());
        assert_eq!(f(report.inclination), z.atan2((x * x + y * y).sqrt()).to_degrees());
    }
}

#[test]
fn degrees_and_turns_are_those_of_the_machine() {
    for angle in [0.0, -0.0, 1.0, -57.3, 180.0, 280.46061837, 1e9, -1e-300, f64::INFINITY] {
        assert_eq!(f(d(angle).to_radians()).to_bits(), angle.to_radians().to_bits());
        assert_eq!(f(d(angle).to_degrees()).to_bits(), angle.to_degrees().to_bits());
    }
    let numbers = [
        0.0, -0.0, 1.0, -1.0, 359.999, 360.0, -360.0, 720.5, -1e-20, 1.1e9, -3.7e15, 1e300, 5e-324,
        0.1, -7.25,
    ];
    for left in numbers {
        for right in numbers {
            if right != 0.0 {
                assert_eq!(f(d(left).rem(d(right))).to_bits(), (left % right).to_bits());
                assert_eq!(
                    f(d(left).rem_euclid(d(right))).to_bits(),
                    left.rem_euclid(right).to_bits()
                );
            }
        }
        assert!(d(left).rem(d(0.0)).is_nan());
        assert_eq!(f(d(left).rem(d(f64::INFINITY))).to_bits(), left.to_bits());
        assert!(d(f64::INFINITY).rem(d(left)).is_nan());
        assert!(d(left).rem(d(f64::NAN)).is_nan());
    }
}

fn iss_tracker() -> SatelliteTracker {
    let preset = SatellitePreset::at(0).unwrap();
    SatelliteTracker::from_tle(Some(preset.name), preset.line1, preset.line2).unwrap()
}

#[test]
fn iss_orbital_period_is_about_93_minutes() {
    let period = f(iss_tracker().orbital_period_minutes());
    assert!((period - 93.0).abs() < 1.0, "expected ~93 min, got {period}");
    assert_eq!(period, 1440.0 / 15.48414003);
}

#[test]
fn elevation_is_near_90_degrees_directly_under_the_satellite() {
    let tracker = iss_tracker();
    let time = date(2026, 3, 1);
    let position = tracker.position_at(time, &sine_cosine, &arc_tangent).unwrap();
    assert!(f(position.altitude_km) > 350.0 && f(position.altitude_km) < 450.0);

    let elevation = f(elevation_deg(
        position.latitude,
        position.longitude,
        position.ecef_km,
        &sine_cosine,
        &arc_sine,
    ));
    assert!(
        elevation > 89.9,
        "expected elevation near 90 deg, got {elevation}"
    );
    let below = bearings(position.latitude, position.longitude, &sine_cosine);
    let sine = f(elevation_sine(Wgs84::default(), below, position.ecef_km));
    assert_eq!(elevation, sine.asin().to_degrees());
}

/// A propagated position is turned with the Earth, and stands over its subpoint.
#[test]
fn positions_are_turned_with_the_earth() {
    let tracker = iss_tracker();
    let time = UtcDateTime::new(2026, 3, 1, 6, 7, 8, 9).unwrap();
    let teme = tracker.teme_at(time).unwrap();
    let position = tracker.position_at(time, &sine_cosine, &arc_tangent).unwrap();
    assert_eq!(position, SatellitePosition::seen(teme, time, &sine_cosine, &arc_tangent));
    assert_eq!(Ok(position.teme.minutes()), tracker.minutes_at(time));
    assert_eq!([position.teme_x_km, position.teme_y_km, position.teme_z_km], teme.teme_km());

    let gmst = f(time.sidereal_degrees()).rem_euclid(360.0).to_radians();
    assert_eq!(f(time.gmst_radians()), gmst);
    let turn = Turn { angle: d(gmst), sine: d(gmst.sin()), cosine: d(gmst.cos()) };
    assert_eq!(position.ecef_km, teme_to_ecef(teme.teme_km(), turn));
    let place = ecef_to_geodetic(position.ecef_km, Wgs84::default(), &sine_cosine, &arc_tangent);
    assert_eq!((position.latitude, position.longitude, position.altitude_km), place);
}

#[test]
fn the_two_conversions_undo_each_other() {
    let spheroid = Wgs84::default();
    for (latitude, longitude, altitude) in
        [(18.8, 98.9, 0.3), (-33.0, -70.5, 420.0), (0.0, 179.0, 35_786.0)]
    {
        let at = bearings(d(latitude), d(longitude), &sine_cosine);
        let ecef = geodetic_to_ecef(d(latitude), d(longitude), d(altitude), &sine_cosine);
        assert_eq!(ecef, place_at(spheroid, at, d(altitude)));
        let (found, across, height) =
            ecef_to_geodetic(ecef, spheroid, &sine_cosine, &arc_tangent);
        assert!((f(found) - latitude).abs() < 1e-6);
        assert!((f(across) - longitude).abs() < 1e-9);
        assert!((f(height) - altitude).abs() < 1e-3, "{height:?} != {altitude}");
    }
}

#[test]
fn ground_track_returns_the_requested_sample_count() {
    let tracker = iss_tracker();
    let time = date(2026, 3, 1);
    let track = tracker.ground_track(time, 41, &sine_cosine, &arc_tangent).unwrap();
    assert_eq!(track.len(), 41);
    for (index, position) in track.iter().enumerate() {
        let moment = tracker.sample_time(time, index as u32, 41).unwrap();
        assert_eq!(tracker.position_at(moment, &sine_cosine, &arc_tangent), Ok(*position));
    }
    assert_eq!(tracker.sample_time(time, 20, 41), Ok(time));
    assert!(tracker.sample_time(time, 0, 41).unwrap().is_before(time));
    assert!(time.is_before(tracker.sample_time(time, 40, 41).unwrap()));
}

#[test]
fn a_ground_track_spans_one_period() {
    let tracker = iss_tracker();
    let center = UtcDateTime::new(2026, 2, 28, 23, 59, 59, 999).unwrap();
    assert_eq!(tracker.ground_track(center, 0, &sine_cosine, &arc_tangent).unwrap().len(), 2);
    let first = tracker.sample_time(center, 0, 2).unwrap();
    let last = tracker.sample_time(center, 1, 2).unwrap();
    let span = (f(last.julian_day()) - f(first.julian_day())) * 1440.0;
    assert!((span - f(tracker.orbital_period_minutes())).abs() < 1e-3);
    assert_eq!((last.year, last.month, last.day), (2026, 3, 1));
}

#[test]
fn tracks_that_leave_the_calendar_are_refused() {
    let tracker = iss_tracker();
    let end = UtcDateTime::new(9999, 12, 31, 23, 59, 59, 999).unwrap();
    assert!(matches!(
        tracker.sample_time(end, 1, 2),
        Err(SatelliteError::Conversion(_))
    ));
}

/// Some propagated position.
fn teme() -> TemePosition {
    iss_tracker().teme_at(date(2026, 3, 1)).unwrap()
}

fn pos(latitude: f64, longitude: f64) -> SatellitePosition {
    SatellitePosition {
        latitude: d(latitude),
        longitude: d(longitude),
        altitude_km: d(400.0),
        teme_x_km: d(0.0),
        teme_y_km: d(0.0),
        teme_z_km: d(0.0),
        ecef_km: [d(0.0); 3],
        teme: teme(),
    }
}

#[test]
fn a_track_crossing_the_dateline_splits_into_two_segments() {
    let track = vec![
        pos(0.0, 170.0),
        pos(1.0, 175.0),
        pos(2.0, -178.0),
        pos(3.0, -170.0),
    ];
    let segments = split_dateline_segments(&track);
    assert_eq!(segments.len(), 2);
    assert_eq!(segments[0].len(), 2);
    assert_eq!(segments[1].len(), 2);
    assert_eq!(segments[1][0], [d(-178.0), d(2.0)]);
    // Half a turn is no jump yet.
    assert_eq!(split_dateline_segments(&[pos(0.0, -90.0), pos(0.0, 90.0)]).len(), 1);
    assert_eq!(split_dateline_segments(&[pos(0.0, -90.0), pos(0.0, 90.5)]).len(), 2);
}

#[test]
fn a_track_that_never_crosses_the_dateline_stays_one_segment() {
    let track = vec![pos(0.0, -10.0), pos(1.0, 0.0), pos(2.0, 10.0)];
    let segments = split_dateline_segments(&track);
    assert_eq!(segments.len(), 1);
    assert_eq!(segments[0].len(), 3);
    assert!(split_dateline_segments(&[]).is_empty());
}

#[test]
fn every_preset_propagates() {
    assert_eq!(PRESETS.len(), 9);
    for (index, (name, line1, _)) in PRESETS.iter().enumerate() {
        let set = SatellitePreset::at(index).unwrap().to_tle_set();
        assert_eq!(set.name.as_deref(), Some(*name));
        assert_eq!(set.catalog_number().unwrap().to_string(), line1[2..7]);
        let tracker = set.tracker().unwrap();
        assert!(tracker.teme_at(date(2026, 2, 10)).is_ok());
    }
    assert!(SatellitePreset::at(9).is_none());
}

#[test]
fn element_sets_name_their_faults() {
    let (_, line1, line2) = PRESETS[0];
    let bent = line1.replace("9997", "9998");
    let fault = TleSet::new(&bent, line2).tracker().err().unwrap();
    assert!(matches!(&fault, SatelliteError::Tle(text) if text.contains("checksum")));
    let low = format!("{}!", &line1[..68]);
    assert_eq!(
        SatelliteTracker::from_tle(None, &low, line2).err(),
        Some(SatelliteError::Tle(
            "TLE parse error: Bad line checksum on TLE line 1 between characters 68 and 69"
                .to_owned()
        ))
    );
    let low = format!("{}#", &line2[..68]);
    assert_eq!(
        SatelliteTracker::from_tle(None, line1, &low).err(),
        Some(SatelliteError::Tle(
            "TLE parse error: Bad line checksum on TLE line 2 between characters 68 and 69"
                .to_owned()
        ))
    );
    // A fault that is looked for earlier is told first.
    let fault = |line1: &str, line2: &str| {
        SatelliteTracker::from_tle(None, line1, line2).err().map(|error| error.message()).unwrap()
    };
    assert!(fault(&format!("{}!", &bent[..68]), line2).contains("checksum on TLE line 1"));
    assert!(fault(&bent, &low).contains("checksum on TLE line 1"));
    assert!(!fault(&format!("3{}!", &line1[1..68]), line2).contains("checksum"));
    assert!(!fault(line1, &format!("2 00001{}#", &line2[7..68])).contains("checksum"));
    assert!(!fault(&line1[..60], &low).contains("checksum"));
    assert!(matches!(
        SatelliteTracker::from_tle(None, "", "").err(),
        Some(SatelliteError::Tle(_))
    ));
    assert!(matches!(
        TleSet::new("1", "2").catalog_number(),
        Err(SatelliteError::Tle(_))
    ));
    assert!(matches!(
        TleSet::new("1 abc", "2").catalog_number(),
        Err(SatelliteError::Tle(_))
    ));
    let named = TleSet::named("a", line1, line2).with_name("b");
    assert_eq!(named.name.as_deref(), Some("b"));
}

#[test]
fn failed_propagations_keep_their_words() {
    let fallen = SatelliteTracker::propagated(Err("decayed".to_owned()));
    assert_eq!(fallen, Err(SatelliteError::Propagation("decayed".to_owned())));
    let position = teme();
    assert_eq!(SatelliteTracker::propagated(Ok(position)), Ok(position));
    let lost = SatelliteError::Conversion("too far".to_owned());
    assert_eq!(lost.message(), "time conversion error: too far");
    assert_eq!(
        SatelliteError::Tle("x".to_owned()).message(),
        "TLE error: x"
    );
}

#[test]
fn the_earth_turns_under_the_stars() {
    // 280.46061837 degrees at noon of 1 January 2000.
    let noon = UtcDateTime::new(2000, 1, 1, 12, 0, 0, 0).unwrap();
    assert_eq!(f(noon.sidereal_degrees()), 280.46061837);
    assert_eq!(f(noon.gmst_radians()), 280.46061837_f64.to_radians());
    // A worked example: 13h 10m 46.3668s at 0h of 10 April 1987.
    let day = UtcDateTime::new(1987, 4, 10, 0, 0, 0, 0).unwrap();
    let hours = f(day.gmst_radians()).to_degrees() / 15.0;
    assert!((hours - (13.0 + 10.0 / 60.0 + 46.3668 / 3600.0)).abs() < 1e-7);
}

#[test]
fn minutes_count_from_the_epoch() {
    let (name, line1, line2) = PRESETS[0];
    let tracker = SatelliteTracker::from_tle(Some(name), line1, line2).unwrap();
    let elements =
        sgp4::Elements::from_tle(None, line1.as_bytes(), line2.as_bytes()).unwrap();
    assert_eq!(tracker.ready.element_set().epoch().seconds, elements.datetime.and_utc().timestamp());

    for (year, month, day, millisecond) in [(2026, 1, 1, 0), (1957, 10, 4, 999), (2300, 2, 28, 1)]
    {
        let time = UtcDateTime::new(year, month, day, 7, 8, 9, millisecond).unwrap();
        let date = chrono::NaiveDate::from_ymd_opt(year, month.into(), day.into()).unwrap();
        let moment = date.and_hms_milli_opt(7, 8, 9, millisecond.into()).unwrap();
        let expected = elements.datetime_to_minutes_since_epoch(&moment).unwrap().0;
        assert_eq!(tracker.minutes_at(time).map(f), Ok(expected));
    }

    // More nanoseconds than 64 bits hold.
    let time = UtcDateTime::new(3000, 1, 1, 0, 0, 0, 0).unwrap();
    let moment = chrono::NaiveDate::from_ymd_opt(3000, 1, 1).unwrap().and_hms_opt(0, 0, 0);
    let words = elements.datetime_to_minutes_since_epoch(&moment.unwrap()).unwrap_err().to_string();
    assert_eq!(tracker.minutes_at(time), Err(SatelliteError::Conversion(words.clone())));
    assert_eq!(tracker.teme_at(time), Err(SatelliteError::Conversion(words.clone())));
    assert_eq!(
        tracker.ground_track(time, 5, &sine_cosine, &arc_tangent).unwrap_err(),
        SatelliteError::Conversion(
            elements
                .datetime_to_minutes_since_epoch(
                    &(moment.unwrap()
                        - chrono::Duration::milliseconds(
                            (f(tracker.orbital_period_minutes()) * 30_000.0).round() as i64
                        ))
                )
                .unwrap_err()
                .to_string()
        )
    );
}

#[test]
fn a_mean_motion_may_be_no_number() {
    let (_, line1, line2) = PRESETS[0];
    let line2 = with_motion(line2, "nan");
    let elements = sgp4::Elements::from_tle(None, line1.as_bytes(), line2.as_bytes());
    assert!(elements.unwrap().mean_motion.is_nan());
    if let Ok(tracker) = SatelliteTracker::from_tle(None, line1, &line2) {
        assert!(f(tracker.ready.element_set().mean_motion()).is_nan());
    }
}

/// A tracker propagates the element set that it was read from.
#[test]
fn every_tracker_propagates_its_own_lines() {
    let time = date(2026, 2, 10);
    let moment = chrono::NaiveDate::from_ymd_opt(2026, 2, 10).unwrap().and_hms_opt(0, 0, 0).unwrap();
    for (name, line1, line2) in PRESETS {
        let tracker = SatelliteTracker::from_tle(Some(name), line1, line2).unwrap();
        let position = tracker.teme_at(time).unwrap();
        let (first, second) = position.lines();
        assert_eq!((&first[..], &second[..]), (line1.as_bytes(), line2.as_bytes()));

        let elements =
            sgp4::Elements::from_tle(None, line1.as_bytes(), line2.as_bytes()).unwrap();
        let minutes = elements.datetime_to_minutes_since_epoch(&moment).unwrap();
        let expected =
            sgp4::Constants::from_elements(&elements).unwrap().propagate(minutes).unwrap();
        assert_eq!(f(position.minutes()), minutes.0);
        assert_eq!(position.teme_km().map(f), expected.position);
    }
}

/// A line with another mean motion, and the checksum that belongs to it.
fn with_motion(line2: &str, motion: &str) -> String {
    let body = format!("{}{motion:>11}{}", &line2[..52], &line2[63..68]);
    let digit = body
        .chars()
        .map(|c| if c == '-' { 1 } else { c.to_digit(10).unwrap_or(0) })
        .sum::<u32>()
        % 10;
    format!("{body}{digit}")
}

#[test]
fn a_satellite_that_does_not_move_forward_is_refused() {
    let (_, line1, line2) = PRESETS[0];
    let refusal = |motion: &str| {
        SatelliteTracker::from_tle(None, line1, &with_motion(line2, motion)).err()
    };
    for motion in ["0.00000000", "-1.5", "-0", "5e-324"] {
        assert_eq!(
            refusal(motion),
            Some(SatelliteError::Tle(
                "The Kozai mean motion calculated from epoch elements is negative".to_owned()
            )),
            "{motion}"
        );
    }
    assert_eq!(refusal("15.48414003"), None);
}

#[test]
fn moments_that_are_none_are_refused() {
    let tracker = iss_tracker();
    let good = UtcDateTime::new(2026, 2, 10, 12, 0, 0, 0).unwrap();
    let wrong_day = "invalid calendar date";
    let wrong_time = "invalid time of day";
    for (time, words) in [
        (UtcDateTime { month: 0, ..good }, wrong_day),
        (UtcDateTime { month: 13, ..good }, wrong_day),
        (UtcDateTime { day: 0, ..good }, wrong_day),
        (UtcDateTime { day: 29, ..good }, wrong_day),
        (UtcDateTime { year: 262_143, ..good }, wrong_day),
        (UtcDateTime { year: -262_144, ..good }, wrong_day),
        (UtcDateTime { year: i32::MIN, ..good }, wrong_day),
        (UtcDateTime { day: 29, hour: 24, ..good }, wrong_day),
        (UtcDateTime { hour: 24, ..good }, wrong_time),
        (UtcDateTime { minute: 60, ..good }, wrong_time),
        (UtcDateTime { second: 60, ..good }, wrong_time),
        (UtcDateTime { millisecond: 1000, ..good }, wrong_time),
        (UtcDateTime { second: 59, millisecond: 2000, ..good }, wrong_time),
    ] {
        let refusal = SatelliteError::Conversion(words.to_owned());
        assert_eq!(tracker.minutes_at(time), Err(refusal.clone()));
        assert_eq!(tracker.teme_at(time), Err(refusal.clone()));
        assert_eq!(
            tracker.position_at(time, &sine_cosine, &arc_tangent),
            Err(refusal.clone())
        );
        assert_eq!(tracker.sample_time(time, 0, 2), Err(refusal.clone()));
        assert_eq!(
            tracker.ground_track(time, 5, &sine_cosine, &arc_tangent),
            Err(refusal)
        );
    }
}

/// Every moment that chrono holds is measured as chrono measures it, leap seconds
/// among them.
#[test]
fn minutes_are_those_of_chrono() {
    let (_, line1, line2) = PRESETS[0];
    let tracker = iss_tracker();
    let elements = sgp4::Elements::from_tle(None, line1.as_bytes(), line2.as_bytes()).unwrap();
    for (year, month, day, hour, millisecond) in [
        (2026, 2, 10, 3, 1500),
        (2026, 2, 10, 23, 1999),
        (2026, 2, 5, 3, 1000),
        (1900, 3, 1, 0, 1234),
        (0, 12, 31, 5, 7),
        (-1, 2, 28, 5, 7),
        (-262_143, 1, 1, 0, 0),
        (262_142, 12, 31, 23, 1999),
        (12_000, 2, 29, 1, 1),
    ] {
        let time = UtcDateTime { year, month, day, hour, minute: 59, second: 59, millisecond };
        let moment = chrono::NaiveDate::from_ymd_opt(year, month.into(), day.into())
            .unwrap()
            .and_hms_milli_opt(hour.into(), 59, 59, millisecond.into())
            .unwrap();
        let expected = elements
            .datetime_to_minutes_since_epoch(&moment)
            .map(|minutes| minutes.0)
            .map_err(|error| SatelliteError::Conversion(error.to_string()));
        assert_eq!(tracker.minutes_at(time).map(f), expected, "{time:?}");
    }
}

/// Samples around a leap second fall where chrono puts them.
#[test]
fn samples_leave_leap_seconds() {
    let tracker = iss_tracker();
    let center = UtcDateTime {
        year: 2026,
        month: 2,
        day: 10,
        hour: 23,
        minute: 59,
        second: 59,
        millisecond: 1500,
    };
    let moment = chrono::NaiveDate::from_ymd_opt(2026, 2, 10)
        .unwrap()
        .and_hms_milli_opt(23, 59, 59, 1500)
        .unwrap();
    let half = (f(tracker.orbital_period_minutes()) * 30_000.0).round() as i64;
    for (index, offset) in [(0, -half), (1, half)] {
        let expected = moment + chrono::Duration::milliseconds(offset);
        let found = tracker.sample_time(center, index, 2).unwrap();
        let found = chrono::NaiveDate::from_ymd_opt(found.year, found.month.into(), found.day.into())
            .unwrap()
            .and_hms_milli_opt(
                found.hour.into(),
                found.minute.into(),
                found.second.into(),
                found.millisecond.into(),
            )
            .unwrap();
        assert_eq!(found, expected);
    }
    // The sample in the middle stays inside, and is no moment of the calendar.
    assert_eq!(
        tracker.sample_time(center, 1, 3),
        Err(SatelliteError::Conversion("invalid UTC time".to_owned()))
    );
    let far = UtcDateTime { year: 12_000, ..center };
    assert_eq!(
        tracker.sample_time(far, 1, 3),
        Err(SatelliteError::Conversion("invalid UTC calendar date".to_owned()))
    );
}

/// The field is asked for at any date: outside the model's years there is none.
#[test]
fn dates_that_are_none_have_no_field_or_that_of_their_day() {
    let calculator = GeomagnetismCalculator::new();
    let place = CoordinateZ::new(d(10.0), d(20.0), d(0.0)).unwrap();
    let good = date(2026, 2, 1);
    assert_eq!(result_at(&calculator, place, UtcDateTime { year: i32::MIN, ..good }), Ok(None));
    assert_eq!(result_at(&calculator, place, UtcDateTime { year: i32::MAX, ..good }), Ok(None));
    let overflowing = UtcDateTime { day: 31, ..good };
    let next = date(2026, 3, 3);
    let found = result_at(&calculator, place, overflowing).unwrap().unwrap();
    let expected = result_at(&calculator, place, next).unwrap().unwrap();
    assert_eq!((found.x, found.y, found.z), (expected.x, expected.y, expected.z));
    assert_eq!(found.date, overflowing);
}

#[test]
fn an_observation_is_all_of_one_moment() {
    let tracker = iss_tracker();
    let calculator = GeomagnetismCalculator::new();
    let time = date(2026, 3, 1);
    let position = tracker.position_at(time, &sine_cosine, &arc_tangent).unwrap();
    let below = Station {
        latitude: position.latitude,
        longitude: position.longitude,
        elevation_mask: d(10.0),
    };
    let across = Station { latitude: d(-f(position.latitude)), ..below };
    let look = |sighting: &mut Sighting, station: Station, time: UtcDateTime| {
        sighting.observe(
            &tracker,
            &calculator,
            station,
            time,
            &sine_cosine,
            &arc_tangent,
            &arc_sine,
        )
    };

    let mut sighting = Sighting::new(None);
    let elevation = elevation_deg(
        below.latitude,
        below.longitude,
        position.ecef_km,
        &sine_cosine,
        &arc_sine,
    );
    assert_eq!(look(&mut sighting, below, time), Some((Edge::Aos, elevation)));
    assert!(sighting.was_visible);
    assert_eq!(sighting.position, Some(position));
    let field = field_at(&calculator, position, time, &sine_cosine, &arc_tangent);
    assert!(field.is_some());
    assert_eq!(sighting.field, field);
    assert_eq!(sighting.error, None);
    assert_eq!(look(&mut sighting, below, time), None);

    let track =
        tracker.ground_track(time, GROUND_TRACK_SAMPLES, &sine_cosine, &arc_tangent).unwrap();
    assert_eq!(sighting.track_segments, split_dateline_segments(&track));
    assert_eq!(sighting.field_track.len(), track.len());
    let first = field_at(&calculator, track[0], time, &sine_cosine, &arc_tangent).unwrap();
    let period = f(tracker.orbital_period_minutes());
    assert_eq!(sighting.field_track[0].map(f), [-0.5 * period, f(first.total_intensity)]);

    assert!(matches!(look(&mut sighting, across, time), Some((Edge::Los, _))));
    assert!(!sighting.was_visible);

    // A moment out of reach leaves only the reason.
    look(&mut sighting, below, time);
    let gone = UtcDateTime { month: 13, ..time };
    assert_eq!(look(&mut sighting, below, gone), None);
    assert!(sighting.was_visible);
    assert_eq!(sighting.position, None);
    assert_eq!(sighting.field, None);
    assert!(sighting.track_segments.is_empty() && sighting.field_track.is_empty());
    assert_eq!(
        sighting.error.as_deref(),
        Some("time conversion error: invalid calendar date")
    );

    // Where the model does not speak, there is a position and no field.
    let early = UtcDateTime { year: 2024, ..time };
    look(&mut sighting, below, early);
    assert!(sighting.position.is_some());
    assert_eq!(sighting.field, None);
    assert!(sighting.field_track.is_empty() && !sighting.track_segments.is_empty());
}

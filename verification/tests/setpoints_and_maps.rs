use igrf::cage::{square_loop, HALF_SIDE, SEPARATION};
use igrf::contour::{contour_segments, labels, ContourSegment, MAX_LEVELS};
use igrf::double::Double;
use igrf::history::{History, HISTORY_LIMIT};
use igrf::map_grid::{MapGrid, DEFAULT_STEP, NO_STEP};
use igrf::setpoint::{
    field_from_magnitude, parse_f64, parse_setpoint_datagram, SetpointProfile, SlewLimiter,
};
use igrf::source::{
    bind_address, listening_lines, shown_port, slew_request, Commands, SetpointSource, SourceEvent,
};

fn d(value: f64) -> Double {
    Double::from_bits(value.to_bits())
}

fn f(value: Double) -> f64 {
    f64::from_bits(value.to_bits())
}

fn d3(values: [f64; 3]) -> [Double; 3] {
    values.map(d)
}

fn f3(values: [Double; 3]) -> [f64; 3] {
    values.map(f)
}

fn magnitude(value: [f64; 3]) -> f64 {
    value.iter().map(|v| v * v).sum::<f64>().sqrt()
}

#[test]
fn the_ramp_holds_direction_while_the_magnitude_climbs() {
    let mut limiter = SlewLimiter::new(d(1000.0), d3([0.0; 3]));
    limiter.command(d3([3000.0, 4000.0, 0.0]));

    let after = f3(limiter.step(d(1.0)));
    assert!((magnitude(after) - 1000.0).abs() < 1e-9);
    assert!((after[0] / after[1] - 0.75).abs() < 1e-12, "{after:?}");
    assert!(!limiter.is_settled());

    for _ in 0..4 {
        limiter.step(d(1.0));
    }
    assert!(limiter.is_settled());
    assert_eq!(f3(limiter.current()), [3000.0, 4000.0, 0.0]);
}

#[test]
fn the_ramp_never_overshoots_its_target() {
    let mut limiter = SlewLimiter::new(d(5000.0), d3([0.0; 3]));
    limiter.command(d3([10.0, 0.0, 0.0]));
    assert_eq!(f3(limiter.step(d(1.0))), [10.0, 0.0, 0.0]);
}

#[test]
fn a_non_finite_command_or_dt_leaves_the_ramp_alone() {
    let mut limiter = SlewLimiter::new(d(1000.0), d3([1.0, 2.0, 3.0]));
    limiter.command(d3([f64::NAN, 5.0, f64::INFINITY]));
    assert_eq!(f3(limiter.target()), [1.0, 5.0, 3.0]);
    assert_eq!(f3(limiter.step(d(f64::NAN))), [1.0, 2.0, 3.0]);
    assert_eq!(f3(limiter.step(d(-1.0))), [1.0, 2.0, 3.0]);
}

#[test]
fn a_snap_goes_there_at_once() {
    let mut limiter = SlewLimiter::new(d(1.0), d3([0.0; 3]));
    limiter.snap(d3([7.0, 8.0, 9.0]));
    assert!(limiter.is_settled());
    assert_eq!(f3(limiter.current()), [7.0, 8.0, 9.0]);
}

#[test]
fn a_profile_sorts_skips_comments_and_interpolates_between_rows() {
    let profile = SetpointProfile::parse(
        "time_s,bx_nt,by_nt,bz_nt\n\
         # a comment\n\
         \n\
         10,1000,0,0\n\
         0,0,0,0\n",
    )
    .unwrap();

    assert_eq!(profile.len(), 2);
    assert_eq!(f(profile.duration_s()), 10.0);
    assert_eq!(profile.sample(d(-5.0)).map(f3), Some([0.0, 0.0, 0.0]));
    assert_eq!(profile.sample(d(5.0)).map(f3), Some([500.0, 0.0, 0.0]));
    assert_eq!(profile.sample(d(99.0)).map(f3), Some([1000.0, 0.0, 0.0]));
    assert!(!profile.is_empty());
    assert!(SetpointProfile::default().sample(d(1.0)).is_none());
}

#[test]
fn a_malformed_profile_row_is_an_error_not_a_dropped_command() {
    assert!(SetpointProfile::parse("0,1,2\n").is_err());
    assert!(SetpointProfile::parse("0,1,2,3\n1,x,2,3\n").is_err());
    assert!(SetpointProfile::parse("0,1,2,NaN\n").is_err());
    assert!(SetpointProfile::parse("# only comments\n").is_err());
}

#[test]
fn only_a_heading_passes_in_first_position() {
    let unreadable = "line 1: values must be finite numbers";
    for first in ["0,1,2,NaN", "x,1,2,3", "inf,a,b,c", "0,,,", "nan,nan,nan,nan"] {
        let fault = SetpointProfile::parse(&format!("{first}\n5,1,2,3\n")).unwrap_err();
        assert_eq!(fault, unreadable, "{first}");
    }
    for first in ["time_s,bx_nt,by_nt,bz_nt", " t , x , y , z , 5", ",,,"] {
        assert_eq!(SetpointProfile::parse(&format!("{first}\n5,1,2,3\n")).unwrap().len(), 1);
        let fault = SetpointProfile::parse(&format!("5,1,2,3\n{first}\n")).unwrap_err();
        assert_eq!(fault, "line 2: values must be finite numbers");
    }
}

#[test]
fn rows_of_one_time_keep_their_order() {
    let profile = SetpointProfile::parse("5,1,0,0\n5,2,0,0\n0,3,0,0\n5,4,0,0\n").unwrap();
    let seen: Vec<f64> = profile.points.iter().map(|point| f(point.field_nt[0])).collect();
    assert_eq!(seen, vec![3.0, 1.0, 2.0, 4.0]);
}

fn sine_cosine(angle: Double) -> (Double, Double) {
    (d(f(angle).sin()), d(f(angle).cos()))
}

#[test]
fn a_magnitude_with_the_local_declination_and_inclination_round_trips() {
    let field = f3(field_from_magnitude(d(44863.2), d(-0.89), d(27.31), &sine_cosine));

    assert!((magnitude(field) - 44863.2).abs() < 1e-6);
    assert!((field[0] - 39857.9).abs() < 1.0, "{field:?}");
    assert!((field[1] - -619.4).abs() < 1.0, "{field:?}");
    assert!((field[2] - 20583.3).abs() < 1.0, "{field:?}");
}

#[test]
fn a_datagram_is_three_finite_nanotesla_components() {
    assert_eq!(
        parse_setpoint_datagram(b"39858,-619,20583\n").map(f3),
        Some([39858.0, -619.0, 20583.0])
    );
    assert_eq!(
        parse_setpoint_datagram(b" 1.5 , 2.5 , 3.5 , extra ").map(f3),
        Some([1.5, 2.5, 3.5])
    );
    assert_eq!(parse_setpoint_datagram(b"1,2"), None);
    assert_eq!(parse_setpoint_datagram(b"1,2,nan"), None);
    assert_eq!(parse_setpoint_datagram(b"hello"), None);
    assert_eq!(parse_setpoint_datagram(&[0xFF, 0xFE]), None);
    assert_eq!(
        parse_setpoint_datagram("1,2,3,\u{b5}T".as_bytes()).map(f3),
        Some([1.0, 2.0, 3.0])
    );
}

#[test]
fn typed_numbers_are_named_in_their_errors() {
    assert_eq!(parse_f64(" -2.5e3 ", "Gain").map(f), Ok(-2500.0));
    assert!(parse_f64("x", "Gain").unwrap_err().contains("Gain"));
    assert!(parse_f64("inf", "Gain").is_err());
}

#[test]
fn square_loop_is_closed_and_flat_on_its_normal() {
    for axis in 0..3 {
        let points = square_loop(axis, d(0.25), d(1.0));
        assert_eq!(points[0], points[4], "loop must close");
        for point in points {
            assert_eq!(f(point[axis]), 0.25, "loop must stay on its normal offset");
        }
    }
}

#[test]
fn the_cage_has_its_proportions() {
    assert_eq!(HALF_SIDE.map(f64::from_bits), [0.86, 0.72, 1.0]);
    assert_eq!(f64::from_bits(SEPARATION), 0.5445);
    let points = square_loop(2, d(0.5), d(2.0)).map(f3);
    let corners: Vec<(f64, f64)> = points.iter().map(|p| (p[0].abs(), p[1].abs())).collect();
    assert_eq!(corners, vec![(2.0, 2.0); 5]);
}

fn commands() -> Commands {
    Commands {
        slew: SlewLimiter::new(d(100.0), d3([0.0; 3])),
        source: SetpointSource::Manual,
        profile: None,
        playing: false,
        last_command: None,
    }
}

#[test]
fn only_the_live_source_commands() {
    let second = 1_000_000_000_u128;
    let mut held = commands();
    assert_eq!(
        held.poll(d(0.0), true, Some(d3([1.0; 3])), 0),
        SourceEvent::Nothing
    );
    assert_eq!(f3(held.slew.target()), [0.0; 3]);

    held.source = SetpointSource::Socket;
    held.listens(0);
    assert_eq!(
        held.poll(d(0.0), true, Some(d3([10.0, 20.0, 30.0])), second),
        SourceEvent::Nothing
    );
    assert_eq!(f3(held.slew.target()), [10.0, 20.0, 30.0]);
    assert_eq!(held.poll(d(0.0), true, None, 11 * second), SourceEvent::Nothing);
    assert_eq!(
        held.poll(d(0.0), true, None, 11 * second + 1),
        SourceEvent::Silent
    );
    assert_eq!(f3(held.slew.target()), [0.0; 3]);
    assert_eq!(
        held.poll(d(0.0), true, None, 99 * second),
        SourceEvent::Nothing
    );
    held.stops_listening();
}

#[test]
fn a_profile_plays_to_its_end() {
    let mut held = commands();
    held.source = SetpointSource::Profile;
    held.load_profile(SetpointProfile::parse("0,0,0,0\n4,40,0,0\n").unwrap());
    held.playing = true;
    assert_eq!(held.poll(d(2.0), false, None, 0), SourceEvent::Nothing);
    assert_eq!(f3(held.slew.target()), [20.0, 0.0, 0.0]);
    assert_eq!(held.poll(d(4.5), false, None, 0), SourceEvent::ProfileFinished);
    assert_eq!(f3(held.slew.target()), [40.0, 0.0, 0.0]);
    assert!(!held.playing);
    assert_eq!(f3(held.advance(d(10.0), d(1.0))), [10.0, 0.0, 0.0]);
    held.command_by_hand(d3([1.0, 2.0, 3.0]));
    assert_eq!(f3(held.slew.target()), [1.0, 2.0, 3.0]);
    held.reset();
    assert_eq!(f3(held.slew.current()), [0.0; 3]);
}

#[test]
fn sources_describe_themselves() {
    assert_eq!(SetpointSource::Manual.label(), "Manual");
    assert_eq!(SetpointSource::Profile.label(), "CSV profile");
    assert_eq!(SetpointSource::Socket.label(), "UDP socket");
    assert_eq!(bind_address("  "), "127.0.0.1");
    assert_eq!(bind_address(" 0.0.0.0 "), "0.0.0.0");
    assert_eq!(shown_port(0), "5005");
    assert_eq!(shown_port(6000), "6000");
    assert!(listening_lines("127.0.0.1", 5005, true).1.is_none());
    assert!(listening_lines("0.0.0.0", 5005, false).1.is_some());
    assert_eq!(slew_request("250").map(f), Ok(250.0));
    assert!(slew_request("0").is_err());
    assert!(slew_request("-1").is_err());
    assert!(slew_request("much").is_err());
}

fn lines(rows: usize, columns: usize) -> Vec<String> {
    (0..rows)
        .map(|row| {
            (0..columns)
                .map(|column| format!("{}", row * 1000 + column))
                .collect::<Vec<_>>()
                .join(",")
        })
        .collect()
}

#[test]
fn grids_are_thinned_and_turned() {
    let grid = MapGrid::from_lines(&lines(180, 360), DEFAULT_STEP).unwrap();
    assert_eq!(grid.latitudes.len(), 90);
    assert_eq!(grid.longitudes.len(), 180);
    assert_eq!(f(grid.latitudes[1]), -88.0);
    assert_eq!(f(grid.longitudes[179]), 178.0);
    assert_eq!(f(grid.data[3][5]), 10_006.0);
    let short = MapGrid::from_lines(
        &vec!["1,,2, x ,3.5".to_owned(), String::new()],
        1,
    )
    .unwrap();
    assert_eq!(f(short.data[0][0]), 1.0);
    assert_eq!(f(short.data[1][0]), 2.0);
    assert_eq!(f(short.data[2][0]), 0.0);
    assert_eq!(f(short.data[3][0]), 3.5);
    assert_eq!(f(short.data[4][0]), 0.0);
    assert_eq!(MapGrid::from_lines(&Vec::new(), 0), Err(NO_STEP.to_owned()));
}

fn grid_of(values: &[&[f64]]) -> MapGrid {
    MapGrid {
        latitudes: (0..values[0].len()).map(|row| d(row as f64)).collect(),
        longitudes: (0..values.len()).map(|column| d(column as f64)).collect(),
        data: values.iter().map(|column| column.iter().map(|value| d(*value)).collect()).collect(),
        step: 1,
    }
}

#[test]
fn a_level_is_traced_where_it_lies() {
    // Rising to the right by two per cell: the line of level 1 is upright.
    let grid = grid_of(&[&[0.0, 0.0], &[2.0, 2.0]]);
    let segments = contour_segments(&grid, d(1.0));
    let seen: Vec<(f64, [f64; 2], [f64; 2])> = segments
        .iter()
        .map(|one: &ContourSegment| (f(one.level), one.start.map(f), one.end.map(f)))
        .collect();
    assert_eq!(
        seen,
        vec![
            (1.0, [0.5, 0.0], [0.5, 1.0]),
            (2.0, [1.0, 0.0], [1.0, 1.0]),
        ]
    );
    // Values past the last longitude and latitude only count for the range.
    let mut spare = grid_of(&[&[0.0, 0.0, 0.5], &[2.0, 2.0, 0.5], &[1.0, 1.0, 1.0]]);
    spare.latitudes.pop();
    spare.longitudes.pop();
    assert_eq!(contour_segments(&spare, d(1.0)), segments);
}

#[test]
fn a_saddle_is_told_by_its_middle() {
    let low = contour_segments(&grid_of(&[&[2.0, 0.0], &[0.0, 2.0]]), d(1.5));
    assert_eq!(low.len(), 2);
    // The mean is 1: the two high corners are cut off from each other.
    assert_eq!(low[0].start.map(f), [0.0, 0.25]);
    assert_eq!(low[0].end.map(f), [0.25, 0.0]);
    let high = contour_segments(&grid_of(&[&[4.0, 0.0], &[0.0, 4.0]]), d(1.5));
    assert_eq!(high[0].start.map(f), [0.0, 0.625]);
    assert_eq!(high[0].end.map(f), [0.375, 1.0]);
}

#[test]
fn no_level_is_traced_without_a_range_or_a_step() {
    let grid = grid_of(&[&[0.0, 0.0], &[2.0, 2.0]]);
    assert!(contour_segments(&grid, d(0.0)).is_empty());
    assert!(contour_segments(&grid, d(-1.0)).is_empty());
    assert!(contour_segments(&grid, d(f64::NAN)).is_empty());
    assert!(contour_segments(&grid_of(&[&[1.0, 1.0], &[1.0, 1.0]]), d(1.0)).is_empty());
    assert!(contour_segments(&grid_of(&[&[1.0, 2.0]]), d(1.0)).is_empty());
    assert_eq!(contour_segments(&grid, d(0.001)).len(), MAX_LEVELS - 1);
}

#[test]
fn each_level_is_labelled_once() {
    let grid = grid_of(&[&[0.0, 0.0, 0.0], &[2.0, 2.0, 2.0], &[4.0, 4.0, 4.0]]);
    let segments = contour_segments(&grid, d(1.0));
    let marked = labels(&segments);
    let levels: Vec<f64> = marked.iter().map(|one| f(one.0)).collect();
    let mut sorted = levels.clone();
    sorted.sort_by(|left, right| left.partial_cmp(right).unwrap());
    sorted.dedup();
    assert_eq!(levels.len(), sorted.len());
    assert_eq!(sorted, vec![1.0, 2.0, 3.0, 4.0]);
}

#[test]
fn a_plot_forgets_its_oldest_points() {
    let mut history = History::default();
    for i in 0..HISTORY_LIMIT + 7 {
        history.push(d(i as f64), d(0.0));
    }
    assert_eq!(history.points.len(), HISTORY_LIMIT);
    assert_eq!(f(history.points[0][0]), 7.0);
    history.clear();
    assert!(history.points.is_empty());
}

use igrf::controller::{controller_command, ControllerReplyCounter};
use igrf::double::Double;
use igrf::links::{
    controller_reconnect_is_due, handshake_is_due, parse_baud, parse_tcp_port, request_magson,
    request_serial, sensor_reconnect_is_due, stable_first, LinkState, LinkStats, SensorClock,
};
use igrf::magson::{parse_magson_frame, MagsonFrameParser, MagsonSample, MAGSON_FRAME_SIZE};
use igrf::netcfg::network_manager::{self, parse_terse};
use igrf::netcfg::{
    apply_dhcp, apply_static, power_shell, print_ipv4, read_ipv4, unsupported, validate_cidr,
    LanProfile,
};
use igrf::serial::{read_len, SensorFrameParser, BUFFER_LIMIT, SENSOR_PACKET_SIZE};

fn d(value: f64) -> Double {
    Double::from_bits(value.to_bits())
}

fn sample(bx: f64, by: f64, bz: f64) -> MagsonSample {
    MagsonSample { bx: d(bx), by: d(by), bz: d(bz) }
}

#[test]
fn transport_writes_the_same_packet_without_owning_a_timer() {
    let bytes = controller_command(d(1.0), d(2.0), d(3.0)).unwrap();
    assert_eq!(bytes.len(), 15);
    assert_eq!(bytes[0], 0xA0);
}

#[test]
fn a_reply_split_across_reads_is_still_counted_once() {
    let mut counter = ControllerReplyCounter::default();
    assert_eq!(counter.feed(b"Err"), 0);
    assert_eq!(counter.feed(b"or\r"), 1);
    assert_eq!(counter.feed(b"Error\rError\r"), 2);
}

#[test]
fn noise_between_replies_neither_counts_nor_accumulates() {
    let mut counter = ControllerReplyCounter::default();
    assert_eq!(counter.feed(&[0xFF; 4096]), 0);
    assert_eq!(counter.feed(b"junkError\rjunk"), 1);
    assert_eq!(counter.feed(b"Error"), 0);
    assert_eq!(counter.feed(b"xError\r"), 1);
}

#[test]
fn a_reset_forgets_half_a_reply() {
    let mut counter = ControllerReplyCounter::default();
    counter.feed(b"Err");
    counter.reset();
    assert_eq!(counter.feed(b"or\r"), 0);
}

#[test]
fn transport_rejects_non_finite_outputs_before_writing() {
    let mut bytes: Vec<u8> = Vec::new();
    let command = controller_command(d(f64::NAN), d(2.0), d(3.0));
    assert_eq!(command, Err("controller outputs must be finite".to_owned()));
    if let Ok(packet) = command {
        bytes.extend_from_slice(&packet);
    }
    assert!(bytes.is_empty());
}

fn frame(data_type: i32, bx: f32, by: f32, bz: f32) -> [u8; MAGSON_FRAME_SIZE] {
    let mut frame = [0_u8; MAGSON_FRAME_SIZE];
    frame[0..4].copy_from_slice(&data_type.to_le_bytes());
    frame[48..52].copy_from_slice(&bx.to_le_bytes());
    frame[52..56].copy_from_slice(&by.to_le_bytes());
    frame[56..60].copy_from_slice(&bz.to_le_bytes());
    frame
}

#[test]
fn parser_handles_fragmented_fixed_frames_and_ignores_other_types() {
    let first = frame(1, 1.25, -2.5, 3.75);
    let second = frame(2, 9.0, 9.0, 9.0);
    let mut parser = MagsonFrameParser::default();
    assert!(parser.feed(&first[..20]).is_empty());
    let mut rest = first[20..].to_vec();
    rest.extend_from_slice(&second);
    assert_eq!(parser.feed(&rest), vec![sample(1.25, -2.5, 3.75)]);
    assert_eq!(parser.buffered_len(), 0);
}

#[test]
fn a_stream_that_loses_one_byte_recovers_instead_of_ending() {
    let mut parser = MagsonFrameParser::default();
    let good = frame(1, 1.0, 2.0, 3.0);
    assert_eq!(parser.feed(&good).len(), 1);

    let mut stream = good[1..].to_vec();
    for _ in 0..8 {
        stream.extend_from_slice(&good);
    }
    let samples = parser.feed(&stream);

    assert!(
        samples.len() >= 4,
        "expected the stream to realign, got {} samples",
        samples.len()
    );
    assert!(parser.dropped() > 0, "the discarded windows must be counted");
    assert!(samples.iter().all(|seen| *seen == sample(1.0, 2.0, 3.0)));
}

#[test]
fn a_few_foreign_frames_do_not_trigger_a_resync() {
    let mut parser = MagsonFrameParser::default();
    let mut stream = Vec::new();
    for _ in 0..3 {
        stream.extend_from_slice(&frame(2, 9.0, 9.0, 9.0));
    }
    stream.extend_from_slice(&frame(1, 4.0, 5.0, 6.0));

    assert_eq!(parser.feed(&stream), vec![sample(4.0, 5.0, 6.0)]);
    assert_eq!(parser.dropped(), 3);
    assert_eq!(parser.buffered_len(), 0, "alignment must have been kept");
}

#[test]
fn standalone_parser_requires_exactly_72_bytes_and_uses_little_endian_offsets() {
    let frame = frame(1, 10.0, 20.0, 30.0);
    let seen = parse_magson_frame(&frame).unwrap();
    let _: f64 = f64::from_bits(seen.bx.to_bits());
    assert_eq!(seen, sample(10.0, 20.0, 30.0));
    assert_eq!(parse_magson_frame(&frame[..71]), None);
    assert_eq!(parse_magson_frame(&[0; 72]), None);
}

#[test]
fn cuts_in_the_stream_do_not_change_the_samples() {
    let mut whole = MagsonFrameParser::default();
    let mut cut = MagsonFrameParser::default();
    let mut stream = Vec::new();
    for value in 0..4 {
        stream.extend_from_slice(&frame(1, value as f32, 0.5, -0.5));
    }
    let expected = whole.feed(&stream);
    let mut seen = Vec::new();
    for piece in stream.chunks(13) {
        seen.extend(cut.feed(piece));
    }
    assert_eq!(seen, expected);
    assert_eq!(seen.len(), 4);
    cut.feed(&stream[..5]);
    cut.reset();
    assert_eq!(cut.buffered_len(), 0);
}

const PACKET: [u8; SENSOR_PACKET_SIZE] = [1, 2, 3, 4, 5, 6, 0x0D];

#[test]
fn handshake_can_be_split_and_packet_requires_cr_framing() {
    let mut parser = SensorFrameParser::default();
    assert!(parser.feed(b"noiseO").is_empty());
    assert!(parser.feed(b"K").is_empty());
    assert!(parser.is_sensor_ready());
    assert!(parser.feed(&PACKET[..3]).is_empty());
    assert_eq!(parser.feed(&PACKET[3..]), vec![PACKET.to_vec()]);
}

#[test]
fn handshake_and_data_in_one_read_are_deferred_one_pass() {
    let mut parser = SensorFrameParser::default();
    let mut input = b"OK".to_vec();
    input.extend_from_slice(&PACKET);

    assert!(parser.feed(&input).is_empty());
    assert_eq!(parser.feed(&[]), vec![PACKET.to_vec()]);
}

#[test]
fn invalid_prefix_resynchronizes_one_byte_at_a_time() {
    let mut parser = SensorFrameParser::default();
    parser.feed(b"OK");
    let mut input = vec![0x99];
    input.extend_from_slice(&PACKET);

    assert_eq!(parser.feed(&input), vec![PACKET.to_vec()]);
}

#[test]
fn overflow_clears_buffer_and_disconnect_resets_handshake() {
    let mut parser = SensorFrameParser::default();
    assert!(parser.feed(&vec![0_u8; BUFFER_LIMIT + 1]).is_empty());
    assert_eq!(parser.buffered_len(), 0);
    parser.feed(b"OK");
    assert!(parser.is_sensor_ready());
    parser.reset();
    assert!(!parser.is_sensor_ready());
    assert_eq!(parser.buffered_len(), 0);
}

#[test]
fn reads_take_what_is_there_up_to_a_chunk() {
    assert_eq!(read_len(12), 12);
    assert_eq!(read_len(1_000_000), 4096);
}

#[test]
fn cidr_needs_a_prefix_and_a_usable_address() {
    assert_eq!(validate_cidr(" 192.168.1.50/24 ").unwrap(), ([192, 168, 1, 50], 24));
    assert!(validate_cidr("192.168.1.50").is_err());
    assert!(validate_cidr("192.168.1.999/24").is_err());
    assert!(validate_cidr("192.168.1.50/33").is_err());
    assert!(validate_cidr("192.168.1.50/0").is_err());
    assert!(validate_cidr("127.0.0.1/8").is_err());
    assert!(validate_cidr("0.0.0.0/24").is_err());
}

fn profile(device: &str, carries_default_route: bool) -> LanProfile {
    LanProfile {
        device: device.to_owned(),
        profile: "office".to_owned(),
        method: "auto".to_owned(),
        addresses: String::new(),
        carries_default_route,
    }
}

#[test]
fn the_default_route_interface_is_never_reconfigured() {
    let uplink = LanProfile {
        device: "wlan0".to_owned(),
        profile: "office".to_owned(),
        method: "auto".to_owned(),
        addresses: String::new(),
        carries_default_route: true,
    };
    assert!(apply_static(&uplink, "192.168.1.50/24").is_err());
    assert!(apply_dhcp(&uplink).is_err());
}

#[test]
fn other_interfaces_are_reconfigured() {
    let lab = profile("enp3s0", false);
    let change = apply_static(&lab, "10.0.0.7/16").unwrap();
    assert_eq!(change.address, [10, 0, 0, 7]);
    assert_eq!(change.prefix, 16);
    assert!(apply_dhcp(&lab).is_ok());
    assert!(apply_static(&lab, "10.0.0.7").is_err());
}

#[test]
fn terse_rows_keep_escaped_colons_inside_a_field() {
    assert_eq!(
        parse_terse("enp0s31f6:ethernet:Wired connection 1\n"),
        vec![vec![
            "enp0s31f6".to_owned(),
            "ethernet".to_owned(),
            "Wired connection 1".to_owned()
        ]]
    );
    assert_eq!(
        parse_terse("wlan0:wifi:LUNAR\\:iot2"),
        vec![vec![
            "wlan0".to_owned(),
            "wifi".to_owned(),
            "LUNAR:iot2".to_owned()
        ]]
    );
}

#[test]
fn addresses_read_back_as_they_are_printed() {
    for address in [[0, 0, 0, 0], [192, 168, 124, 41], [255, 255, 255, 255]] {
        let printed = print_ipv4(&address);
        let characters: Vec<char> = printed.chars().collect();
        assert_eq!(read_ipv4(&characters), Some(address));
    }
    let characters: Vec<char> = "1.2.3".chars().collect();
    assert_eq!(read_ipv4(&characters), None);
}

#[test]
fn only_wired_profiles_are_listed() {
    let wired = network_manager::wired_devices(
        "enp3s0:ethernet:Lab\nwlan0:wifi:Office\nenp4s0:ethernet:--\n",
    );
    assert_eq!(wired.len(), 1);
    let details = vec![Some("ipv4.method:manual\nipv4.addresses:10.0.0.2/24\n".to_owned())];
    let default = network_manager::default_route_device(
        "Iface\tDestination\tGateway\nenp3s0\t00000000\t0101A8C0\n",
    );
    assert_eq!(default.as_deref(), Some("enp3s0"));
    let profiles = network_manager::list_wired(&wired, &details, &default);
    assert_eq!(profiles.len(), 1);
    assert_eq!(profiles[0].addresses, "10.0.0.2/24");
    assert_eq!(profiles[0].method, "manual");
    assert!(profiles[0].carries_default_route);
    assert_eq!(network_manager::failure("  ", "exit status: 4"), "nmcli failed with exit status: 4");
    assert_eq!(network_manager::failure(" no such device\n", "x"), "no such device");
}

#[test]
fn other_platforms_quote_or_refuse() {
    assert_eq!(power_shell::quote("it's"), "'it''s'");
    let profiles = power_shell::list_wired("Lab\tmanual\t10.0.0.2/24\nbroken\n", &None);
    assert_eq!(profiles.len(), 1);
    assert_eq!(profiles[0].device, "Lab");
    assert!(unsupported::list_wired().is_empty());
    assert!(unsupported::set_dhcp(&profiles[0]).is_err());
    assert!(unsupported::set_static(&profiles[0], &[10, 0, 0, 2], 24).is_err());
}

#[test]
fn rates_and_ports_are_whole_numbers_above_zero() {
    assert_eq!(parse_baud(" 9600 "), Ok(9600));
    assert_eq!(parse_baud("0"), Err("must be greater than zero".to_owned()));
    assert_eq!(parse_baud("fast"), Err("must be a positive integer".to_owned()));
    assert_eq!(parse_tcp_port("65535"), Ok(65535));
    assert_eq!(
        parse_tcp_port("65536"),
        Err("must be an integer from 1 to 65535".to_owned())
    );
    assert_eq!(parse_tcp_port("0"), Err("must be greater than zero".to_owned()));
    assert_eq!(
        request_serial("Sensor", " COM3 ", "9600"),
        Ok(("COM3".to_owned(), 9600))
    );
    assert_eq!(
        request_serial("Sensor", "  ", "9600"),
        Err("Sensor port is empty".to_owned())
    );
    assert_eq!(
        request_serial("Sensor", "COM3", "x"),
        Err("Sensor baud: must be a positive integer".to_owned())
    );
    assert_eq!(
        request_magson("10.0.0.9", "12"),
        Ok(("10.0.0.9".to_owned(), 12))
    );
    assert_eq!(request_magson(" ", "12"), Err("Magson IP/host is empty".to_owned()));
}

#[test]
fn an_unchanging_sensor_ages() {
    let mut clock = SensorClock::default();
    assert_eq!(clock.sensor_age(5, 5), None);
    assert_eq!(clock.sensor_change_age(5), None);
    clock.packet(1_000, 1_000, [d(1.0), d(2.0), d(3.0)]);
    // One packet tells nothing of a change, but it starts the clock.
    assert_eq!(clock.sensor_age(2_000, 2_000), Some(1_000));
    assert_eq!(clock.sensor_change_age(8_000), None);
    clock.packet(9_000, 9_000, [d(1.0), d(2.0), d(3.0)]);
    assert_eq!(clock.sensor_age(10_000, 10_000), Some(1_000));
    assert_eq!(clock.sensor_change_age(10_000), Some(9_000));
    clock.packet(11_000, 11_000, [d(1.0), d(2.5), d(3.0)]);
    assert_eq!(clock.sensor_change_age(12_000), Some(1_000));
    // A wall clock that ran on while the other stood still counts.
    assert_eq!(clock.sensor_age(11_500, 99_000), Some(88_000));
}

#[test]
fn reconnects_wait_their_turn() {
    let second = 1_000_000_000_u128;
    assert!(handshake_is_due(false, None, 0));
    assert!(!handshake_is_due(true, None, 0));
    assert!(!handshake_is_due(false, Some(0), second / 4));
    assert!(sensor_reconnect_is_due(true, None, None, 0));
    assert!(!sensor_reconnect_is_due(true, Some(second), None, 0));
    assert!(!sensor_reconnect_is_due(true, Some(16 * second), Some(0), second));
    assert!(controller_reconnect_is_due(true, false, None, 0));
    assert!(!controller_reconnect_is_due(true, true, None, 0));
    assert_eq!(LinkState::from_open(true), LinkState::On);
    assert_eq!(LinkState::from_open(false), LinkState::Off);
    assert_eq!(LinkState::of_sensor(true, false, None), LinkState::Wait);
}

#[test]
fn the_first_rejection_of_a_connection_is_reported() {
    let mut stats = LinkStats::default();
    stats.written();
    assert!(!stats.rejections(0));
    assert!(stats.rejections(2));
    assert!(!stats.rejections(1));
    assert_eq!((stats.sent, stats.rejected), (1, 3));
}

#[test]
fn stable_names_come_before_kernel_names() {
    assert_eq!(
        stable_first(
            &vec!["/by-id/b".to_owned(), "/by-id/a".to_owned()],
            &vec!["ttyUSB1".to_owned(), "ttyUSB0".to_owned()],
        ),
        vec!["/by-id/a", "/by-id/b", "ttyUSB1", "ttyUSB0"]
    );
}

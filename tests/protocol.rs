use encoder_protocol::{
    compute_checksum, create_reset_packet, create_sensor_packet, decode_packet, parse_line,
    serialize_packet, DecodeError, Packet, ResetCommand, SensorDataPacket,
};

#[test]
fn test_packet_serialization() {
    let original = SensorDataPacket {
        seq: 42,
        encoders: [1, -2, 3, -4, 5, -6, 7, -8],
    };
    let packet = Packet::SensorData(original);

    let serialized = serialize_packet(&packet);
    assert_eq!(serialized.as_str(), "$42:1,-2,3,-4,5,-6,7,-8*18\n");
}

#[test]
fn test_compute_checksum() {
    assert_eq!(compute_checksum("123:1,-2,3,-4,5,-6,7,-8"), 0x2E);
    assert_eq!(compute_checksum("RST:3"), 0x5C);
}

#[test]
fn test_serialize_sensor_data() {
    let original = SensorDataPacket::new(123, [1, -2, 3, -4, 5, -6, 7, -8]);
    let packet = Packet::SensorData(original);

    let serialized = serialize_packet(&packet);
    assert_eq!(serialized.as_str(), "$123:1,-2,3,-4,5,-6,7,-8*2E\n");
}

#[test]
fn test_serialize_reset_command() {
    let packet = Packet::Reset(ResetCommand::single(3));

    let serialized = serialize_packet(&packet);
    assert_eq!(serialized.as_str(), "$RST:3*5C\n");
}

#[test]
fn test_parse_line() {
    let line = "$123:1,-2,3,-4,5,-6,7,-8*2E";
    let (seq, counts) = parse_line(line).unwrap();
    assert_eq!(seq, 123);
    assert_eq!(counts, [1, -2, 3, -4, 5, -6, 7, -8]);
}

#[test]
fn test_parse_corrupt_line() {
    assert!(parse_line("bad_data").is_none());
    assert!(parse_line("$123:0,1,2,abc,4,5,6,7*XX").is_none());
    assert!(parse_line("$123:0,1,2,3,4,5,6,7*00").is_none());
    assert!(parse_line("123:0,1,2,3,4,5,6,7").is_none());
}

#[test]
fn checksum_of_empty_and_single_byte() {
    assert_eq!(compute_checksum(""), 0);
    assert_eq!(compute_checksum("A"), 0x41);
    assert_eq!(compute_checksum("AA"), 0);
}

#[test]
fn decode_valid_frame_with_newline() {
    let p = decode_packet("$123:1,-2,3,-4,5,-6,7,-8*2E\n").unwrap();
    assert_eq!(
        p,
        Packet::SensorData(SensorDataPacket { seq: 123, encoders: [1, -2, 3, -4, 5, -6, 7, -8] })
    );
}

#[test]
fn decode_ignores_text_before_start_marker() {
    let (seq, counts) = parse_line("noise$42:1,-2,3,-4,5,-6,7,-8*18\r\n").unwrap();
    assert_eq!(seq, 42);
    assert_eq!(counts, [1, -2, 3, -4, 5, -6, 7, -8]);
}

#[test]
fn decode_error_variants() {
    assert_eq!(decode_packet("123:1*00"), Err(DecodeError::MalformedFrame));
    assert_eq!(decode_packet("$123:1,2"), Err(DecodeError::MalformedFrame));
    assert_eq!(decode_packet("$RST:3*5"), Err(DecodeError::MalformedChecksum));
    assert_eq!(decode_packet("$RST:3*G1"), Err(DecodeError::MalformedChecksum));
    assert_eq!(decode_packet("$RST:3*5D"), Err(DecodeError::ChecksumMismatch));
    assert_eq!(decode_packet("$RST*55"), Err(DecodeError::MalformedPayload));
}

#[test]
fn decode_lowercase_checksum() {
    assert_eq!(decode_packet("$RST:3*5c"), Ok(Packet::Reset(ResetCommand { encoder_id: 3 })));
}

#[test]
fn decode_fewer_than_eight_fields_fails() {
    let payload = "1:1,2,3,4,5,6,7";
    let line = format!("${}*{:02X}", payload, compute_checksum(payload));
    assert_eq!(decode_packet(&line), Err(DecodeError::MalformedPayload));
}

#[test]
fn decode_extra_fields_are_ignored() {
    let payload = "7:1,2,3,4,5,6,7,8,9";
    let line = format!("${}*{:02X}", payload, compute_checksum(payload));
    assert_eq!(parse_line(&line), Some((7, [1, 2, 3, 4, 5, 6, 7, 8])));
}

#[test]
fn decode_out_of_range_count_fails() {
    let payload = "7:1,2,3,4,5,6,7,2147483648";
    let line = format!("${}*{:02X}", payload, compute_checksum(payload));
    assert_eq!(decode_packet(&line), Err(DecodeError::MalformedPayload));
}

#[test]
fn round_trip_extreme_values() {
    let packet = create_sensor_packet(
        u32::MAX,
        [i32::MIN, i32::MAX, 0, -1, 1, 1000000, -999999, 7],
    );
    let frame = serialize_packet(&packet);
    assert_eq!(decode_packet(frame.as_str()), Ok(packet));
}

#[test]
fn round_trip_other_messages() {
    let packets = [
        create_reset_packet(255),
        Packet::Ping { timestamp: 0 },
        Packet::Pong { timestamp: 4000000000 },
    ];
    for p in packets.iter() {
        let frame = serialize_packet(p);
        assert_eq!(decode_packet(frame.as_str()), Ok(*p));
    }
}

#[test]
fn serialize_ping_and_pong() {
    assert_eq!(serialize_packet(&Packet::Ping { timestamp: 7 }).as_str(), "$PING:7*1D\n");
    assert_eq!(serialize_packet(&Packet::Pong { timestamp: 7 }).as_str(), "$PONG:7*1B\n");
}

#[test]
fn parse_line_rejects_reset_frame() {
    assert!(parse_line("$RST:3*5C").is_none());
}

use rscon::codec::{
    decode_frame, decode_payload, encode_packet, frame_size, push_i32_le, read_i32_le, Malformed,
    RconError, Violation,
};

fn size_field(bytes: &[u8]) -> i32 {
    i32::from_le_bytes([bytes[0], bytes[1], bytes[2], bytes[3]])
}

#[test]
fn encode_login_packet_bytes() {
    let bytes = encode_packet(1, 3, "pw").unwrap();
    assert_eq!(bytes, vec![12, 0, 0, 0, 1, 0, 0, 0, 3, 0, 0, 0, b'p', b'w', 0, 0]);
}

#[test]
fn encode_empty_marker_bytes() {
    let bytes = encode_packet(-1, 0, "").unwrap();
    assert_eq!(
        bytes,
        vec![10, 0, 0, 0, 0xff, 0xff, 0xff, 0xff, 0, 0, 0, 0, 0, 0]
    );
}

#[test]
fn size_field_counts_remaining_bytes() {
    for body in ["", "a", "status", "héllo ✓", "x".repeat(4000).as_str()] {
        let bytes = encode_packet(7, 2, body).unwrap();
        assert_eq!(bytes.len(), 14 + body.len());
        assert_eq!(size_field(&bytes) as usize, bytes.len() - 4);
    }
}

#[test]
fn round_trip_keeps_id_type_and_body() {
    let cases: [(i32, i32, &str); 5] = [
        (1, 3, "secret"),
        (-1, 0, ""),
        (i32::MIN, i32::MAX, "héllo ✓ 日本"),
        (i32::MAX, i32::MIN, "line\nbreak"),
        (42, 2, "say hi"),
    ];
    for (id, typ, body) in cases {
        let bytes = encode_packet(id, typ, body).unwrap();
        let (p, n) = decode_frame(&bytes, 0).unwrap();
        assert_eq!(p.id, id);
        assert_eq!(p.typ, typ);
        assert_eq!(p.body, body);
        assert_eq!(n, bytes.len());
    }
}

#[test]
fn decode_frame_stops_at_the_packet_end() {
    let mut bytes = vec![9, 9];
    bytes.extend(encode_packet(5, 0, "first").unwrap());
    bytes.extend(encode_packet(6, 0, "second").unwrap());
    let (p, n) = decode_frame(&bytes, 2).unwrap();
    assert_eq!((p.id, p.body.as_str(), n), (5, "first", 19));
    let (q, m) = decode_frame(&bytes, 2 + n).unwrap();
    assert_eq!((q.id, q.body.as_str(), m), (6, "second", 20));
}

#[test]
fn decode_payload_too_short() {
    let payload = [1u8, 0, 0, 0, 0, 0, 0, 0, 0];
    assert_eq!(
        decode_payload(&payload).unwrap_err(),
        RconError::MalformedPacket(Malformed::TooShort)
    );
    assert_eq!(
        decode_payload(&[]).unwrap_err(),
        RconError::MalformedPacket(Malformed::TooShort)
    );
}

#[test]
fn decode_payload_bad_terminator() {
    let payload = [1u8, 0, 0, 0, 0, 0, 0, 0, b'a', 0, 1];
    assert_eq!(
        decode_payload(&payload).unwrap_err(),
        RconError::MalformedPacket(Malformed::BadTerminator)
    );
    let payload = [1u8, 0, 0, 0, 0, 0, 0, 0, 7, 0];
    assert_eq!(
        decode_payload(&payload).unwrap_err(),
        RconError::MalformedPacket(Malformed::BadTerminator)
    );
}

#[test]
fn decode_payload_invalid_utf8() {
    let payload = [1u8, 0, 0, 0, 0, 0, 0, 0, 0xff, 0xfe, 0, 0];
    assert_eq!(
        decode_payload(&payload).unwrap_err(),
        RconError::MalformedPacket(Malformed::InvalidUtf8)
    );
}

#[test]
fn decode_payload_minimal_and_text() {
    let p = decode_payload(&[2u8, 1, 0, 0, 0, 0, 0, 0, 0, 0]).unwrap();
    assert_eq!((p.id, p.typ, p.body.as_str()), (258, 0, ""));
    let mut payload = vec![0xffu8, 0xff, 0xff, 0xff, 2, 0, 0, 0];
    payload.extend("héllo".as_bytes());
    payload.extend([0, 0]);
    let p = decode_payload(&payload).unwrap();
    assert_eq!((p.id, p.typ, p.body.as_str()), (-1, 2, "héllo"));
}

#[test]
fn frame_size_checks_bounds() {
    assert_eq!(frame_size(&[10, 0, 0, 0]), Ok(10));
    assert_eq!(frame_size(&[0, 1, 0, 0]), Ok(256));
    assert_eq!(
        frame_size(&[9, 0, 0, 0]),
        Err(RconError::MalformedPacket(Malformed::TooShort))
    );
    assert_eq!(
        frame_size(&[0xff, 0xff, 0xff, 0xff]),
        Err(RconError::ProtocolViolation(Violation::BadSize))
    );
    assert_eq!(
        frame_size(&i32::MIN.to_le_bytes()),
        Err(RconError::ProtocolViolation(Violation::BadSize))
    );
    assert_eq!(
        frame_size(&i32::MAX.to_le_bytes()),
        Ok(i32::MAX as usize)
    );
}

#[test]
fn decode_frame_truncated() {
    let bytes = encode_packet(1, 0, "abc").unwrap();
    assert_eq!(decode_frame(&bytes[..3], 0).unwrap_err(), RconError::Truncated);
    assert_eq!(
        decode_frame(&bytes[..bytes.len() - 1], 0).unwrap_err(),
        RconError::Truncated
    );
    assert_eq!(decode_frame(&bytes, bytes.len()).unwrap_err(), RconError::Truncated);
}

#[test]
fn little_endian_integers() {
    let mut out = vec![0xaa];
    push_i32_le(&mut out, 0x1234_5678);
    push_i32_le(&mut out, -2);
    assert_eq!(out, vec![0xaa, 0x78, 0x56, 0x34, 0x12, 0xfe, 0xff, 0xff, 0xff]);
    assert_eq!(read_i32_le(&out, 1), 0x1234_5678);
    assert_eq!(read_i32_le(&out, 5), -2);
    let mut edge = Vec::new();
    push_i32_le(&mut edge, i32::MIN);
    assert_eq!(edge, vec![0, 0, 0, 0x80]);
    assert_eq!(read_i32_le(&edge, 0), i32::MIN);
}

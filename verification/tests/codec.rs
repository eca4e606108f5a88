use rkvm_core::codec::DecodeError;
use rkvm_core::codec::Message;
use rkvm_core::codec::decode;
use rkvm_core::codec::encode;
use rkvm_core::codec::encode_checked;
use rkvm_core::event::CanonicalEvent;
use rkvm_core::event::Capability;
use rkvm_core::event::DeviceDescriptor;
use rkvm_core::event::EventKind;

fn sample_event() -> CanonicalEvent {
    CanonicalEvent {
        device_id: 7,
        kind: EventKind::Key,
        code: 30,
        value: 1,
        timestamp: 123_456_789,
    }
}

fn sample_descriptor() -> DeviceDescriptor {
    DeviceDescriptor {
        device_id: 42,
        name: b"test keyboard".to_vec(),
        vendor: 0x1d6b,
        product: 0x0104,
        capabilities: vec![
            Capability { kind: EventKind::Key, code: 30 },
            Capability { kind: EventKind::Key, code: 31 },
            Capability { kind: EventKind::Sync, code: 0 },
        ],
    }
}

#[test]
fn round_trip_event() {
    let m = Message::Event { event: sample_event() };
    let bytes = encode(&m);
    let (decoded, used) = decode(&bytes).unwrap();
    assert_eq!(used, bytes.len());
    assert_eq!(decoded, m);
}

#[test]
fn round_trip_event_negative_value() {
    let m = Message::Event {
        event: CanonicalEvent {
            device_id: 1,
            kind: EventKind::RelativeAxis,
            code: 0,
            value: -17,
            timestamp: 5,
        },
    };
    let bytes = encode(&m);
    let (decoded, used) = decode(&bytes).unwrap();
    assert_eq!(used, bytes.len());
    assert_eq!(decoded, m);
}

#[test]
fn round_trip_all_kinds() {
    for kind in [
        EventKind::Key,
        EventKind::RelativeAxis,
        EventKind::AbsoluteAxis,
        EventKind::Sync,
    ] {
        let m = Message::Event {
            event: CanonicalEvent {
                device_id: u64::MAX,
                kind,
                code: u16::MAX,
                value: i32::MIN,
                timestamp: u64::MAX,
            },
        };
        let (decoded, _) = decode(&encode(&m)).unwrap();
        assert_eq!(decoded, m);
    }
}

#[test]
fn round_trip_hello() {
    let m = Message::Hello { password_proof: b"s3cr3t-proof".to_vec() };
    let bytes = encode(&m);
    let (decoded, used) = decode(&bytes).unwrap();
    assert_eq!(used, bytes.len());
    assert_eq!(decoded, m);
}

#[test]
fn round_trip_hello_empty_proof() {
    let m = Message::Hello { password_proof: Vec::new() };
    let (decoded, _) = decode(&encode(&m)).unwrap();
    assert_eq!(decoded, m);
}

#[test]
fn round_trip_device_added() {
    let m = Message::DeviceAdded { descriptor: sample_descriptor() };
    let bytes = encode(&m);
    let (decoded, used) = decode(&bytes).unwrap();
    assert_eq!(used, bytes.len());
    assert_eq!(decoded, m);
}

#[test]
fn round_trip_device_added_no_caps() {
    let m = Message::DeviceAdded {
        descriptor: DeviceDescriptor {
            device_id: 3,
            name: Vec::new(),
            vendor: 0,
            product: 0,
            capabilities: Vec::new(),
        },
    };
    let (decoded, _) = decode(&encode(&m)).unwrap();
    assert_eq!(decoded, m);
}

#[test]
fn round_trip_device_removed() {
    let m = Message::DeviceRemoved { device_id: 9 };
    let (decoded, used) = decode(&encode(&m)).unwrap();
    assert_eq!(used, encode(&m).len());
    assert_eq!(decoded, m);
}

#[test]
fn round_trip_heartbeat() {
    let m = Message::Heartbeat;
    let bytes = encode(&m);
    assert_eq!(bytes.len(), 5);
    let (decoded, used) = decode(&bytes).unwrap();
    assert_eq!(used, 5);
    assert_eq!(decoded, m);
}

#[test]
fn decode_consumes_exactly_one_frame() {
    let a = Message::Event { event: sample_event() };
    let b = Message::Heartbeat;
    let mut stream = encode(&a);
    let first_len = stream.len();
    stream.extend_from_slice(&encode(&b));
    let (decoded_a, used_a) = decode(&stream).unwrap();
    assert_eq!(decoded_a, a);
    assert_eq!(used_a, first_len);
    let (decoded_b, used_b) = decode(&stream[used_a..]).unwrap();
    assert_eq!(decoded_b, b);
    assert_eq!(used_a + used_b, stream.len());
}

#[test]
fn decode_empty_buffer_incomplete() {
    assert_eq!(decode(&[]), Err(DecodeError::Incomplete));
}

#[test]
fn decode_short_length_prefix_incomplete() {
    assert_eq!(decode(&[5, 0]), Err(DecodeError::Incomplete));
}

#[test]
fn decode_truncated_frame_incomplete() {
    let bytes = encode(&Message::Event { event: sample_event() });
    for cut in 0..bytes.len() {
        assert_eq!(decode(&bytes[..cut]), Err(DecodeError::Incomplete));
    }
}

#[test]
fn decode_unknown_tag_malformed() {
    // A frame with body length 1 and an unknown type tag.
    assert_eq!(decode(&[1, 0, 0, 0, 99]), Err(DecodeError::Malformed));
}

#[test]
fn decode_empty_body_malformed() {
    assert_eq!(decode(&[0, 0, 0, 0]), Err(DecodeError::Malformed));
}

#[test]
fn decode_bad_event_length_malformed() {
    // Tag 3 (event) with too short a body.
    assert_eq!(decode(&[2, 0, 0, 0, 3, 1]), Err(DecodeError::Malformed));
}

#[test]
fn decode_bad_kind_tag_malformed() {
    let mut bytes = encode(&Message::Event { event: sample_event() });
    // Byte 4 is the type tag; byte 5..13 the device id; byte 13 the kind.
    bytes[13] = 0xFF;
    assert_eq!(decode(&bytes), Err(DecodeError::Malformed));
}

#[test]
fn decode_oversized_heartbeat_malformed() {
    // Heartbeat with a trailing payload byte inside the frame.
    assert_eq!(decode(&[2, 0, 0, 0, 4, 0]), Err(DecodeError::Malformed));
}

#[test]
fn encode_checked_accepts_small_and_rejects_oversized() {
    let ok = Message::Hello { password_proof: vec![7u8; 65535] };
    assert!(encode_checked(&ok).is_some());
    let too_big = Message::Hello { password_proof: vec![7u8; 65536] };
    assert!(encode_checked(&too_big).is_none());
}

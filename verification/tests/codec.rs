use peapod::codec::{decode_beacon, decode_frame, decode_message, encode_beacon, encode_frame,
    encode_message, FrameDecode, MAX_FRAME};
use peapod::protocol::{Beacon, Message};

fn roundtrip(msg: &Message) -> Message {
    let bytes = encode_message(msg);
    decode_message(&bytes).expect("a canonical encoding must decode")
}

#[test]
fn ping_roundtrip() {
    assert!(matches!(roundtrip(&Message::Ping), Message::Ping));
    assert_eq!(encode_message(&Message::Ping), b"\"Ping\"".to_vec());
}

#[test]
fn pong_roundtrip() {
    assert!(matches!(roundtrip(&Message::Pong), Message::Pong));
    assert_eq!(encode_message(&Message::Pong), b"\"Pong\"".to_vec());
}

#[test]
fn handshake_roundtrip() {
    let msg = Message::Handshake { version: 1, device_id: "node-A".to_string() };
    match roundtrip(&msg) {
        Message::Handshake { version, device_id } => {
            assert_eq!(version, 1);
            assert_eq!(device_id, "node-A");
        },
        _ => panic!("wrong variant"),
    }
}

#[test]
fn handshake_exotic_id_roundtrip() {
    let id = "we\"ird\\id\nwith\ttabs \u{0001} and caf\u{e9} \u{1f600}";
    let msg = Message::Handshake { version: 255, device_id: id.to_string() };
    match roundtrip(&msg) {
        Message::Handshake { version, device_id } => {
            assert_eq!(version, 255);
            assert_eq!(device_id, id);
        },
        _ => panic!("wrong variant"),
    }
}

#[test]
fn request_chunk_roundtrip() {
    let msg = Message::RequestChunk { file_id: "f-123".to_string(), index: u64::MAX };
    match roundtrip(&msg) {
        Message::RequestChunk { file_id, index } => {
            assert_eq!(file_id, "f-123");
            assert_eq!(index, u64::MAX);
        },
        _ => panic!("wrong variant"),
    }
}

fn chunk_data_roundtrip(data: Vec<u8>) {
    let msg = Message::ChunkData { file_id: "f".to_string(), index: 2, data: data.clone() };
    match roundtrip(&msg) {
        Message::ChunkData { file_id, index, data: back } => {
            assert_eq!(file_id, "f");
            assert_eq!(index, 2);
            assert!(back == data);
        },
        _ => panic!("wrong variant"),
    }
}

#[test]
fn chunk_data_empty_roundtrip() {
    chunk_data_roundtrip(Vec::new());
}

#[test]
fn chunk_data_one_byte_roundtrip() {
    chunk_data_roundtrip(vec![0]);
    chunk_data_roundtrip(vec![255]);
}

#[test]
fn chunk_data_ten_mib_minus_one_roundtrip() {
    let data: Vec<u8> = vec![0u8; 10 * 1024 * 1024 - 1];
    chunk_data_roundtrip(data);
}

#[test]
fn frame_roundtrip() {
    let data: Vec<u8> = (0..100u8).collect();
    let msg = Message::ChunkData { file_id: "f".to_string(), index: 7, data: data.clone() };
    let frame = encode_frame(&msg).unwrap();
    match decode_frame(&frame) {
        FrameDecode::Frame(m, used) => {
            assert_eq!(used, frame.len());
            match m {
                Message::ChunkData { file_id, index, data: back } => {
                    assert_eq!(file_id, "f");
                    assert_eq!(index, 7);
                    assert!(back == data);
                },
                _ => panic!("wrong variant"),
            }
        },
        _ => panic!("frame must decode"),
    }
}

#[test]
fn frame_with_trailing_bytes_reports_consumed() {
    let msg = Message::Ping;
    let mut frame = encode_frame(&msg).unwrap();
    let used_expected = frame.len();
    frame.extend_from_slice(b"garbage");
    match decode_frame(&frame) {
        FrameDecode::Frame(m, used) => {
            assert!(matches!(m, Message::Ping));
            assert_eq!(used, used_expected);
        },
        _ => panic!("frame must decode"),
    }
}

#[test]
fn oversized_frame_rejected_before_body() {
    // a header declaring one byte over the cap, with no body at all
    let declared = (MAX_FRAME as u32) + 1;
    let header = declared.to_le_bytes().to_vec();
    assert!(matches!(decode_frame(&header), FrameDecode::TooLarge));
}

#[test]
fn incomplete_frames_wait_for_more() {
    assert!(matches!(decode_frame(&vec![1, 0]), FrameDecode::Incomplete));
    let mut buf = 6u32.to_le_bytes().to_vec();
    buf.extend_from_slice(b"\"Pi");
    assert!(matches!(decode_frame(&buf), FrameDecode::Incomplete));
}

#[test]
fn malformed_payload_is_discarded() {
    assert!(decode_message(&b"not json".to_vec()).is_none());
    assert!(decode_message(&b"\"Pinh\"".to_vec()).is_none());
    assert!(decode_message(&b"{\"Handshake\":{\"version\":1,\"device_id\":\"x\"}".to_vec()).is_none());
    assert!(decode_message(&b"{\"Handshake\":{\"version\":999,\"device_id\":\"x\"}}".to_vec()).is_none());
    let mut frame = 3u32.to_le_bytes().to_vec();
    frame.extend_from_slice(b"{!}");
    assert!(matches!(decode_frame(&frame), FrameDecode::Malformed));
}

#[test]
fn decodes_externally_encoded_messages() {
    // the exact byte strings a JSON serializer emits for these values
    let bytes = b"{\"RequestChunk\":{\"file_id\":\"abc\",\"index\":5}}".to_vec();
    match decode_message(&bytes).unwrap() {
        Message::RequestChunk { file_id, index } => {
            assert_eq!(file_id, "abc");
            assert_eq!(index, 5);
        },
        _ => panic!("wrong variant"),
    }
    let bytes = b"{\"ChunkData\":{\"file_id\":\"abc\",\"index\":0,\"data\":[1,2,250]}}".to_vec();
    match decode_message(&bytes).unwrap() {
        Message::ChunkData { file_id, index, data } => {
            assert_eq!(file_id, "abc");
            assert_eq!(index, 0);
            assert_eq!(data, vec![1, 2, 250]);
        },
        _ => panic!("wrong variant"),
    }
}

#[test]
fn wire_format_is_json() {
    // the encoder's output parses as ordinary JSON
    let msg = Message::ChunkData { file_id: "id-1".to_string(), index: 3, data: vec![7, 8] };
    let bytes = encode_message(&msg);
    let v: serde_json::Value = serde_json::from_slice(&bytes).unwrap();
    assert_eq!(v["ChunkData"]["file_id"], serde_json::Value::String("id-1".to_string()));
    assert_eq!(v["ChunkData"]["index"], serde_json::Value::from(3u64));
    assert_eq!(v["ChunkData"]["data"][1], serde_json::Value::from(8u64));

    let b = Beacon { device_id: "dev".to_string(), name: "Pod".to_string(), port: 45679 };
    let bb = encode_beacon(&b);
    let v: serde_json::Value = serde_json::from_slice(&bb).unwrap();
    assert_eq!(v["device_id"], serde_json::Value::String("dev".to_string()));
    assert_eq!(v["name"], serde_json::Value::String("Pod".to_string()));
    assert_eq!(v["port"], serde_json::Value::from(45679u64));
}

#[test]
fn beacon_roundtrip() {
    let b = Beacon { device_id: "dev-1".to_string(), name: "Node \"A\"".to_string(), port: 50001 };
    let bytes = encode_beacon(&b);
    let back = decode_beacon(&bytes).unwrap();
    assert_eq!(back.device_id, "dev-1");
    assert_eq!(back.name, "Node \"A\"");
    assert_eq!(back.port, 50001);
}

#[test]
fn beacon_rejects_bad_port_and_garbage() {
    assert!(decode_beacon(&b"{\"device_id\":\"a\",\"name\":\"b\",\"port\":70000}".to_vec()).is_none());
    assert!(decode_beacon(&b"hello".to_vec()).is_none());
    let ok = decode_beacon(&b"{\"device_id\":\"a\",\"name\":\"b\",\"port\":65535}".to_vec()).unwrap();
    assert_eq!(ok.port, 65535);
}

#[test]
fn decode_rejects_trailing_bytes() {
    let mut bytes = encode_message(&Message::RequestChunk { file_id: "a".to_string(), index: 1 });
    bytes.push(b' ');
    assert!(decode_message(&bytes).is_none());
}

#[test]
fn decode_rejects_oversized_numbers() {
    // one past u64::MAX cannot be an index
    let bytes = b"{\"RequestChunk\":{\"file_id\":\"a\",\"index\":18446744073709551616}}".to_vec();
    assert!(decode_message(&bytes).is_none());
    let ok = b"{\"RequestChunk\":{\"file_id\":\"a\",\"index\":18446744073709551615}}".to_vec();
    match decode_message(&ok).unwrap() {
        Message::RequestChunk { index, .. } => assert_eq!(index, u64::MAX),
        _ => panic!("wrong variant"),
    }
}

#[test]
fn distinct_transfer_ids() {
    let mut mgr = peapod::chunk::ChunkManager::new();
    let a = mgr.start_transfer("a".to_string(), 10, "/tmp/a".to_string());
    let b = mgr.start_transfer("b".to_string(), 10, "/tmp/b".to_string());
    assert_ne!(a, b);
    assert_eq!(mgr.get_active_transfers(), 2);
}

use peapod::protocol::Message;
use peapod::session::{chunk_reply, dispatch_message, handshake_message, SessionAction,
    PROTOCOL_VERSION};

#[test]
fn handshake_announces_version_one() {
    assert_eq!(PROTOCOL_VERSION, 1);
    match handshake_message("me".to_string()) {
        Message::Handshake { version, device_id } => {
            assert_eq!(version, 1);
            assert_eq!(device_id, "me");
        },
        _ => panic!("wrong variant"),
    }
}

#[test]
fn ping_earns_pong() {
    match dispatch_message(Message::Ping) {
        SessionAction::Reply(Message::Pong) => {},
        _ => panic!("ping must be answered with pong"),
    }
}

#[test]
fn pong_and_handshake_are_quiet() {
    assert!(matches!(dispatch_message(Message::Pong), SessionAction::Ignore));
    let hs = Message::Handshake { version: 1, device_id: "other".to_string() };
    assert!(matches!(dispatch_message(hs), SessionAction::Ignore));
}

#[test]
fn request_dispatches_to_read_path() {
    let msg = Message::RequestChunk { file_id: "f".to_string(), index: 4 };
    match dispatch_message(msg) {
        SessionAction::ServeChunk { file_id, index } => {
            assert_eq!(file_id, "f");
            assert_eq!(index, 4);
        },
        _ => panic!("wrong action"),
    }
}

#[test]
fn chunk_data_dispatches_to_write_path() {
    let msg = Message::ChunkData { file_id: "f".to_string(), index: 4, data: vec![1, 2] };
    match dispatch_message(msg) {
        SessionAction::StoreChunk { file_id, index, data } => {
            assert_eq!(file_id, "f");
            assert_eq!(index, 4);
            assert_eq!(data, vec![1, 2]);
        },
        _ => panic!("wrong action"),
    }
}

#[test]
fn chunk_reply_answers_success_with_data_and_failure_with_silence() {
    match chunk_reply("f".to_string(), 9, Some(vec![5])) {
        Some(Message::ChunkData { file_id, index, data }) => {
            assert_eq!(file_id, "f");
            assert_eq!(index, 9);
            assert_eq!(data, vec![5]);
        },
        _ => panic!("wrong reply"),
    }
    assert!(chunk_reply("f".to_string(), 9, None).is_none());
}

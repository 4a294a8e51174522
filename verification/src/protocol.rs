//! The wire data types: the discovery beacon and the session messages.

use vstd::prelude::*;

verus! {

/// A peer's self-announcement, broadcast for discovery: its device
/// id, a human-readable name, and the TCP port its listener accepts
/// connections on.
#[derive(Debug)]
pub struct Beacon {
    pub device_id: String,
    pub name: String,
    pub port: u16,
}

/// A beacon as contracts see it.
pub struct BeaconView {
    pub device_id: Seq<char>,
    pub name: Seq<char>,
    pub port: u16,
}

impl View for Beacon {
    type V = BeaconView;

    open spec fn view(&self) -> BeaconView {
        BeaconView { device_id: self.device_id@, name: self.name@, port: self.port }
    }
}

impl Clone for Beacon {
    fn clone(&self) -> (r: Self)
        ensures
            r == *self,
    {
        Beacon {
            device_id: self.device_id.clone(),
            name: self.name.clone(),
            port: self.port,
        }
    }
}

/// One unit of the session protocol, exchanged inside a framed TCP
/// stream.
#[derive(Debug)]
pub enum Message {
    Handshake { version: u8, device_id: String },
    Ping,
    Pong,
    RequestChunk { file_id: String, index: u64 },
    ChunkData { file_id: String, index: u64, data: Vec<u8> },
}

/// A message as contracts see it.
pub enum MessageView {
    Handshake { version: u8, device_id: Seq<char> },
    Ping,
    Pong,
    RequestChunk { file_id: Seq<char>, index: u64 },
    ChunkData { file_id: Seq<char>, index: u64, data: Seq<u8> },
}

impl View for Message {
    type V = MessageView;

    open spec fn view(&self) -> MessageView {
        match self {
            Message::Handshake { version, device_id } => MessageView::Handshake {
                version: *version,
                device_id: device_id@,
            },
            Message::Ping => MessageView::Ping,
            Message::Pong => MessageView::Pong,
            Message::RequestChunk { file_id, index } => MessageView::RequestChunk {
                file_id: file_id@,
                index: *index,
            },
            Message::ChunkData { file_id, index, data } => MessageView::ChunkData {
                file_id: file_id@,
                index: *index,
                data: data@,
            },
        }
    }
}

impl Clone for Message {
    fn clone(&self) -> (r: Self)
        ensures
            r@ == self@,
    {
        match self {
            Message::Handshake { version, device_id } => Message::Handshake {
                version: *version,
                device_id: device_id.clone(),
            },
            Message::Ping => Message::Ping,
            Message::Pong => Message::Pong,
            Message::RequestChunk { file_id, index } => Message::RequestChunk {
                file_id: file_id.clone(),
                index: *index,
            },
            Message::ChunkData { file_id, index, data } => Message::ChunkData {
                file_id: file_id.clone(),
                index: *index,
                data: data.clone(),
            },
        }
    }
}

} // verus!

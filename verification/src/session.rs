//! The session decision logic: what each received message asks of the
//! connection. The socket loop lives outside; it reads one frame,
//! hands the message to `dispatch_message`, performs the returned
//! action, and sends whatever reply comes back.

use vstd::prelude::*;

use crate::protocol::{Message, MessageView};

verus! {

/// The protocol version the handshake announces.
pub const PROTOCOL_VERSION: u8 = 1;

/// What one received message asks of the session: nothing, a direct
/// reply, a chunk read (answered with `ChunkData` on success, with
/// silence on failure), or a chunk write.
pub enum SessionAction {
    Ignore,
    Reply(Message),
    ServeChunk { file_id: String, index: u64 },
    StoreChunk { file_id: String, index: u64, data: Vec<u8> },
}

/// The handshake sent right after connecting, fire-and-forget: the
/// local device id under the current protocol version.
pub fn handshake_message(device_id: String) -> (r: Message)
    ensures
        r@ == (MessageView::Handshake { version: PROTOCOL_VERSION, device_id: device_id@ }),
{
    Message::Handshake { version: PROTOCOL_VERSION, device_id }
}

/// Decides what one received message asks of the session: a received
/// handshake is recorded only, `Ping` earns a `Pong`, `Pong` nothing,
/// a chunk request a read, chunk data a write.
pub fn dispatch_message(msg: Message) -> (r: SessionAction)
    ensures
        match msg@ {
            MessageView::Handshake { .. } => r is Ignore,
            MessageView::Ping => r matches SessionAction::Reply(m) && m@ == MessageView::Pong,
            MessageView::Pong => r is Ignore,
            MessageView::RequestChunk { file_id, index } => r matches SessionAction::ServeChunk {
                file_id: f,
                index: i,
            } && f@ == file_id && i == index,
            MessageView::ChunkData { file_id, index, data } => r matches SessionAction::StoreChunk {
                file_id: f,
                index: i,
                data: d,
            } && f@ == file_id && i == index && d@ == data,
        },
{
    match msg {
        Message::Handshake { version: _, device_id: _ } => SessionAction::Ignore,
        Message::Ping => SessionAction::Reply(Message::Pong),
        Message::Pong => SessionAction::Ignore,
        Message::RequestChunk { file_id, index } => SessionAction::ServeChunk { file_id, index },
        Message::ChunkData { file_id, index, data } => SessionAction::StoreChunk {
            file_id,
            index,
            data,
        },
    }
}

/// Builds the reply to a chunk request from the read outcome: the
/// chunk's bytes become a `ChunkData` message; a failed read earns the
/// requester nothing at all.
pub fn chunk_reply(file_id: String, index: u64, data: Option<Vec<u8>>) -> (r: Option<Message>)
    ensures
        match data {
            Some(d) => r matches Some(m) && m@ == (MessageView::ChunkData {
                file_id: file_id@,
                index,
                data: d@,
            }),
            None => r is None,
        },
{
    match data {
        Some(d) => Some(Message::ChunkData { file_id, index, data: d }),
        None => None,
    }
}

} // verus!

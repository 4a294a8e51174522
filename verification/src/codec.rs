//! The wire codec: session messages and discovery beacons as
//! canonical JSON bytes, the length-prefixed frame around a message,
//! and the round-trip laws that tie encoding and decoding together.

use vstd::prelude::*;
use vstd::bytes::{lemma_auto_spec_u32_to_from_le_bytes, spec_u32_from_le_bytes,
    spec_u32_to_le_bytes, u32_from_le_bytes, u32_to_le_bytes};
use vstd::slice::slice_subrange;
use vstd::utf8::{decode_utf8, encode_utf8, encode_utf8_decode_utf8, encode_utf8_valid_utf8,
    valid_utf8};

use crate::json::{dec_rep, enc_byte_array, esc, expect, lit_beacon_open, lit_brace_close,
    lit_cd_open, lit_data_key, lit_device_id_key, lit_hs_open, lit_index_key, lit_name_key,
    lit_obj_close, lit_ping, lit_pong, lit_port_key, lit_rc_open, make_beacon_open,
    make_brace_close, make_cd_open, make_data_key, make_device_id_key, make_hs_open,
    make_index_key, make_name_key, make_obj_close, make_ping, make_pong, make_port_key,
    make_rc_open, parse_byte_array, parse_string, parse_u64, push_byte_array, push_escaped,
    push_u64, spec_expect, spec_parse_byte_array, spec_parse_string, spec_parse_u64, QUOTE,
};
use crate::json::{lemma_parse_dec_rep, lemma_parse_enc_bytes, lemma_parse_esc};
use crate::protocol::{Beacon, BeaconView, Message, MessageView};

verus! {

/// The largest frame a session accepts: a declared length beyond this
/// is a protocol violation (10 MiB).
pub const MAX_FRAME: usize = 10 * 1024 * 1024;

/// A string as its JSON bytes: a quote, the escaped UTF-8 bytes of the
/// characters, and a closing quote.
pub open spec fn enc_string(cs: Seq<char>) -> Seq<u8> {
    seq![QUOTE] + esc(encode_utf8(cs)) + seq![QUOTE]
}

/// A message as its canonical JSON bytes.
pub open spec fn enc_message(m: MessageView) -> Seq<u8> {
    match m {
        MessageView::Handshake { version, device_id } => lit_hs_open() + dec_rep(version as nat)
            + lit_device_id_key() + enc_string(device_id) + lit_obj_close(),
        MessageView::Ping => lit_ping(),
        MessageView::Pong => lit_pong(),
        MessageView::RequestChunk { file_id, index } => lit_rc_open() + enc_string(file_id)
            + lit_index_key() + dec_rep(index as nat) + lit_obj_close(),
        MessageView::ChunkData { file_id, index, data } => lit_cd_open() + enc_string(file_id)
            + lit_index_key() + dec_rep(index as nat) + lit_data_key() + enc_byte_array(data)
            + seq![93u8] + lit_obj_close(),
    }
}

/// A beacon as its canonical JSON bytes.
pub open spec fn enc_beacon(b: BeaconView) -> Seq<u8> {
    lit_beacon_open() + enc_string(b.device_id) + lit_name_key() + enc_string(b.name)
        + lit_port_key() + dec_rep(b.port as nat) + lit_brace_close()
}

/// Parse of a quoted string at `pos`: the unescaped body bytes and the
/// position after the closing quote.
pub open spec fn spec_parse_quoted(s: Seq<u8>, pos: int) -> Option<(Seq<u8>, int)> {
    if 0 <= pos < s.len() && s[pos] == QUOTE {
        spec_parse_string(s, pos + 1)
    } else {
        None
    }
}

/// Parse of a whole `Handshake` payload.
pub open spec fn spec_decode_handshake(s: Seq<u8>) -> Option<MessageView> {
    match spec_expect(s, 0, lit_hs_open()) {
        None => None,
        Some(p1) => match spec_parse_u64(s, p1) {
            None => None,
            Some(ve) => if ve.0 > 255 {
                None
            } else {
                match spec_expect(s, ve.1, lit_device_id_key()) {
                    None => None,
                    Some(p2) => match spec_parse_quoted(s, p2) {
                        None => None,
                        Some(be) => if !valid_utf8(be.0) {
                            None
                        } else {
                            match spec_expect(s, be.1, lit_obj_close()) {
                                None => None,
                                Some(p3) => if p3 == s.len() {
                                    Some(
                                        MessageView::Handshake {
                                            version: ve.0 as u8,
                                            device_id: decode_utf8(be.0),
                                        },
                                    )
                                } else {
                                    None
                                },
                            }
                        },
                    },
                }
            },
        },
    }
}

/// Parse of a whole `RequestChunk` payload.
pub open spec fn spec_decode_request(s: Seq<u8>) -> Option<MessageView> {
    match spec_expect(s, 0, lit_rc_open()) {
        None => None,
        Some(p1) => match spec_parse_quoted(s, p1) {
            None => None,
            Some(be) => if !valid_utf8(be.0) {
                None
            } else {
                match spec_expect(s, be.1, lit_index_key()) {
                    None => None,
                    Some(p2) => match spec_parse_u64(s, p2) {
                        None => None,
                        Some(ve) => match spec_expect(s, ve.1, lit_obj_close()) {
                            None => None,
                            Some(p3) => if p3 == s.len() {
                                Some(
                                    MessageView::RequestChunk {
                                        file_id: decode_utf8(be.0),
                                        index: ve.0,
                                    },
                                )
                            } else {
                                None
                            },
                        },
                    },
                }
            },
        },
    }
}

/// Parse of a whole `ChunkData` payload.
pub open spec fn spec_decode_chunk_data(s: Seq<u8>) -> Option<MessageView> {
    match spec_expect(s, 0, lit_cd_open()) {
        None => None,
        Some(p1) => match spec_parse_quoted(s, p1) {
            None => None,
            Some(be) => if !valid_utf8(be.0) {
                None
            } else {
                match spec_expect(s, be.1, lit_index_key()) {
                    None => None,
                    Some(p2) => match spec_parse_u64(s, p2) {
                        None => None,
                        Some(ve) => match spec_expect(s, ve.1, lit_data_key()) {
                            None => None,
                            Some(p3) => match spec_parse_byte_array(s, p3) {
                                None => None,
                                Some(de) => match spec_expect(s, de.1, lit_obj_close()) {
                                    None => None,
                                    Some(p4) => if p4 == s.len() {
                                        Some(
                                            MessageView::ChunkData {
                                                file_id: decode_utf8(be.0),
                                                index: ve.0,
                                                data: de.0,
                                            },
                                        )
                                    } else {
                                        None
                                    },
                                },
                            },
                        },
                    },
                }
            },
        },
    }
}

/// Parse of a whole message payload: one of the five variants, spent
/// exactly, or nothing.
pub open spec fn spec_decode_message(s: Seq<u8>) -> Option<MessageView> {
    if s == lit_ping() {
        Some(MessageView::Ping)
    } else if s == lit_pong() {
        Some(MessageView::Pong)
    } else if spec_expect(s, 0, lit_hs_open()) is Some {
        spec_decode_handshake(s)
    } else if spec_expect(s, 0, lit_rc_open()) is Some {
        spec_decode_request(s)
    } else if spec_expect(s, 0, lit_cd_open()) is Some {
        spec_decode_chunk_data(s)
    } else {
        None
    }
}

/// Parse of a whole beacon payload.
pub open spec fn spec_decode_beacon(s: Seq<u8>) -> Option<BeaconView> {
    match spec_expect(s, 0, lit_beacon_open()) {
        None => None,
        Some(p1) => match spec_parse_quoted(s, p1) {
            None => None,
            Some(ide) => if !valid_utf8(ide.0) {
                None
            } else {
                match spec_expect(s, ide.1, lit_name_key()) {
                    None => None,
                    Some(p2) => match spec_parse_quoted(s, p2) {
                        None => None,
                        Some(ne) => if !valid_utf8(ne.0) {
                            None
                        } else {
                            match spec_expect(s, ne.1, lit_port_key()) {
                                None => None,
                                Some(p3) => match spec_parse_u64(s, p3) {
                                    None => None,
                                    Some(ve) => if ve.0 > u16::MAX as u64 {
                                        None
                                    } else {
                                        match spec_expect(s, ve.1, lit_brace_close()) {
                                            None => None,
                                            Some(p4) => if p4 == s.len() {
                                                Some(
                                                    BeaconView {
                                                        device_id: decode_utf8(ide.0),
                                                        name: decode_utf8(ne.0),
                                                        port: ve.0 as u16,
                                                    },
                                                )
                                            } else {
                                                None
                                            },
                                        }
                                    },
                                },
                            }
                        },
                    },
                }
            },
        },
    }
}

/// Appends a string as its quoted, escaped JSON bytes.
fn push_quoted(out: &mut Vec<u8>, s: &str)
    ensures
        final(out)@ == old(out)@ + enc_string(s@),
{
    out.push(QUOTE);
    push_escaped(out, s.as_bytes());
    out.push(QUOTE);
    proof {
        assert(out@ =~= old(out)@ + enc_string(s@));
    }
}

/// Encodes a message as its canonical JSON bytes.
pub fn encode_message(msg: &Message) -> (r: Vec<u8>)
    ensures
        r@ == enc_message(msg@),
{
    let mut out: Vec<u8> = Vec::new();
    match msg {
        Message::Handshake { version, device_id } => {
            let mut l = make_hs_open();
            out.append(&mut l);
            push_u64(&mut out, *version as u64);
            let mut l2 = make_device_id_key();
            out.append(&mut l2);
            push_quoted(&mut out, device_id.as_str());
            let mut l3 = make_obj_close();
            out.append(&mut l3);
            proof {
                assert(out@ =~= enc_message(msg@));
            }
        },
        Message::Ping => {
            let mut l = make_ping();
            out.append(&mut l);
            proof {
                assert(out@ =~= enc_message(msg@));
            }
        },
        Message::Pong => {
            let mut l = make_pong();
            out.append(&mut l);
            proof {
                assert(out@ =~= enc_message(msg@));
            }
        },
        Message::RequestChunk { file_id, index } => {
            let mut l = make_rc_open();
            out.append(&mut l);
            push_quoted(&mut out, file_id.as_str());
            let mut l2 = make_index_key();
            out.append(&mut l2);
            push_u64(&mut out, *index);
            let mut l3 = make_obj_close();
            out.append(&mut l3);
            proof {
                assert(out@ =~= enc_message(msg@));
            }
        },
        Message::ChunkData { file_id, index, data } => {
            let mut l = make_cd_open();
            out.append(&mut l);
            push_quoted(&mut out, file_id.as_str());
            let mut l2 = make_index_key();
            out.append(&mut l2);
            push_u64(&mut out, *index);
            let mut l3 = make_data_key();
            out.append(&mut l3);
            push_byte_array(&mut out, data);
            out.push(93);
            let mut l4 = make_obj_close();
            out.append(&mut l4);
            proof {
                assert(out@ =~= enc_message(msg@));
            }
        },
    }
    out
}

/// Encodes a beacon as its canonical JSON bytes.
pub fn encode_beacon(b: &Beacon) -> (r: Vec<u8>)
    ensures
        r@ == enc_beacon(b@),
{
    let mut out: Vec<u8> = Vec::new();
    let mut l = make_beacon_open();
    out.append(&mut l);
    push_quoted(&mut out, b.device_id.as_str());
    let mut l2 = make_name_key();
    out.append(&mut l2);
    push_quoted(&mut out, b.name.as_str());
    let mut l3 = make_port_key();
    out.append(&mut l3);
    push_u64(&mut out, b.port as u64);
    let mut l4 = make_brace_close();
    out.append(&mut l4);
    proof {
        assert(out@ =~= enc_beacon(b@));
    }
    out
}

/// Turns bytes back into a string.
///
/// Relies on `String::from_utf8`: it returns `Ok` exactly when the
/// bytes are valid UTF-8, and the returned string is backed by those
/// very bytes.
#[verifier::external_body]
fn string_from_utf8(v: Vec<u8>) -> (r: Option<String>)
    ensures
        r is Some <==> valid_utf8(v@),
        r matches Some(s) ==> encode_utf8(s@) == v@,
{
    String::from_utf8(v).ok()
}

/// Parses a quoted string at `pos`, exactly as `spec_parse_quoted`
/// reads it.
fn parse_quoted(s: &Vec<u8>, pos: usize) -> (r: Option<(Vec<u8>, usize)>)
    requires
        pos <= s@.len(),
    ensures
        match r {
            Some(be) => spec_parse_quoted(s@, pos as int) == Some((be.0@, be.1 as int)),
            None => spec_parse_quoted(s@, pos as int) is None,
        },
{
    if pos < s.len() && s[pos] == QUOTE {
        parse_string(s, pos + 1)
    } else {
        None
    }
}

/// Parses a quoted string and checks it for valid UTF-8, handing back
/// the string and the position after the closing quote.
fn parse_json_string(s: &Vec<u8>, pos: usize) -> (r: Option<(String, usize)>)
    requires
        pos <= s@.len(),
    ensures
        match r {
            Some(se) => {
                &&& spec_parse_quoted(s@, pos as int) matches Some(be)
                &&& valid_utf8(be.0)
                &&& se.0@ == decode_utf8(be.0)
                &&& se.1 == be.1
            },
            None => spec_parse_quoted(s@, pos as int) matches Some(be) ==> !valid_utf8(be.0),
        },
{
    let be = match parse_quoted(s, pos) {
        Some(be) => be,
        None => {
            return None;
        },
    };
    let st = match string_from_utf8(be.0) {
        Some(st) => st,
        None => {
            return None;
        },
    };
    proof {
        encode_utf8_decode_utf8(st@);
    }
    Some((st, be.1))
}

/// Decodes a whole message payload, exactly as `spec_decode_message`
/// reads it. Anything malformed yields `None`.
pub fn decode_message(s: &Vec<u8>) -> (r: Option<Message>)
    ensures
        match r {
            Some(m) => spec_decode_message(s@) == Some(m@),
            None => spec_decode_message(s@) is None,
        },
{
    let n = s.len();
    let ping = make_ping();
    if n == ping.len() {
        if let Some(_) = expect(s, 0, &ping) {
            proof {
                assert(s@ =~= lit_ping());
            }
            return Some(Message::Ping);
        }
    }
    proof {
        if s@ == lit_ping() {
            assert(s@.subrange(0, 6) =~= lit_ping());
        }
    }
    let pong = make_pong();
    if n == pong.len() {
        if let Some(_) = expect(s, 0, &pong) {
            proof {
                assert(s@ =~= lit_pong());
            }
            return Some(Message::Pong);
        }
    }
    proof {
        if s@ == lit_pong() {
            assert(s@.subrange(0, 6) =~= lit_pong());
        }
    }
    let hs = make_hs_open();
    if let Some(p1) = expect(s, 0, &hs) {
        let ve = match parse_u64(s, p1) {
            Some(ve) => ve,
            None => {
                return None;
            },
        };
        if ve.0 > 255 {
            return None;
        }
        let key = make_device_id_key();
        let p2 = match expect(s, ve.1, &key) {
            Some(p2) => p2,
            None => {
                return None;
            },
        };
        let se = match parse_json_string(s, p2) {
            Some(se) => se,
            None => {
                return None;
            },
        };
        let close = make_obj_close();
        let p3 = match expect(s, se.1, &close) {
            Some(p3) => p3,
            None => {
                return None;
            },
        };
        if p3 != n {
            return None;
        }
        return Some(Message::Handshake { version: ve.0 as u8, device_id: se.0 });
    }
    let rc = make_rc_open();
    if let Some(p1) = expect(s, 0, &rc) {
        let se = match parse_json_string(s, p1) {
            Some(se) => se,
            None => {
                return None;
            },
        };
        let key = make_index_key();
        let p2 = match expect(s, se.1, &key) {
            Some(p2) => p2,
            None => {
                return None;
            },
        };
        let ve = match parse_u64(s, p2) {
            Some(ve) => ve,
            None => {
                return None;
            },
        };
        let close = make_obj_close();
        let p3 = match expect(s, ve.1, &close) {
            Some(p3) => p3,
            None => {
                return None;
            },
        };
        if p3 != n {
            return None;
        }
        return Some(Message::RequestChunk { file_id: se.0, index: ve.0 });
    }
    let cd = make_cd_open();
    if let Some(p1) = expect(s, 0, &cd) {
        let se = match parse_json_string(s, p1) {
            Some(se) => se,
            None => {
                return None;
            },
        };
        let key = make_index_key();
        let p2 = match expect(s, se.1, &key) {
            Some(p2) => p2,
            None => {
                return None;
            },
        };
        let ve = match parse_u64(s, p2) {
            Some(ve) => ve,
            None => {
                return None;
            },
        };
        let dkey = make_data_key();
        let p3 = match expect(s, ve.1, &dkey) {
            Some(p3) => p3,
            None => {
                return None;
            },
        };
        let de = match parse_byte_array(s, p3) {
            Some(de) => de,
            None => {
                return None;
            },
        };
        let close = make_obj_close();
        let p4 = match expect(s, de.1, &close) {
            Some(p4) => p4,
            None => {
                return None;
            },
        };
        if p4 != n {
            return None;
        }
        return Some(Message::ChunkData { file_id: se.0, index: ve.0, data: de.0 });
    }
    None
}

/// Decodes a whole beacon payload, exactly as `spec_decode_beacon`
/// reads it. Anything malformed yields `None`.
pub fn decode_beacon(s: &Vec<u8>) -> (r: Option<Beacon>)
    ensures
        match r {
            Some(b) => spec_decode_beacon(s@) == Some(b@),
            None => spec_decode_beacon(s@) is None,
        },
{
    let open = make_beacon_open();
    let p1 = match expect(s, 0, &open) {
        Some(p1) => p1,
        None => {
            return None;
        },
    };
    let ide = match parse_json_string(s, p1) {
        Some(ide) => ide,
        None => {
            return None;
        },
    };
    let nkey = make_name_key();
    let p2 = match expect(s, ide.1, &nkey) {
        Some(p2) => p2,
        None => {
            return None;
        },
    };
    let ne = match parse_json_string(s, p2) {
        Some(ne) => ne,
        None => {
            return None;
        },
    };
    let pkey = make_port_key();
    let p3 = match expect(s, ne.1, &pkey) {
        Some(p3) => p3,
        None => {
            return None;
        },
    };
    let ve = match parse_u64(s, p3) {
        Some(ve) => ve,
        None => {
            return None;
        },
    };
    if ve.0 > u16::MAX as u64 {
        return None;
    }
    let close = make_brace_close();
    let p4 = match expect(s, ve.1, &close) {
        Some(p4) => p4,
        None => {
            return None;
        },
    };
    if p4 != s.len() {
        return None;
    }
    Some(Beacon { device_id: ide.0, name: ne.0, port: ve.0 as u16 })
}


/// Splitting a known subrange of `s` at the seam of a concatenation.
proof fn lemma_peel(s: Seq<u8>, pos: int, x: Seq<u8>, y: Seq<u8>)
    requires
        0 <= pos,
        pos + x.len() + y.len() <= s.len(),
        s.subrange(pos, pos + x.len() + y.len()) == x + y,
    ensures
        s.subrange(pos, pos + x.len()) == x,
        s.subrange(pos + x.len(), pos + x.len() + y.len()) == y,
{
    assert forall|j: int| 0 <= j < x.len() implies s.subrange(pos, pos + x.len())[j] == x[j] by {
        assert(s[pos + j] == (x + y)[j]);
    }
    assert(s.subrange(pos, pos + x.len()) =~= x);
    assert forall|j: int| 0 <= j < y.len() implies s.subrange(
        pos + x.len(),
        pos + x.len() + y.len(),
    )[j] == y[j] by {
        assert(s[pos + x.len() + j] == (x + y)[x.len() + j]);
    }
    assert(s.subrange(pos + x.len(), pos + x.len() + y.len()) =~= y);
}

/// A quoted, escaped string parses back to its characters.
proof fn lemma_parse_enc_string(s: Seq<u8>, pos: int, cs: Seq<char>)
    requires
        0 <= pos,
        pos + enc_string(cs).len() <= s.len(),
        s.subrange(pos, pos + enc_string(cs).len()) == enc_string(cs),
    ensures
        ({
            let e = spec_parse_quoted(s, pos);
            &&& e matches Some(be)
            &&& e->Some_0.0 == encode_utf8(cs)
            &&& e->Some_0.1 == pos + enc_string(cs).len()
            &&& valid_utf8(encode_utf8(cs))
            &&& decode_utf8(encode_utf8(cs)) == cs
        }),
{
    let eb = encode_utf8(cs);
    let e = esc(eb);
    let a = enc_string(cs);
    assert(a == seq![QUOTE] + e + seq![QUOTE]);
    lemma_peel(s, pos, seq![QUOTE] + e, seq![QUOTE]);
    lemma_peel(s, pos, seq![QUOTE], e);
    assert(s[pos] == s.subrange(pos, pos + 1)[0]);
    assert(s[pos] == QUOTE);
    assert(s[pos + 1 + e.len()] == s.subrange(pos + 1 + e.len(), pos + 2 + e.len())[0]);
    assert(s[pos + 1 + e.len()] == QUOTE);
    lemma_parse_esc(s, pos + 1, eb);
    encode_utf8_valid_utf8(cs);
    encode_utf8_decode_utf8(cs);
}


/// A payload that begins with `{` is neither `"Ping"` nor `"Pong"`.
proof fn lemma_not_ping_pong(s: Seq<u8>)
    requires
        s.len() > 0,
        s[0] == 123u8,
    ensures
        s != lit_ping(),
        s != lit_pong(),
{
    if s == lit_ping() {
        assert(s[0] == 34u8);
    }
    if s == lit_pong() {
        assert(s[0] == 34u8);
    }
}

/// A payload whose third byte is not `H` does not open a `Handshake`.
proof fn lemma_not_hs(s: Seq<u8>)
    requires
        s.len() > 2,
        s[2] != 72u8,
    ensures
        spec_expect(s, 0, lit_hs_open()) is None,
{
    if spec_expect(s, 0, lit_hs_open()) is Some {
        assert(s.subrange(0, 24) == lit_hs_open());
        assert(s[2] == s.subrange(0, 24)[2]);
        assert(lit_hs_open()[2] == 72u8);
    }
}

/// A payload whose third byte is not `R` does not open a
/// `RequestChunk`.
proof fn lemma_not_rc(s: Seq<u8>)
    requires
        s.len() > 2,
        s[2] != 82u8,
    ensures
        spec_expect(s, 0, lit_rc_open()) is None,
{
    if spec_expect(s, 0, lit_rc_open()) is Some {
        assert(s.subrange(0, 27) == lit_rc_open());
        assert(s[2] == s.subrange(0, 27)[2]);
        assert(lit_rc_open()[2] == 82u8);
    }
}

#[verifier::rlimit(100)]
#[verifier::spinoff_prover]
proof fn lemma_round_trip_handshake(version: u8, device_id: Seq<char>)
    ensures
        spec_decode_message(enc_message(MessageView::Handshake { version, device_id })) == Some(
            MessageView::Handshake { version, device_id },
        ),
{
    let m = MessageView::Handshake { version, device_id };
    let s = enc_message(m);
    let a1 = lit_hs_open();
    let a2 = dec_rep(version as nat);
    let a3 = lit_device_id_key();
    let a4 = enc_string(device_id);
    let a5 = lit_obj_close();
    assert(s == a1 + a2 + a3 + a4 + a5);
    let p1 = a1.len() as int;
    let p2 = p1 + a2.len();
    let p3 = p2 + a3.len();
    let p4 = p3 + a4.len();
    let p5 = p4 + a5.len();
    assert(s.len() == p5);
    assert(s.subrange(0, p5) =~= s);
    lemma_peel(s, 0, a1 + a2 + a3 + a4, a5);
    lemma_peel(s, 0, a1 + a2 + a3, a4);
    lemma_peel(s, 0, a1 + a2, a3);
    lemma_peel(s, 0, a1, a2);
    assert(s[0] == s.subrange(0, p1)[0]);
    assert(s[0] == 123u8);
    lemma_not_ping_pong(s);
    assert(spec_expect(s, 0, a1) == Some(p1));
    assert(s[p2] == s.subrange(p2, p3)[0]);
    assert(s[p2] == 44u8);
    lemma_parse_dec_rep(s, p1, version as u64);
    assert(spec_parse_u64(s, p1) == Some((version as u64, p2)));
    assert(spec_expect(s, p2, a3) == Some(p3));
    lemma_parse_enc_string(s, p3, device_id);
    assert(spec_expect(s, p4, a5) == Some(p5));
}

#[verifier::rlimit(100)]
#[verifier::spinoff_prover]
proof fn lemma_round_trip_request(file_id: Seq<char>, index: u64)
    ensures
        spec_decode_message(enc_message(MessageView::RequestChunk { file_id, index })) == Some(
            MessageView::RequestChunk { file_id, index },
        ),
{
    let m = MessageView::RequestChunk { file_id, index };
    let s = enc_message(m);
    let a1 = lit_rc_open();
    let a2 = enc_string(file_id);
    let a3 = lit_index_key();
    let a4 = dec_rep(index as nat);
    let a5 = lit_obj_close();
    assert(s == a1 + a2 + a3 + a4 + a5);
    let p1 = a1.len() as int;
    let p2 = p1 + a2.len();
    let p3 = p2 + a3.len();
    let p4 = p3 + a4.len();
    let p5 = p4 + a5.len();
    assert(s.len() == p5);
    assert(s.subrange(0, p5) =~= s);
    lemma_peel(s, 0, a1 + a2 + a3 + a4, a5);
    lemma_peel(s, 0, a1 + a2 + a3, a4);
    lemma_peel(s, 0, a1 + a2, a3);
    lemma_peel(s, 0, a1, a2);
    assert(s[0] == s.subrange(0, p1)[0]);
    assert(s[0] == 123u8);
    assert(s[2] == s.subrange(0, p1)[2]);
    assert(s[2] == 82u8);
    lemma_not_ping_pong(s);
    lemma_not_hs(s);
    assert(spec_expect(s, 0, a1) == Some(p1));
    lemma_parse_enc_string(s, p1, file_id);
    assert(spec_expect(s, p2, a3) == Some(p3));
    assert(s[p4] == s.subrange(p4, p5)[0]);
    assert(s[p4] == 125u8);
    lemma_parse_dec_rep(s, p3, index);
    assert(spec_parse_u64(s, p3) == Some((index, p4)));
    assert(spec_expect(s, p4, a5) == Some(p5));
}

#[verifier::rlimit(100)]
#[verifier::spinoff_prover]
proof fn lemma_round_trip_chunk_data(file_id: Seq<char>, index: u64, data: Seq<u8>)
    ensures
        spec_decode_message(enc_message(MessageView::ChunkData { file_id, index, data })) == Some(
            MessageView::ChunkData { file_id, index, data },
        ),
{
    let m = MessageView::ChunkData { file_id, index, data };
    let s = enc_message(m);
    let a1 = lit_cd_open();
    let a2 = enc_string(file_id);
    let a3 = lit_index_key();
    let a4 = dec_rep(index as nat);
    let a5 = lit_data_key();
    let a6 = enc_byte_array(data);
    let a7 = seq![93u8];
    let a8 = lit_obj_close();
    assert(s == a1 + a2 + a3 + a4 + a5 + a6 + a7 + a8);
    let p1 = a1.len() as int;
    let p2 = p1 + a2.len();
    let p3 = p2 + a3.len();
    let p4 = p3 + a4.len();
    let p5 = p4 + a5.len();
    let p6 = p5 + a6.len();
    let p7 = p6 + a7.len();
    let p8 = p7 + a8.len();
    assert(s.len() == p8);
    assert(s.subrange(0, p8) =~= s);
    lemma_peel(s, 0, a1 + a2 + a3 + a4 + a5 + a6 + a7, a8);
    lemma_peel(s, 0, a1 + a2 + a3 + a4 + a5 + a6, a7);
    lemma_peel(s, 0, a1 + a2 + a3 + a4 + a5, a6);
    lemma_peel(s, 0, a1 + a2 + a3 + a4, a5);
    lemma_peel(s, 0, a1 + a2 + a3, a4);
    lemma_peel(s, 0, a1 + a2, a3);
    lemma_peel(s, 0, a1, a2);
    assert(s[0] == s.subrange(0, p1)[0]);
    assert(s[0] == 123u8);
    assert(s[2] == s.subrange(0, p1)[2]);
    assert(s[2] == 67u8);
    lemma_not_ping_pong(s);
    lemma_not_hs(s);
    lemma_not_rc(s);
    assert(spec_expect(s, 0, a1) == Some(p1));
    lemma_parse_enc_string(s, p1, file_id);
    assert(spec_expect(s, p2, a3) == Some(p3));
    assert(s[p4] == s.subrange(p4, p5)[0]);
    assert(s[p4] == 44u8);
    lemma_parse_dec_rep(s, p3, index);
    assert(spec_parse_u64(s, p3) == Some((index, p4)));
    assert(spec_expect(s, p4, a5) == Some(p5));
    assert(s[p6] == s.subrange(p6, p7)[0]);
    assert(s[p6] == 93u8);
    lemma_parse_enc_bytes(s, p5, data);
    assert(spec_parse_byte_array(s, p5) == Some((data, p7)));
    assert(spec_expect(s, p7, a8) == Some(p8));
}

/// Decoding an encoded message gives the message back, for every
/// message.
pub proof fn lemma_message_round_trip(m: MessageView)
    ensures
        spec_decode_message(enc_message(m)) == Some(m),
{
    match m {
        MessageView::Ping => {
        },
        MessageView::Pong => {
            assert(lit_pong() != lit_ping()) by {
                assert(lit_ping()[2] == 105u8);
                assert(lit_pong()[2] == 111u8);
            }
        },
        MessageView::Handshake { version, device_id } => {
            lemma_round_trip_handshake(version, device_id);
        },
        MessageView::RequestChunk { file_id, index } => {
            lemma_round_trip_request(file_id, index);
        },
        MessageView::ChunkData { file_id, index, data } => {
            lemma_round_trip_chunk_data(file_id, index, data);
        },
    }
}

/// Decoding an encoded beacon gives the beacon back, for every beacon.
#[verifier::rlimit(100)]
#[verifier::spinoff_prover]
pub proof fn lemma_beacon_round_trip(b: BeaconView)
    ensures
        spec_decode_beacon(enc_beacon(b)) == Some(b),
{
    let s = enc_beacon(b);
    let a1 = lit_beacon_open();
    let a2 = enc_string(b.device_id);
    let a3 = lit_name_key();
    let a4 = enc_string(b.name);
    let a5 = lit_port_key();
    let a6 = dec_rep(b.port as nat);
    let a7 = lit_brace_close();
    assert(s == a1 + a2 + a3 + a4 + a5 + a6 + a7);
    let p1 = a1.len() as int;
    let p2 = p1 + a2.len();
    let p3 = p2 + a3.len();
    let p4 = p3 + a4.len();
    let p5 = p4 + a5.len();
    let p6 = p5 + a6.len();
    let p7 = p6 + a7.len();
    assert(s.len() == p7);
    assert(s.subrange(0, p7) =~= s);
    lemma_peel(s, 0, a1 + a2 + a3 + a4 + a5 + a6, a7);
    lemma_peel(s, 0, a1 + a2 + a3 + a4 + a5, a6);
    lemma_peel(s, 0, a1 + a2 + a3 + a4, a5);
    lemma_peel(s, 0, a1 + a2 + a3, a4);
    lemma_peel(s, 0, a1 + a2, a3);
    lemma_peel(s, 0, a1, a2);
    assert(spec_expect(s, 0, a1) == Some(p1));
    lemma_parse_enc_string(s, p1, b.device_id);
    assert(spec_expect(s, p2, a3) == Some(p3));
    lemma_parse_enc_string(s, p3, b.name);
    assert(spec_expect(s, p4, a5) == Some(p5));
    assert(s[p6] == s.subrange(p6, p7)[0]);
    assert(s[p6] == 125u8);
    lemma_parse_dec_rep(s, p5, b.port as u64);
    assert(spec_parse_u64(s, p5) == Some((b.port as u64, p6)));
    assert(spec_expect(s, p6, a7) == Some(p7));
}


/// What a buffer holds for the framing layer: not yet a whole frame, a
/// frame whose declared length breaks the cap, a complete frame whose
/// payload does not parse, or a message and how many bytes its frame
/// spent.
pub enum FrameDecode {
    Incomplete,
    TooLarge,
    Malformed,
    Frame(Message, usize),
}

/// Encodes a message and wraps it in a length-prefixed frame: four
/// little-endian length bytes, then the payload. `None` only when the
/// payload cannot be counted in 32 bits.
pub fn encode_frame(msg: &Message) -> (r: Option<Vec<u8>>)
    ensures
        r is Some <==> enc_message(msg@).len() <= u32::MAX,
        r matches Some(f) ==> f@ == spec_u32_to_le_bytes((enc_message(msg@).len() as u32))
            + enc_message(msg@),
{
    let payload = encode_message(msg);
    if payload.len() > 0xffff_ffff_usize {
        return None;
    }
    let mut out = u32_to_le_bytes(payload.len() as u32);
    let mut p = payload;
    out.append(&mut p);
    Some(out)
}

/// Reads the frame at the head of the buffer. The declared length is
/// checked against `MAX_FRAME` as soon as the four length bytes are
/// there, before the body is considered.
pub fn decode_frame(s: &Vec<u8>) -> (r: FrameDecode)
    ensures
        s@.len() < 4 ==> r is Incomplete,
        s@.len() >= 4 ==> {
            let declared = spec_u32_from_le_bytes(s@.subrange(0, 4)) as int;
            &&& declared > MAX_FRAME ==> r is TooLarge
            &&& declared <= MAX_FRAME && s@.len() < 4 + declared ==> r is Incomplete
            &&& declared <= MAX_FRAME && s@.len() >= 4 + declared ==> match spec_decode_message(
                s@.subrange(4, 4 + declared),
            ) {
                Some(v) => r matches FrameDecode::Frame(m, used) && m@ == v && used == 4
                    + declared,
                None => r is Malformed,
            }
        },
{
    if s.len() < 4 {
        return FrameDecode::Incomplete;
    }
    let header = slice_subrange(s.as_slice(), 0, 4);
    let n32 = u32_from_le_bytes(header);
    proof {
        lemma_auto_spec_u32_to_from_le_bytes();
    }
    let n = n32 as usize;
    if n > MAX_FRAME {
        return FrameDecode::TooLarge;
    }
    if s.len() - 4 < n {
        return FrameDecode::Incomplete;
    }
    let mut payload: Vec<u8> = Vec::new();
    let mut i: usize = 4;
    while i < 4 + n
        invariant
            n <= MAX_FRAME,
            4 <= i <= 4 + n,
            4 + n <= s@.len(),
            payload@ == s@.subrange(4, i as int),
        decreases 4 + n - i,
    {
        payload.push(s[i]);
        proof {
            assert(payload@ =~= s@.subrange(4, i + 1));
        }
        i = i + 1;
    }
    match decode_message(&payload) {
        Some(m) => FrameDecode::Frame(m, 4 + n),
        None => FrameDecode::Malformed,
    }
}

/// A message that fits the cap survives framing: its frame declares
/// exactly the payload's length, the declared length passes the cap
/// check, and the payload decodes back to the message. A frame whose
/// declared length is over the cap carries no decodable claim at all:
/// the length bytes alone condemn it.
pub proof fn lemma_frame_round_trip(m: MessageView)
    requires
        enc_message(m).len() <= MAX_FRAME,
    ensures
        ({
            let payload = enc_message(m);
            let frame = spec_u32_to_le_bytes((payload.len() as u32)) + payload;
            &&& frame.len() == 4 + payload.len()
            &&& spec_u32_from_le_bytes(frame.subrange(0, 4)) == payload.len()
            &&& frame.subrange(4, frame.len() as int) == payload
            &&& spec_decode_message(frame.subrange(4, frame.len() as int)) == Some(m)
        }),
{
    let payload = enc_message(m);
    let header = spec_u32_to_le_bytes((payload.len() as u32));
    let frame = header + payload;
    lemma_auto_spec_u32_to_from_le_bytes();
    assert(frame.subrange(0, 4) =~= header);
    assert(frame.subrange(4, frame.len() as int) =~= payload);
    lemma_message_round_trip(m);
}

} // verus!

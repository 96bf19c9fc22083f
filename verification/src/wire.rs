//! The datagram format spoken between cloud servers.
//!
//! Messages are written and read by bincode, in its default format: field
//! by field, little-endian, with fixed-width integers: `sender` (4 bytes),
//! `client` (an 8-byte length, then that many bytes of UTF-8), `data` (an
//! 8-byte length, then that many bytes),
//! `cur_leader` (4 bytes) and `msg_type` (4 bytes). Bytes after the last
//! field are ignored, so a message can be read out of a larger, padded
//! receive buffer.

use vstd::prelude::*;
use vstd::bytes::*;
use vstd::utf8::*;

verus! {

broadcast use vstd::seq_lib::group_seq_properties;

/// A message exchanged between servers.
pub struct ServerMessage {
    pub sender: i32,
    pub client: String,
    pub data: Vec<u8>,
    pub cur_leader: i32,
    pub msg_type: i32,
}

/// The mathematical value of a [`ServerMessage`].
pub struct MessageView {
    pub sender: i32,
    pub client: Seq<char>,
    pub data: Seq<u8>,
    pub cur_leader: i32,
    pub msg_type: i32,
}

impl View for ServerMessage {
    type V = MessageView;

    open spec fn view(&self) -> MessageView {
        MessageView {
            sender: self.sender,
            client: self.client@,
            data: self.data@,
            cur_leader: self.cur_leader,
            msg_type: self.msg_type,
        }
    }
}

/// Why a byte sequence is not a message.
#[derive(PartialEq, Eq, Structural, Debug, Clone, Copy)]
pub enum DecodeError {
    /// The bytes end before the last field does.
    Truncated,
    /// The `client` field is not well-formed UTF-8.
    InvalidUtf8,
}

/// The little-endian encoding of a 32-bit signed integer.
pub open spec fn i32_le(x: i32) -> Seq<u8> {
    spec_u32_to_le_bytes(x as u32)
}

/// The 32-bit signed integer stored little-endian at `pos`.
pub open spec fn i32_at(b: Seq<u8>, pos: int) -> i32 {
    spec_u32_from_le_bytes(b.subrange(pos, pos + 4)) as i32
}

/// The 64-bit unsigned integer stored little-endian at `pos`.
pub open spec fn u64_at(b: Seq<u8>, pos: int) -> int {
    spec_u64_from_le_bytes(b.subrange(pos, pos + 8)) as int
}

/// The encoding of a message.
pub open spec fn encode_spec(m: MessageView) -> Seq<u8> {
    let client = encode_utf8(m.client);
    i32_le(m.sender) + spec_u64_to_le_bytes(client.len() as u64) + client
        + spec_u64_to_le_bytes(m.data.len() as u64) + m.data + i32_le(m.cur_leader) + i32_le(
        m.msg_type,
    )
}

/// Reads a message from the front of `b`, fields in order, and reports the
/// first field that cannot be read.
pub open spec fn decode_spec(b: Seq<u8>) -> Result<MessageView, DecodeError> {
    if b.len() < 12 {
        Err(DecodeError::Truncated)
    } else {
        let client_len = u64_at(b, 4);
        if client_len > b.len() - 12 {
            Err(DecodeError::Truncated)
        } else {
            let client = b.subrange(12, 12 + client_len);
            if !valid_utf8(client) {
                Err(DecodeError::InvalidUtf8)
            } else {
                let p = 12 + client_len;
                if b.len() - p < 8 {
                    Err(DecodeError::Truncated)
                } else {
                    let data_len = u64_at(b, p);
                    if data_len > b.len() - p - 8 {
                        Err(DecodeError::Truncated)
                    } else {
                        let q = p + 8 + data_len;
                        if b.len() - q < 8 {
                            Err(DecodeError::Truncated)
                        } else {
                            Ok(
                                MessageView {
                                    sender: i32_at(b, 0),
                                    client: decode_utf8(client),
                                    data: b.subrange(p + 8, q),
                                    cur_leader: i32_at(b, q),
                                    msg_type: i32_at(b, q + 4),
                                },
                            )
                        }
                    }
                }
            }
        }
    }
}

/// The view of a decoding result.
pub open spec fn decoded_view(r: Result<ServerMessage, DecodeError>) -> Result<
    MessageView,
    DecodeError,
> {
    match r {
        Ok(m) => Ok(m@),
        Err(e) => Err(e),
    }
}

/// `bincode::deserialize` of the tuple `(i32, String, Vec<u8>, i32, i32)`,
/// the fields of a message in order. Bincode's default format reads fixed
/// width little-endian integers and a `u64` length before a string or a
/// byte vector, checks that a string is UTF-8, and ignores trailing bytes;
/// the contract states that as `decode_spec`. Of its errors only running
/// out of input (an I/O error, or on a 32-bit machine a length too large
/// for `usize`) and ill-formed UTF-8 can arise for this tuple.
#[verifier::external_body]
fn bincode_deserialize(data: &[u8]) -> (r: Result<ServerMessage, DecodeError>)
    ensures
        decoded_view(r) == decode_spec(data@),
{
    match bincode::deserialize::<(i32, String, Vec<u8>, i32, i32)>(data) {
        Ok((sender, client, data, cur_leader, msg_type)) => Ok(
            ServerMessage { sender, client, data, cur_leader, msg_type },
        ),
        Err(e) => match *e {
            bincode::ErrorKind::InvalidUtf8Encoding(_) => Err(DecodeError::InvalidUtf8),
            _ => Err(DecodeError::Truncated),
        },
    }
}

/// `bincode::serialize` of the tuple `(i32, String, Vec<u8>, i32, i32)`:
/// in bincode's default format, the bytes `encode_spec` states. It cannot
/// fail for these types.
#[verifier::external_body]
fn bincode_serialize(m: &ServerMessage) -> (v: Vec<u8>)
    ensures
        v@ == encode_spec(m@),
{
    bincode::serialize(&(m.sender, &m.client, &m.data, m.cur_leader, m.msg_type)).unwrap()
}

/// Reads a message from the front of `data`; trailing bytes are ignored.
pub fn deserialize_message(data: &[u8]) -> (r: Result<ServerMessage, DecodeError>)
    ensures
        decoded_view(r) == decode_spec(data@),
{
    bincode_deserialize(data)
}

/// Whether `data` begins with a well-formed message.
pub fn is_serialized_message(data: &[u8]) -> (r: bool)
    ensures
        r == (decode_spec(data@) is Ok),
{
    deserialize_message(data).is_ok()
}

/// Writes a message in the wire format.
pub fn serialize_message(m: &ServerMessage) -> (v: Vec<u8>)
    ensures
        v@ == encode_spec(m@),
{
    bincode_serialize(m)
}

proof fn lemma_i32_bits(x: i32, u: u32)
    ensures
        ((x as u32) as i32) == x,
        ((u as i32) as u32) == u,
{
    assert(((x as u32) as i32) == x) by (bit_vector);
    assert(((u as i32) as u32) == u) by (bit_vector);
}

/// Law (round trip): a written message reads back as the same message,
/// whatever bytes follow it in the buffer.
pub proof fn lemma_decode_encode(m: MessageView, tail: Seq<u8>)
    requires
        encode_utf8(m.client).len() <= u64::MAX,
        m.data.len() <= u64::MAX,
    ensures
        decode_spec(encode_spec(m) + tail) == Ok::<MessageView, DecodeError>(m),
{
    lemma_auto_spec_u32_to_from_le_bytes();
    lemma_auto_spec_u64_to_from_le_bytes();
    encode_utf8_valid_utf8(m.client);
    encode_utf8_decode_utf8(m.client);
    let client = encode_utf8(m.client);
    let cl = client.len() as int;
    let dl = m.data.len() as int;
    let b = encode_spec(m) + tail;
    let p = 12 + cl;
    let q = p + 8 + dl;
    assert(b.subrange(0, 4) =~= i32_le(m.sender));
    assert(b.subrange(4, 12) =~= spec_u64_to_le_bytes(cl as u64));
    assert(b.subrange(12, p) =~= client);
    assert(b.subrange(p, p + 8) =~= spec_u64_to_le_bytes(dl as u64));
    assert(b.subrange(p + 8, q) =~= m.data);
    assert(b.subrange(q, q + 4) =~= i32_le(m.cur_leader));
    assert(b.subrange(q + 4, q + 8) =~= i32_le(m.msg_type));
    lemma_i32_bits(m.sender, 0);
    lemma_i32_bits(m.cur_leader, 0);
    lemma_i32_bits(m.msg_type, 0);
}

/// Law (canonical form): whatever reads as a message begins with exactly
/// the bytes that writing that message produces.
pub proof fn lemma_encode_decode(b: Seq<u8>)
    requires
        decode_spec(b) is Ok,
    ensures
        encode_spec(decode_spec(b)->Ok_0).len() <= b.len(),
        b.subrange(0, encode_spec(decode_spec(b)->Ok_0).len() as int) == encode_spec(
            decode_spec(b)->Ok_0,
        ),
{
    lemma_auto_spec_u32_to_from_le_bytes();
    lemma_auto_spec_u64_to_from_le_bytes();
    let m = decode_spec(b)->Ok_0;
    let cl = u64_at(b, 4);
    let cb = b.subrange(12, 12 + cl);
    decode_utf8_encode_utf8(cb);
    assert(encode_utf8(m.client) == cb);
    let p = 12 + cl;
    let dl = u64_at(b, p);
    let q = p + 8 + dl;
    let s0 = b.subrange(0, 4);
    let s1 = b.subrange(4, 12);
    let s3 = b.subrange(p, p + 8);
    let s5 = b.subrange(q, q + 4);
    let s6 = b.subrange(q + 4, q + 8);
    lemma_i32_bits(0, spec_u32_from_le_bytes(s0));
    lemma_i32_bits(0, spec_u32_from_le_bytes(s5));
    lemma_i32_bits(0, spec_u32_from_le_bytes(s6));
    assert(i32_le(m.sender) == s0);
    assert(i32_le(m.cur_leader) == s5);
    assert(i32_le(m.msg_type) == s6);
    assert(spec_u64_to_le_bytes(cb.len() as u64) == s1);
    assert(spec_u64_to_le_bytes(m.data.len() as u64) == s3);
    assert(b.subrange(0, q + 8) =~= s0 + s1 + cb + s3 + m.data + s5 + s6);
}

} // verus!

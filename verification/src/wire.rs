//! The bytes of the peer wire protocol: the handshake and the
//! length-prefixed messages.

use vstd::prelude::*;
use vstd::slice::{slice_subrange, slice_to_vec};
use vstd::string::StringSliceAdditionalSpecFns;
use vstd::string::StringExecFns;
use crate::decimal::{binary_text, decimal_text, push_binary_text, push_decimal_text};
use crate::digest::{hex_bytes, hex_decode, lemma_unhex_hex};
use crate::torrent::{info_hash_of, Torrent};
use crate::tracker::PEER_ID;

verus! {

/// Length of the handshake frame in bytes.
pub const HANDSHAKE_LEN: usize = 68;

/// The name of the protocol, as the handshake carries it.
pub const PROTOCOL: &'static str = "BitTorrent protocol";

/// The four bytes of `n`, most significant first.
pub open spec fn be32(n: u32) -> Seq<u8> {
    seq![
        (n / 16777216) as u8,
        (n / 65536 % 256) as u8,
        (n / 256 % 256) as u8,
        (n % 256) as u8,
    ]
}

/// The number whose four bytes, most significant first, start at `at` in `s`.
pub open spec fn be32_at(s: Seq<u8>, at: int) -> u32 {
    (s[at] as int * 16777216 + s[at + 1] as int * 65536 + s[at + 2] as int * 256 + s[at + 3] as int) as u32
}

/// Reading the four bytes of a number gives the number back.
pub proof fn lemma_be32_round_trip(n: u32, s: Seq<u8>, at: int)
    requires
        0 <= at,
        at + 4 <= s.len(),
        s.subrange(at, at + 4) == be32(n),
    ensures
        be32_at(s, at) == n,
{
    let b = be32(n);
    assert(s[at] == s.subrange(at, at + 4)[0]);
    assert(s[at + 1] == s.subrange(at, at + 4)[1]);
    assert(s[at + 2] == s.subrange(at, at + 4)[2]);
    assert(s[at + 3] == s.subrange(at, at + 4)[3]);
}

/// Reads the four bytes at `at` of `input` as a number, most significant
/// byte first.
pub fn read_be32(input: &[u8], at: usize) -> (n: u32)
    requires
        at + 4 <= input@.len(),
    ensures
        n == be32_at(input@, at as int),
{
    (input[at] as u32) * 16777216 + (input[at + 1] as u32) * 65536 + (input[at + 2] as u32) * 256
        + (input[at + 3] as u32)
}

/// Appends the four bytes of `n` to `out`, most significant first.
pub fn push_be32(n: u32, out: &mut Vec<u8>)
    ensures
        final(out)@ == old(out)@ + be32(n),
{
    out.push((n / 16777216) as u8);
    out.push((n / 65536 % 256) as u8);
    out.push((n / 256 % 256) as u8);
    out.push((n % 256) as u8);
    assert(out@ =~= old(out)@ + be32(n));
}

/// The 20 bytes of `input` from `at` on.
pub fn take20(input: &[u8], at: usize) -> (out: [u8; 20])
    requires
        at + 20 <= input@.len(),
    ensures
        out@ == input@.subrange(at as int, at + 20),
{
    let total: usize = input.len();
    let mut out = [0u8; 20];
    let mut i: usize = 0;
    while i < 20
        invariant
            i <= 20,
            total == input@.len(),
            at + 20 <= total,
            forall|j: int| 0 <= j < i ==> out@[j] == input@[at + j],
        decreases 20 - i,
    {
        out[i] = input[at + i];
        i = i + 1;
    }
    assert(out@ =~= input@.subrange(at as int, at + 20));
    out
}

/// Why bytes are not a handshake of this protocol.
#[derive(Debug, Clone, Copy, PartialEq, Eq, Structural)]
pub enum HandshakeError {
    /// Fewer than 68 bytes.
    Incomplete,
    /// The length byte is not 19, or the protocol's name is another.
    UnsupportedProtocol,
    /// The info-hash is not 20 bytes in hexadecimal.
    InfoHash,
    /// The client's identifier is not 20 bytes.
    PeerId,
}

/// The frame that opens a connection, in both directions.
#[derive(Debug)]
pub struct Handshake {
    pub info_hash: [u8; 20],
    pub peer_id: [u8; 20],
}

/// The 68 bytes of a handshake: the length of the protocol's name, the name,
/// eight reserved zero bytes, the info-hash and the peer's identifier.
pub open spec fn handshake_bytes(info_hash: Seq<u8>, peer_id: Seq<u8>) -> Seq<u8> {
    seq![19u8] + PROTOCOL.spec_bytes() + Seq::new(8, |i: int| 0u8) + info_hash + peer_id
}

/// The info-hash and the peer's identifier that the handshake at the head of
/// `input` carries.
pub open spec fn parse_handshake(input: Seq<u8>) -> Result<(Seq<u8>, Seq<u8>), HandshakeError> {
    if input.len() < HANDSHAKE_LEN {
        Err(HandshakeError::Incomplete)
    } else if input[0] != 19 || input.subrange(1, 20) != PROTOCOL.spec_bytes() {
        Err(HandshakeError::UnsupportedProtocol)
    } else {
        Ok((input.subrange(28, 48), input.subrange(48, 68)))
    }
}

/// The name of the protocol is 19 ASCII bytes.
pub proof fn lemma_protocol_len()
    ensures
        PROTOCOL.spec_bytes().len() == 19,
        PEER_ID.spec_bytes().len() == 20,
{
    reveal_strlit("BitTorrent protocol");
    reveal_strlit("27454831420650771739");
    vstd::string::is_ascii_spec_bytes("BitTorrent protocol");
    vstd::string::is_ascii_spec_bytes("27454831420650771739");
}

impl Handshake {
    /// The handshake that this client sends for `torrent`: its info-hash and
    /// the client's identifier.
    pub fn new(torrent: &Torrent) -> (r: Result<Handshake, HandshakeError>)
        requires
            torrent.info.length <= i64::MAX,
            torrent.info.piece_length <= i64::MAX,
        ensures
            r matches Ok(h) && h.info_hash@ == info_hash_of(torrent@) && h.peer_id@
                == PEER_ID.spec_bytes(),
    {
        let text = torrent.info_hash();
        let hex = text.as_str();
        proof {
            lemma_hash_text_bytes(info_hash_of(torrent@), hex);
            lemma_unhex_hex(info_hash_of(torrent@));
            lemma_protocol_len();
        }
        let info_hash = match hex_decode(hex.as_bytes()) {
            Ok(bytes) => {
                if bytes.len() != 20 {
                    return Err(HandshakeError::InfoHash);
                }
                take20(bytes.as_slice(), 0)
            },
            Err(_) => {
                return Err(HandshakeError::InfoHash);
            },
        };
        let id = PEER_ID.as_bytes();
        if id.len() != 20 {
            return Err(HandshakeError::PeerId);
        }
        let peer_id = take20(id, 0);
        proof {
            assert(info_hash@ =~= info_hash_of(torrent@));
            assert(peer_id@ =~= PEER_ID.spec_bytes());
        }
        Ok(Handshake { info_hash, peer_id })
    }

    /// The 68 bytes of this handshake.
    pub fn encode(&self) -> (output: Vec<u8>)
        ensures
            output@ == handshake_bytes(self.info_hash@, self.peer_id@),
            output@.len() == HANDSHAKE_LEN,
    {
        proof {
            lemma_protocol_len();
        }
        let mut output: Vec<u8> = Vec::new();
        output.push(19);
        output.extend_from_slice(PROTOCOL.as_bytes());
        let ghost head = output@;
        let mut i: usize = 0;
        while i < 8
            invariant
                i <= 8,
                output@ == head + Seq::new(i as nat, |j: int| 0u8),
            decreases 8 - i,
        {
            output.push(0);
            assert(output@ =~= head + Seq::new((i + 1) as nat, |j: int| 0u8));
            i = i + 1;
        }
        output.extend_from_slice(self.info_hash.as_slice());
        output.extend_from_slice(self.peer_id.as_slice());
        assert(output@ =~= handshake_bytes(self.info_hash@, self.peer_id@));
        output
    }

    /// Reads a handshake from the head of `input`.
    pub fn decode(input: &[u8]) -> (r: Result<Handshake, HandshakeError>)
        ensures
            match parse_handshake(input@) {
                Ok((info_hash, peer_id)) => r matches Ok(h) && h.info_hash@ == info_hash
                    && h.peer_id@ == peer_id,
                Err(e) => r matches Err(f) && f == e,
            },
    {
        if input.len() < HANDSHAKE_LEN {
            return Err(HandshakeError::Incomplete);
        }
        proof {
            lemma_protocol_len();
        }
        if input[0] != 19 || !same_bytes(slice_subrange(input, 1, 20), PROTOCOL.as_bytes()) {
            return Err(HandshakeError::UnsupportedProtocol);
        }
        Ok(Handshake { info_hash: take20(input, 28), peer_id: take20(input, 48) })
    }
}

/// Whether `a` and `b` hold the same bytes.
pub fn same_bytes(a: &[u8], b: &[u8]) -> (same: bool)
    ensures
        same == (a@ == b@),
{
    if a.len() != b.len() {
        return false;
    }
    let mut i: usize = 0;
    while i < a.len()
        invariant
            a@.len() == b@.len(),
            i <= a@.len(),
            forall|j: int| 0 <= j < i ==> a@[j] == b@[j],
        decreases a@.len() - i,
    {
        if a[i] != b[i] {
            return false;
        }
        i = i + 1;
    }
    assert(a@ =~= b@);
    true
}

/// The bytes of a hexadecimal text are its hexadecimal digits.
pub proof fn lemma_hash_text_bytes(data: Seq<u8>, text: &str)
    requires
        text@ == crate::digest::hex_chars(data),
    ensures
        text.spec_bytes() == hex_bytes(data),
{
    assert forall|i: int| 0 <= i < text@.len() implies '\0' <= #[trigger] text@[i] <= '\u{7f}' by {
        let b = data[i / 2];
        assert(0 <= b as int / 16 < 16 && 0 <= b as int % 16 < 16);
        assert(hex_bytes(data)[i] < 128);
    }
    assert(vstd::string::is_ascii(text));
    vstd::string::is_ascii_spec_bytes(text);
    assert forall|i: int| 0 <= i < text@.len() implies text.spec_bytes()[i] == hex_bytes(data)[i] by {
        let b = data[i / 2];
        assert(0 <= b as int / 16 < 16 && 0 <= b as int % 16 < 16);
    }
    assert(text.spec_bytes() =~= hex_bytes(data));
}

/// What a message of the peer protocol says, as mathematics.
pub enum Message {
    Choke,
    Unchoke,
    Interested,
    NotInterested,
    Have(u32),
    Bitfield(Seq<u8>),
    Request { index: u32, begin: u32, length: u32 },
    Piece { index: u32, begin: u32, block: Seq<u8> },
    Cancel { index: u32, begin: u32, length: u32 },
}

/// A message of the peer protocol.
#[derive(Debug, PartialEq, Eq)]
pub enum PeerMessage {
    Choke,
    Unchoke,
    Interested,
    NotInterested,
    Have(u32),
    Bitfield(Vec<u8>),
    Request { index: u32, begin: u32, length: u32 },
    Piece { index: u32, begin: u32, block: Vec<u8> },
    Cancel { index: u32, begin: u32, length: u32 },
}

/// Why bytes are not a message, or a message has no frame.
#[derive(Debug, Clone, Copy, PartialEq, Eq, Structural)]
pub enum MessageError {
    /// The frame ends before the message does.
    Truncated,
    /// The tag names no message.
    UnknownTag,
    /// The message is too long for a 32-bit length prefix.
    TooLong,
}

impl View for PeerMessage {
    type V = Message;

    open spec fn view(&self) -> Message {
        match *self {
            PeerMessage::Choke => Message::Choke,
            PeerMessage::Unchoke => Message::Unchoke,
            PeerMessage::Interested => Message::Interested,
            PeerMessage::NotInterested => Message::NotInterested,
            PeerMessage::Have(index) => Message::Have(index),
            PeerMessage::Bitfield(bytes) => Message::Bitfield(bytes@),
            PeerMessage::Request { index, begin, length } => Message::Request {
                index,
                begin,
                length,
            },
            PeerMessage::Piece { index, begin, block } => Message::Piece {
                index,
                begin,
                block: block@,
            },
            PeerMessage::Cancel { index, begin, length } => Message::Cancel {
                index,
                begin,
                length,
            },
        }
    }
}

/// The tag of the message `m`.
pub open spec fn tag_of(m: Message) -> u8 {
    match m {
        Message::Choke => 0,
        Message::Unchoke => 1,
        Message::Interested => 2,
        Message::NotInterested => 3,
        Message::Have(_) => 4,
        Message::Bitfield(_) => 5,
        Message::Request { .. } => 6,
        Message::Piece { .. } => 7,
        Message::Cancel { .. } => 8,
    }
}

/// What follows the tag in the frame of `m`.
pub open spec fn payload_of(m: Message) -> Seq<u8> {
    match m {
        Message::Choke | Message::Unchoke | Message::Interested | Message::NotInterested => {
            Seq::empty()
        },
        Message::Have(index) => be32(index),
        Message::Bitfield(bytes) => bytes,
        Message::Request { index, begin, length } | Message::Cancel { index, begin, length } => {
            be32(index) + be32(begin) + be32(length)
        },
        Message::Piece { index, begin, block } => be32(index) + be32(begin) + block,
    }
}

/// The body of the frame of `m`: its tag, then its payload.
pub open spec fn body_of(m: Message) -> Seq<u8> {
    seq![tag_of(m)] + payload_of(m)
}

/// The frame of `m`, whose body fits a 32-bit length: the length of the
/// body in four bytes, then the body.
pub open spec fn frame_of(m: Message) -> Seq<u8> {
    be32(body_of(m).len() as u32) + body_of(m)
}

/// The message that the body `s` of a frame holds. Bytes after a message of
/// fixed length are ignored.
pub open spec fn parse_message(s: Seq<u8>) -> Result<Message, MessageError> {
    if s.len() == 0 {
        Err(MessageError::Truncated)
    } else if s[0] == 0 {
        Ok(Message::Choke)
    } else if s[0] == 1 {
        Ok(Message::Unchoke)
    } else if s[0] == 2 {
        Ok(Message::Interested)
    } else if s[0] == 3 {
        Ok(Message::NotInterested)
    } else if s[0] == 4 {
        if s.len() < 5 {
            Err(MessageError::Truncated)
        } else {
            Ok(Message::Have(be32_at(s, 1)))
        }
    } else if s[0] == 5 {
        Ok(Message::Bitfield(s.skip(1)))
    } else if s[0] == 6 {
        if s.len() < 13 {
            Err(MessageError::Truncated)
        } else {
            Ok(Message::Request { index: be32_at(s, 1), begin: be32_at(s, 5), length: be32_at(s, 9) })
        }
    } else if s[0] == 7 {
        if s.len() < 9 {
            Err(MessageError::Truncated)
        } else {
            Ok(Message::Piece { index: be32_at(s, 1), begin: be32_at(s, 5), block: s.skip(9) })
        }
    } else if s[0] == 8 {
        if s.len() < 13 {
            Err(MessageError::Truncated)
        } else {
            Ok(Message::Cancel { index: be32_at(s, 1), begin: be32_at(s, 5), length: be32_at(s, 9) })
        }
    } else {
        Err(MessageError::UnknownTag)
    }
}

impl PeerMessage {
    /// Reads a message from the body of a frame, which is not empty for a
    /// message.
    pub fn decode(input: &[u8]) -> (r: Result<PeerMessage, MessageError>)
        ensures
            match parse_message(input@) {
                Ok(m) => r matches Ok(message) && message@ == m,
                Err(e) => r matches Err(f) && f == e,
            },
    {
        let total: usize = input.len();
        if total == 0 {
            return Err(MessageError::Truncated);
        }
        let tag: u8 = input[0];
        if tag == 0 {
            Ok(PeerMessage::Choke)
        } else if tag == 1 {
            Ok(PeerMessage::Unchoke)
        } else if tag == 2 {
            Ok(PeerMessage::Interested)
        } else if tag == 3 {
            Ok(PeerMessage::NotInterested)
        } else if tag == 4 {
            if total < 5 {
                return Err(MessageError::Truncated);
            }
            Ok(PeerMessage::Have(read_be32(input, 1)))
        } else if tag == 5 {
            let bytes = slice_to_vec(slice_subrange(input, 1, total));
            assert(bytes@ =~= input@.skip(1));
            Ok(PeerMessage::Bitfield(bytes))
        } else if tag == 6 {
            if total < 13 {
                return Err(MessageError::Truncated);
            }
            Ok(
                PeerMessage::Request {
                    index: read_be32(input, 1),
                    begin: read_be32(input, 5),
                    length: read_be32(input, 9),
                },
            )
        } else if tag == 7 {
            if total < 9 {
                return Err(MessageError::Truncated);
            }
            let block = slice_to_vec(slice_subrange(input, 9, total));
            assert(block@ =~= input@.skip(9));
            Ok(PeerMessage::Piece { index: read_be32(input, 1), begin: read_be32(input, 5), block })
        } else if tag == 8 {
            if total < 13 {
                return Err(MessageError::Truncated);
            }
            Ok(
                PeerMessage::Cancel {
                    index: read_be32(input, 1),
                    begin: read_be32(input, 5),
                    length: read_be32(input, 9),
                },
            )
        } else {
            Err(MessageError::UnknownTag)
        }
    }

    /// The tag of this message.
    pub fn tag(&self) -> (t: u8)
        ensures
            t == tag_of(self@),
    {
        match self {
            PeerMessage::Choke => 0,
            PeerMessage::Unchoke => 1,
            PeerMessage::Interested => 2,
            PeerMessage::NotInterested => 3,
            PeerMessage::Have(_) => 4,
            PeerMessage::Bitfield(_) => 5,
            PeerMessage::Request { .. } => 6,
            PeerMessage::Piece { .. } => 7,
            PeerMessage::Cancel { .. } => 8,
        }
    }

    /// The frame of this message: the length of its body, its tag and its
    /// payload. A message whose body does not fit a 32-bit length has none.
    pub fn encode(&self) -> (r: Result<Vec<u8>, MessageError>)
        ensures
            match r {
                Ok(output) => body_of(self@).len() <= u32::MAX && output@ == frame_of(self@),
                Err(e) => body_of(self@).len() > u32::MAX && e == MessageError::TooLong,
            },
    {
        let mut output: Vec<u8> = Vec::new();
        match self {
            PeerMessage::Choke
            | PeerMessage::Unchoke
            | PeerMessage::Interested
            | PeerMessage::NotInterested => {
                push_be32(1, &mut output);
                output.push(self.tag());
            },
            PeerMessage::Have(index) => {
                push_be32(5, &mut output);
                output.push(self.tag());
                push_be32(*index, &mut output);
            },
            PeerMessage::Bitfield(bytes) => {
                if bytes.len() >= 4294967295 {
                    return Err(MessageError::TooLong);
                }
                push_be32((bytes.len() + 1) as u32, &mut output);
                output.push(self.tag());
                output.extend_from_slice(bytes.as_slice());
            },
            PeerMessage::Request { index, begin, length }
            | PeerMessage::Cancel { index, begin, length } => {
                push_be32(13, &mut output);
                output.push(self.tag());
                push_be32(*index, &mut output);
                push_be32(*begin, &mut output);
                push_be32(*length, &mut output);
            },
            PeerMessage::Piece { index, begin, block } => {
                if block.len() > 4294967295 - 9 {
                    return Err(MessageError::TooLong);
                }
                push_be32((9 + block.len()) as u32, &mut output);
                output.push(self.tag());
                push_be32(*index, &mut output);
                push_be32(*begin, &mut output);
                output.extend_from_slice(block.as_slice());
            },
        }
        assert(output@ =~= frame_of(self@));
        Ok(output)
    }
}

/// The message in the body of a frame; a frame with an empty body keeps the
/// connection alive and holds no message.
pub fn decode_frame(body: &[u8]) -> (r: Result<Option<PeerMessage>, MessageError>)
    ensures
        body@.len() == 0 ==> r matches Ok(None),
        body@.len() > 0 ==> match parse_message(body@) {
            Ok(m) => r matches Ok(Some(message)) && message@ == m,
            Err(e) => r matches Err(f) && f == e,
        },
{
    if body.len() == 0 {
        return Ok(None);
    }
    match PeerMessage::decode(body) {
        Ok(message) => Ok(Some(message)),
        Err(e) => Err(e),
    }
}

/// The length of the body that follows the four bytes `prefix` of a frame.
pub fn frame_length(prefix: &[u8; 4]) -> (n: u32)
    ensures
        n == be32_at(prefix@, 0),
{
    read_be32(prefix.as_slice(), 0)
}

/// Reading the bytes of a handshake gives its info-hash and its peer's
/// identifier back.
pub proof fn lemma_handshake_round_trip(info_hash: Seq<u8>, peer_id: Seq<u8>)
    requires
        info_hash.len() == 20,
        peer_id.len() == 20,
    ensures
        handshake_bytes(info_hash, peer_id).len() == HANDSHAKE_LEN,
        parse_handshake(handshake_bytes(info_hash, peer_id)) == Ok::<
            (Seq<u8>, Seq<u8>),
            HandshakeError,
        >((info_hash, peer_id)),
{
    lemma_protocol_len();
    let bytes = handshake_bytes(info_hash, peer_id);
    assert(bytes.subrange(1, 20) =~= PROTOCOL.spec_bytes());
    assert(bytes.subrange(28, 48) =~= info_hash);
    assert(bytes.subrange(48, 68) =~= peer_id);
}

/// Reading the body of the frame of a message gives the message back, and
/// the frame's first four bytes are the length of that body.
pub proof fn lemma_message_round_trip(m: Message)
    requires
        body_of(m).len() <= u32::MAX,
    ensures
        frame_of(m).len() == 4 + body_of(m).len(),
        be32_at(frame_of(m), 0) == body_of(m).len(),
        parse_message(frame_of(m).skip(4)) == Ok::<Message, MessageError>(m),
{
    let body = body_of(m);
    let frame = frame_of(m);
    assert(frame.subrange(0, 4) =~= be32(body.len() as u32));
    lemma_be32_round_trip(body.len() as u32, frame, 0);
    assert(frame.skip(4) =~= body);
    match m {
        Message::Have(index) => {
            assert(body.subrange(1, 5) =~= be32(index));
            lemma_be32_round_trip(index, body, 1);
        },
        Message::Bitfield(bytes) => {
            assert(body.skip(1) =~= bytes);
        },
        Message::Request { index, begin, length } | Message::Cancel { index, begin, length } => {
            assert(body.subrange(1, 5) =~= be32(index));
            assert(body.subrange(5, 9) =~= be32(begin));
            assert(body.subrange(9, 13) =~= be32(length));
            lemma_be32_round_trip(index, body, 1);
            lemma_be32_round_trip(begin, body, 5);
            lemma_be32_round_trip(length, body, 9);
        },
        Message::Piece { index, begin, block } => {
            assert(body.subrange(1, 5) =~= be32(index));
            assert(body.subrange(5, 9) =~= be32(begin));
            lemma_be32_round_trip(index, body, 1);
            lemma_be32_round_trip(begin, body, 5);
            assert(body.skip(9) =~= block);
        },
        _ => {},
    }
}

/// The bytes `bytes` in binary, each with the fewest digits, without
/// anything between them.
pub open spec fn bits_text(bytes: Seq<u8>) -> Seq<char>
    decreases bytes.len(),
{
    if bytes.len() == 0 {
        Seq::empty()
    } else {
        bits_text(bytes.drop_last()) + binary_text(bytes.last() as nat)
    }
}

/// The three numbers of a request or a cancel for a reader.
pub open spec fn range_text(index: u32, begin: u32, length: u32) -> Seq<char> {
    " { index: "@ + decimal_text(index as nat) + ", begin: "@ + decimal_text(begin as nat)
        + ", length: "@ + decimal_text(length as nat) + " }"@
}

/// The message `m` for a reader: its name and its numbers; of a bitfield the
/// bits, and of a piece the length of the block in place of the block.
pub open spec fn description(m: Message) -> Seq<char> {
    match m {
        Message::Choke => "PeerMessage::Choke"@,
        Message::Unchoke => "PeerMessage::Unchoke"@,
        Message::Interested => "PeerMessage::Interested"@,
        Message::NotInterested => "PeerMessage::NotInterested"@,
        Message::Have(index) => "PeerMessage::Have("@ + decimal_text(index as nat) + ")"@,
        Message::Bitfield(bytes) => "PeerMessage::Bitfield("@ + bits_text(bytes) + ")"@,
        Message::Request { index, begin, length } => "PeerMessage::Request"@ + range_text(
            index,
            begin,
            length,
        ),
        Message::Piece { index, begin, block } => "PeerMessage::Piece { index: "@ + decimal_text(
            index as nat,
        ) + ", begin: "@ + decimal_text(begin as nat) + ", block.len(): "@ + decimal_text(
            block.len(),
        ) + " }"@,
        Message::Cancel { index, begin, length } => "PeerMessage::Cancel"@ + range_text(
            index,
            begin,
            length,
        ),
    }
}

/// Appends the three numbers of a request or a cancel for a reader to `out`.
pub fn push_range_text(index: u32, begin: u32, length: u32, out: &mut String)
    ensures
        final(out)@ == old(out)@ + range_text(index, begin, length),
{
    out.append(" { index: ");
    push_decimal_text(index as u64, out);
    out.append(", begin: ");
    push_decimal_text(begin as u64, out);
    out.append(", length: ");
    push_decimal_text(length as u64, out);
    out.append(" }");
    assert(out@ =~= old(out)@ + range_text(index, begin, length));
}

impl PeerMessage {
    /// This message for a reader.
    pub fn describe(&self) -> (text: String)
        ensures
            text@ == description(self@),
    {
        let mut text = String::new();
        match self {
            PeerMessage::Choke => {
                text.append("PeerMessage::Choke");
            },
            PeerMessage::Unchoke => {
                text.append("PeerMessage::Unchoke");
            },
            PeerMessage::Interested => {
                text.append("PeerMessage::Interested");
            },
            PeerMessage::NotInterested => {
                text.append("PeerMessage::NotInterested");
            },
            PeerMessage::Have(index) => {
                text.append("PeerMessage::Have(");
                push_decimal_text(*index as u64, &mut text);
                text.append(")");
            },
            PeerMessage::Bitfield(bytes) => {
                text.append("PeerMessage::Bitfield(");
                let ghost head = text@;
                let mut i: usize = 0;
                while i < bytes.len()
                    invariant
                        i <= bytes@.len(),
                        text@ == head + bits_text(bytes@.subrange(0, i as int)),
                    decreases bytes@.len() - i,
                {
                    push_binary_text(bytes[i], &mut text);
                    proof {
                        let next = bytes@.subrange(0, i + 1);
                        assert(next.drop_last() =~= bytes@.subrange(0, i as int));
                        assert(text@ =~= head + bits_text(next));
                    }
                    i = i + 1;
                }
                text.append(")");
                assert(bytes@.subrange(0, i as int) =~= bytes@);
            },
            PeerMessage::Request { index, begin, length } => {
                text.append("PeerMessage::Request");
                push_range_text(*index, *begin, *length, &mut text);
            },
            PeerMessage::Piece { index, begin, block } => {
                text.append("PeerMessage::Piece { index: ");
                push_decimal_text(*index as u64, &mut text);
                text.append(", begin: ");
                push_decimal_text(*begin as u64, &mut text);
                text.append(", block.len(): ");
                push_decimal_text(block.len() as u64, &mut text);
                text.append(" }");
            },
            PeerMessage::Cancel { index, begin, length } => {
                text.append("PeerMessage::Cancel");
                push_range_text(*index, *begin, *length, &mut text);
            },
        }
        assert(text@ =~= description(self@));
        text
    }
}

} // verus!

//! The messages of the protocol and their byte encoding.
//!
//! Every message starts with a one-byte type. Numbers are big-endian; a text
//! field is one length byte followed by that many bytes of UTF-8.
use crate::bytes_buf::{
    be16, be32, buf_advance, buf_bytes, buf_contents, buf_extend, buf_put_u16, buf_put_u32,
    buf_put_u8, buf_reserve,
};
use crate::network::{Camera, Ticket, TicketView};
use crate::text::utf8_text;
use bytes::BytesMut;
use vstd::prelude::*;
use vstd::utf8::{decode_utf8, encode_utf8, valid_utf8};

verus! {

/// A message, as the client and the server exchange it.
#[derive(Debug, PartialEq, Eq)]
pub enum MessageType {
    Error(String),
    Plate(String, u32),
    Ticket(Ticket),
    WantHeartbeat(u32),
    HeartBeat,
    IAmCamera(Camera),
    IAmDispatcher(Vec<u16>),
}

/// A message with its text as characters and its road list as a sequence.
pub enum MessageView {
    Error(Seq<char>),
    Plate(Seq<char>, u32),
    Ticket(TicketView),
    WantHeartbeat(u32),
    HeartBeat,
    IAmCamera(Camera),
    IAmDispatcher(Seq<u16>),
}

impl View for MessageType {
    type V = MessageView;

    open spec fn view(&self) -> MessageView {
        match self {
            MessageType::Error(s) => MessageView::Error(s@),
            MessageType::Plate(p, t) => MessageView::Plate(p@, *t),
            MessageType::Ticket(t) => MessageView::Ticket(t@),
            MessageType::WantHeartbeat(i) => MessageView::WantHeartbeat(*i),
            MessageType::HeartBeat => MessageView::HeartBeat,
            MessageType::IAmCamera(c) => MessageView::IAmCamera(*c),
            MessageType::IAmDispatcher(r) => MessageView::IAmDispatcher(r@),
        }
    }
}

// The type bytes of the messages.
pub const ERROR_TYPE: u8 = 0x10;

pub const PLATE_TYPE: u8 = 0x20;

pub const TICKET_TYPE: u8 = 0x21;

pub const WANT_HEARTBEAT_TYPE: u8 = 0x40;

pub const HEARTBEAT_TYPE: u8 = 0x41;

pub const I_AM_CAMERA_TYPE: u8 = 0x80;

pub const I_AM_DISPATCHER_TYPE: u8 = 0x81;

// ---------------------------------------------------------------------------
// Encoding
// ---------------------------------------------------------------------------

/// A text field: its byte length, kept to its low eight bits, then its UTF-8.
pub open spec fn text_field(s: Seq<char>) -> Seq<u8> {
    seq![(encode_utf8(s).len() % 256) as u8] + encode_utf8(s)
}

/// The road numbers of a dispatcher, two bytes each.
pub open spec fn roads_field(r: Seq<u16>) -> Seq<u8>
    decreases r.len(),
{
    if r.len() == 0 {
        seq![]
    } else {
        roads_field(r.drop_last()) + be16(r.last())
    }
}

/// The bytes of a message on the wire.
pub open spec fn spec_encode(m: MessageView) -> Seq<u8> {
    match m {
        MessageView::Error(s) => seq![ERROR_TYPE] + text_field(s),
        MessageView::Plate(p, t) => seq![PLATE_TYPE] + text_field(p) + be32(t),
        MessageView::Ticket(t) => seq![TICKET_TYPE] + text_field(t.plate) + be16(t.road) + be16(
            t.mile1,
        ) + be32(t.timestamp1) + be16(t.mile2) + be32(t.timestamp2) + be16(t.speed),
        MessageView::WantHeartbeat(i) => seq![WANT_HEARTBEAT_TYPE] + be32(i),
        MessageView::HeartBeat => seq![HEARTBEAT_TYPE],
        MessageView::IAmCamera(c) => seq![I_AM_CAMERA_TYPE] + be16(c.road) + be16(c.mile) + be16(
            c.limit,
        ),
        MessageView::IAmDispatcher(r) => seq![I_AM_DISPATCHER_TYPE, (r.len() % 256) as u8]
            + roads_field(r),
    }
}

// ---------------------------------------------------------------------------
// Decoding
// ---------------------------------------------------------------------------

/// The big-endian number in the two bytes at `p`.
pub open spec fn u16_at(b: Seq<u8>, p: int) -> u16 {
    (b[p] as int * 256 + b[p + 1] as int) as u16
}

/// The big-endian number in the four bytes at `p`.
pub open spec fn u32_at(b: Seq<u8>, p: int) -> u32 {
    (b[p] as int * 0x100_0000 + b[p + 1] as int * 0x1_0000 + b[p + 2] as int * 256 + b[p
        + 3] as int) as u32
}

/// What a decoding attempt finds at the front of a buffer.
pub enum Decoded {
    /// The buffer ends before the message does.
    Incomplete,
    /// A text field is not valid UTF-8.
    BadText,
    /// A whole message.
    Message(MessageView),
}

/// The message types that the decoder knows.
pub open spec fn known_type(t: u8) -> bool {
    t == ERROR_TYPE || t == PLATE_TYPE || t == TICKET_TYPE || t == WANT_HEARTBEAT_TYPE || t
        == HEARTBEAT_TYPE || t == I_AM_CAMERA_TYPE || t == I_AM_DISPATCHER_TYPE
}

/// The message types whose second byte is a length (of text or of a list).
pub open spec fn length_prefixed(t: u8) -> bool {
    t == ERROR_TYPE || t == PLATE_TYPE || t == TICKET_TYPE || t == I_AM_DISPATCHER_TYPE
}

/// The buffers on which decoding stops the program: an unknown type byte,
/// or a type that needs a length byte with nothing after it.
pub open spec fn spec_decode_panics(b: Seq<u8>) -> bool {
    b.len() > 0 && (!known_type(b[0]) || (length_prefixed(b[0]) && b.len() < 2))
}

/// The position just past the text field that starts at 1.
pub open spec fn text_end(b: Seq<u8>) -> int {
    2 + b[1] as int
}

/// The text of the field that starts at 1.
pub open spec fn text_bytes(b: Seq<u8>) -> Seq<u8> {
    b.subrange(2, text_end(b))
}

/// The roads listed from position 2 on, `b[1]` of them.
pub open spec fn roads_at(b: Seq<u8>) -> Seq<u16> {
    Seq::new(b[1] as nat, |i: int| u16_at(b, 2 + 2 * i))
}

/// How a ticket's number fields are read after its plate, which ends at `e`:
/// the outcome and the position reached. A short buffer stops at the start
/// of the first field that it does not hold in full.
pub open spec fn ticket_fields(b: Seq<u8>, plate: Seq<char>, e: int) -> (Decoded, int) {
    if b.len() < e + 2 {
        (Decoded::Incomplete, e)
    } else if b.len() < e + 4 {
        (Decoded::Incomplete, e + 2)
    } else if b.len() < e + 8 {
        (Decoded::Incomplete, e + 4)
    } else if b.len() < e + 10 {
        (Decoded::Incomplete, e + 8)
    } else if b.len() < e + 14 {
        (Decoded::Incomplete, e + 10)
    } else if b.len() < e + 16 {
        (Decoded::Incomplete, e + 14)
    } else {
        (
            Decoded::Message(
                MessageView::Ticket(
                    TicketView {
                        plate,
                        road: u16_at(b, e),
                        mile1: u16_at(b, e + 2),
                        timestamp1: u32_at(b, e + 4),
                        mile2: u16_at(b, e + 8),
                        timestamp2: u32_at(b, e + 10),
                        speed: u16_at(b, e + 14),
                    },
                ),
            ),
            e + 16,
        )
    }
}

/// Decoding the front of buffer `b`: what is found, and how many bytes the
/// decoder takes off the front. The decoder takes each field off as it reads
/// it, so a message cut short still loses the fields read before the cut;
/// a text field that is not UTF-8 is left in place.
pub open spec fn spec_decode(b: Seq<u8>) -> (Decoded, int) {
    if b.len() == 0 {
        (Decoded::Incomplete, 0)
    } else if b[0] == ERROR_TYPE || b[0] == PLATE_TYPE || b[0] == TICKET_TYPE {
        let e = text_end(b);
        if b.len() < e {
            (Decoded::Incomplete, 1)
        } else if !valid_utf8(text_bytes(b)) {
            (Decoded::BadText, 1)
        } else {
            let s = decode_utf8(text_bytes(b));
            if b[0] == ERROR_TYPE {
                (Decoded::Message(MessageView::Error(s)), e)
            } else if b[0] == PLATE_TYPE {
                if b.len() < e + 4 {
                    (Decoded::Incomplete, e)
                } else {
                    (Decoded::Message(MessageView::Plate(s, u32_at(b, e))), e + 4)
                }
            } else {
                ticket_fields(b, s, e)
            }
        }
    } else if b[0] == WANT_HEARTBEAT_TYPE {
        if b.len() < 5 {
            (Decoded::Incomplete, 1)
        } else {
            (Decoded::Message(MessageView::WantHeartbeat(u32_at(b, 1))), 5)
        }
    } else if b[0] == HEARTBEAT_TYPE {
        (Decoded::Message(MessageView::HeartBeat), 1)
    } else if b[0] == I_AM_CAMERA_TYPE {
        if b.len() < 3 {
            (Decoded::Incomplete, 1)
        } else if b.len() < 5 {
            (Decoded::Incomplete, 3)
        } else if b.len() < 7 {
            (Decoded::Incomplete, 5)
        } else {
            (
                Decoded::Message(
                    MessageView::IAmCamera(
                        Camera { road: u16_at(b, 1), mile: u16_at(b, 3), limit: u16_at(b, 5) },
                    ),
                ),
                7,
            )
        }
    } else {
        // the one type left: a dispatcher and its road list
        let end = 2 + 2 * (b[1] as int);
        if b.len() < end {
            (Decoded::Incomplete, 2 + 2 * ((b.len() - 2) / 2))
        } else {
            (Decoded::Message(MessageView::IAmDispatcher(roads_at(b))), end)
        }
    }
}

/// The ways decoding fails.
#[derive(Debug, PartialEq, Eq, Clone, Copy)]
pub enum CodecError {
    /// A text field is not valid UTF-8.
    InvalidText,
}

/// The ways a buffer can stop the decoder: the message type is unknown, or a
/// length byte is missing.
#[derive(Debug, PartialEq, Eq, Clone, Copy)]
pub enum DecodeHalt {
    UnknownType(u8),
    MissingLength,
}


/// The big-endian number in the two bytes at `pos`, when the buffer holds them.
fn get_u16(bytes: &[u8], pos: usize) -> (r: Option<u16>)
    requires
        pos <= bytes@.len(),
    ensures
        r is Some <==> bytes@.len() - pos >= 2,
        r matches Some(v) ==> v == u16_at(bytes@, pos as int),
{
    if bytes.len() - pos < 2 {
        return None;
    }
    let v = (bytes[pos] as u16) * 256 + bytes[pos + 1] as u16;
    Some(v)
}

/// The big-endian number in the four bytes at `pos`, when the buffer holds them.
fn get_u32(bytes: &[u8], pos: usize) -> (r: Option<u32>)
    requires
        pos <= bytes@.len(),
    ensures
        r is Some <==> bytes@.len() - pos >= 4,
        r matches Some(v) ==> v == u32_at(bytes@, pos as int),
{
    if bytes.len() - pos < 4 {
        return None;
    }
    let v = (bytes[pos] as u32) * 0x100_0000 + (bytes[pos + 1] as u32) * 0x1_0000
        + (bytes[pos + 2] as u32) * 256 + bytes[pos + 3] as u32;
    Some(v)
}

/// The text field whose length byte is at 1: `Ok(None)` when the buffer ends
/// before the text does, an error when the text is not UTF-8.
fn get_string(bytes: &[u8]) -> (r: Result<Option<String>, CodecError>)
    requires
        bytes@.len() >= 2,
    ensures
        r == Ok::<Option<String>, CodecError>(None) <==> bytes@.len() < text_end(bytes@),
        bytes@.len() >= text_end(bytes@) ==> (r is Err <==> !valid_utf8(text_bytes(bytes@))),
        r matches Ok(Some(s)) ==> bytes@.len() >= text_end(bytes@) && s@ == decode_utf8(
            text_bytes(bytes@),
        ),
{
    let len = bytes[1] as usize;
    if bytes.len() - 1 < len + 1 {
        return Ok(None);
    }
    let end = 2 + len;
    match utf8_text(&bytes[2..end]) {
        Some(s) => Ok(Some(s.to_owned())),
        None => Err(CodecError::InvalidText),
    }
}


/// The outcome of decoding, as a value, and how many bytes were taken.
pub open spec fn decode_result_matches(
    r: Result<Option<MessageType>, CodecError>,
    d: Decoded,
) -> bool {
    match d {
        Decoded::Incomplete => r == Ok::<Option<MessageType>, CodecError>(None),
        Decoded::BadText => r == Err::<Option<MessageType>, CodecError>(CodecError::InvalidText),
        Decoded::Message(m) => r matches Ok(Some(msg)) && msg@ == m,
    }
}

/// Decodes the message at the front of `bytes`; also returns how many bytes
/// the decoder takes off the front.
fn decode_bytes(bytes: &[u8]) -> (r: (Result<Option<MessageType>, CodecError>, usize))
    requires
        !spec_decode_panics(bytes@),
    ensures
        decode_result_matches(r.0, spec_decode(bytes@).0),
        r.1 as int == spec_decode(bytes@).1,
{
    let len = bytes.len();
    if len == 0 {
        return (Ok(None), 0);
    }
    let msg_type = bytes[0];
    if msg_type == ERROR_TYPE || msg_type == PLATE_TYPE || msg_type == TICKET_TYPE {
        let plate = match get_string(bytes) {
            Ok(Some(s)) => s,
            Ok(None) => return (Ok(None), 1),
            Err(e) => return (Err(e), 1),
        };
        let e = 2 + bytes[1] as usize;
        if msg_type == ERROR_TYPE {
            return (Ok(Some(MessageType::Error(plate))), e);
        }
        if msg_type == PLATE_TYPE {
            return match get_u32(bytes, e) {
                Some(timestamp) => (Ok(Some(MessageType::Plate(plate, timestamp))), e + 4),
                None => (Ok(None), e),
            };
        }
        let road = match get_u16(bytes, e) {
            Some(n) => n,
            None => return (Ok(None), e),
        };
        let mile1 = match get_u16(bytes, e + 2) {
            Some(n) => n,
            None => return (Ok(None), e + 2),
        };
        let timestamp1 = match get_u32(bytes, e + 4) {
            Some(n) => n,
            None => return (Ok(None), e + 4),
        };
        let mile2 = match get_u16(bytes, e + 8) {
            Some(n) => n,
            None => return (Ok(None), e + 8),
        };
        let timestamp2 = match get_u32(bytes, e + 10) {
            Some(n) => n,
            None => return (Ok(None), e + 10),
        };
        let speed = match get_u16(bytes, e + 14) {
            Some(n) => n,
            None => return (Ok(None), e + 14),
        };
        let ticket = Ticket { plate, road, mile1, timestamp1, mile2, timestamp2, speed };
        return (Ok(Some(MessageType::Ticket(ticket))), e + 16);
    }
    if msg_type == WANT_HEARTBEAT_TYPE {
        return match get_u32(bytes, 1) {
            Some(interval) => (Ok(Some(MessageType::WantHeartbeat(interval))), 5),
            None => (Ok(None), 1),
        };
    }
    if msg_type == HEARTBEAT_TYPE {
        return (Ok(Some(MessageType::HeartBeat)), 1);
    }
    if msg_type == I_AM_CAMERA_TYPE {
        let road = match get_u16(bytes, 1) {
            Some(n) => n,
            None => return (Ok(None), 1),
        };
        let mile = match get_u16(bytes, 3) {
            Some(n) => n,
            None => return (Ok(None), 3),
        };
        let limit = match get_u16(bytes, 5) {
            Some(n) => n,
            None => return (Ok(None), 5),
        };
        return (Ok(Some(MessageType::IAmCamera(Camera { road, mile, limit }))), 7);
    }
    // the dispatcher's road list
    let num_roads = bytes[1];
    let mut roads: Vec<u16> = Vec::new();
    let mut pos: usize = 2;
    let mut i: u8 = 0;
    while i < num_roads
        invariant
            bytes@.len() == len,
            len >= 2,
            num_roads == bytes@[1],
            bytes@[0] == I_AM_DISPATCHER_TYPE,
            i <= num_roads,
            pos == 2 + 2 * (i as int),
            pos <= len,
            roads@ == Seq::new(i as nat, |k: int| u16_at(bytes@, 2 + 2 * k)),
        decreases num_roads - i,
    {
        let road = match get_u16(bytes, pos) {
            Some(n) => n,
            None => {
                assert((len - 2) / 2 == i as int);
                return (Ok(None), pos);
            },
        };
        roads.push(road);
        pos = pos + 2;
        i = i + 1;
        assert(roads@ =~= Seq::new(i as nat, |k: int| u16_at(bytes@, 2 + 2 * k)));
    }
    assert(roads@ =~= roads_at(bytes@));
    (Ok(Some(MessageType::IAmDispatcher(roads))), pos)
}


/// The road list field has two bytes per road.
pub proof fn lemma_roads_field_len(r: Seq<u16>)
    ensures
        roads_field(r).len() == 2 * r.len(),
    decreases r.len(),
{
    if r.len() > 0 {
        lemma_roads_field_len(r.drop_last());
    }
}

/// Decodes the stream's messages one at a time.
pub struct MessageDecoder {}

impl MessageDecoder {
    /// Why decoding the front of `src` would stop the program, if it would:
    /// an unknown type byte, or a length byte that is not there.
    pub fn halt_reason(&self, src: &BytesMut) -> (r: Option<DecodeHalt>)
        ensures
            r is None <==> !spec_decode_panics(buf_contents(*src)),
            r matches Some(DecodeHalt::UnknownType(t)) ==> buf_contents(*src).len() > 0
                && buf_contents(*src)[0] == t && !known_type(t),
            r matches Some(DecodeHalt::MissingLength) ==> buf_contents(*src).len() == 1
                && known_type(buf_contents(*src)[0]) && length_prefixed(buf_contents(*src)[0]),
    {
        let bytes = buf_bytes(src);
        if bytes.len() == 0 {
            return None;
        }
        let t = bytes[0];
        if !(t == ERROR_TYPE || t == PLATE_TYPE || t == TICKET_TYPE || t == WANT_HEARTBEAT_TYPE
            || t == HEARTBEAT_TYPE || t == I_AM_CAMERA_TYPE || t == I_AM_DISPATCHER_TYPE) {
            return Some(DecodeHalt::UnknownType(t));
        }
        if (t == ERROR_TYPE || t == PLATE_TYPE || t == TICKET_TYPE || t == I_AM_DISPATCHER_TYPE)
            && bytes.len() < 2 {
            return Some(DecodeHalt::MissingLength);
        }
        None
    }

    /// Decodes the message at the front of `src` and takes the bytes it read
    /// off the front: `Ok(None)` when the buffer ends before the message
    /// does, an error when a text field is not UTF-8 (its bytes then stay).
    pub fn decode(&mut self, src: &mut BytesMut) -> (res: Result<Option<MessageType>, CodecError>)
        requires
            !spec_decode_panics(buf_contents(*old(src))),
        ensures
            decode_result_matches(res, spec_decode(buf_contents(*old(src))).0),
            buf_contents(*final(src)) == buf_contents(*old(src)).skip(
                spec_decode(buf_contents(*old(src))).1,
            ),
            0 <= spec_decode(buf_contents(*old(src))).1 <= buf_contents(*old(src)).len(),
            *final(self) == *old(self),
    {
        let (res, taken) = decode_bytes(buf_bytes(src));
        buf_advance(src, taken);
        res
    }
}

/// Writes messages to the stream.
pub struct MessageEncoder {}

impl MessageEncoder {
    /// Whether `item` can be appended to `dst` without the buffer outgrowing
    /// `isize::MAX` bytes (beyond that, growing the buffer panics).
    pub fn fits(&self, item: &MessageType, dst: &BytesMut) -> (r: bool)
        ensures
            r == (buf_contents(*dst).len() + spec_encode(item@).len() <= isize::MAX),
    {
        let have = buf_bytes(dst).len();
        proof {
            lemma_encode_len(item@);
        }
        let need: u128 = match item {
            MessageType::Error(s) => 2 + s.as_str().as_bytes().len() as u128,
            MessageType::Plate(p, _) => 6 + p.as_str().as_bytes().len() as u128,
            MessageType::Ticket(t) => 18 + t.plate.as_str().as_bytes().len() as u128,
            MessageType::WantHeartbeat(_) => 5,
            MessageType::HeartBeat => 1,
            MessageType::IAmCamera(_) => 7,
            MessageType::IAmDispatcher(r) => 2 + 2 * r.len() as u128,
        };
        have as u128 + need <= isize::MAX as u128
    }

    /// Appends the bytes of `item` to `dst`. A text longer than 255 bytes, or
    /// a list of more than 255 roads, is written whole after a length byte
    /// that keeps only the low eight bits of its length.
    pub fn encode(&mut self, item: MessageType, dst: &mut BytesMut) -> (res: Result<(), CodecError>)
        requires
            buf_contents(*old(dst)).len() + spec_encode(item@).len() <= isize::MAX,
        ensures
            res is Ok,
            buf_contents(*final(dst)) == buf_contents(*old(dst)) + spec_encode(item@),
            *final(self) == *old(self),
    {
        let ghost start = buf_contents(*dst);
        proof {
            lemma_encode_len(item@);
        }
        match item {
            MessageType::Error(s) => {
                let b = s.as_str().as_bytes();
                buf_reserve(dst, 2 + b.len());
                buf_put_u8(dst, ERROR_TYPE);
                buf_put_u8(dst, (b.len() % 256) as u8);
                buf_extend(dst, b);
                assert(buf_contents(*dst) =~= start + spec_encode(MessageView::Error(s@)));
            },
            MessageType::Plate(plate, timestamp) => {
                let b = plate.as_str().as_bytes();
                buf_reserve(dst, 6 + b.len());
                buf_put_u8(dst, PLATE_TYPE);
                buf_put_u8(dst, (b.len() % 256) as u8);
                buf_extend(dst, b);
                buf_put_u32(dst, timestamp);
                assert(buf_contents(*dst) =~= start + spec_encode(
                    MessageView::Plate(plate@, timestamp),
                ));
            },
            MessageType::Ticket(t) => {
                let b = t.plate.as_str().as_bytes();
                buf_reserve(dst, 17 + b.len());
                buf_put_u8(dst, TICKET_TYPE);
                buf_put_u8(dst, (b.len() % 256) as u8);
                buf_extend(dst, b);
                buf_put_u16(dst, t.road);
                buf_put_u16(dst, t.mile1);
                buf_put_u32(dst, t.timestamp1);
                buf_put_u16(dst, t.mile2);
                buf_put_u32(dst, t.timestamp2);
                buf_put_u16(dst, t.speed);
                assert(buf_contents(*dst) =~= start + spec_encode(MessageView::Ticket(t@)));
            },
            MessageType::WantHeartbeat(i) => {
                buf_reserve(dst, 5);
                buf_put_u8(dst, WANT_HEARTBEAT_TYPE);
                buf_put_u32(dst, i);
                assert(buf_contents(*dst) =~= start + spec_encode(MessageView::WantHeartbeat(i)));
            },
            MessageType::HeartBeat => {
                buf_put_u8(dst, HEARTBEAT_TYPE);
                assert(buf_contents(*dst) =~= start + spec_encode(MessageView::HeartBeat));
            },
            MessageType::IAmCamera(c) => {
                buf_reserve(dst, 7);
                buf_put_u8(dst, I_AM_CAMERA_TYPE);
                buf_put_u16(dst, c.road);
                buf_put_u16(dst, c.mile);
                buf_put_u16(dst, c.limit);
                assert(buf_contents(*dst) =~= start + spec_encode(MessageView::IAmCamera(c)));
            },
            MessageType::IAmDispatcher(r) => {
                buf_reserve(dst, 2 + r.len());
                buf_put_u8(dst, I_AM_DISPATCHER_TYPE);
                buf_put_u8(dst, (r.len() % 256) as u8);
                let ghost head = buf_contents(*dst);
                let mut i: usize = 0;
                while i < r.len()
                    invariant
                        i <= r@.len(),
                        head.len() + 2 * r@.len() <= isize::MAX,
                        buf_contents(*dst) == head + roads_field(r@.take(i as int)),
                    decreases r.len() - i,
                {
                    proof {
                        lemma_roads_field_len(r@.take(i as int));
                    }
                    buf_put_u16(dst, r[i]);
                    assert(r@.take(i + 1).drop_last() =~= r@.take(i as int));
                    i = i + 1;
                }
                assert(r@.take(r@.len() as int) =~= r@);
                assert(buf_contents(*dst) =~= start + spec_encode(MessageView::IAmDispatcher(r@)));
            },
        }
        Ok(())
    }
}

/// The length of a message's encoding.
pub proof fn lemma_encode_len(m: MessageView)
    ensures
        spec_encode(m).len() == match m {
            MessageView::Error(s) => 2 + encode_utf8(s).len(),
            MessageView::Plate(p, _) => 6 + encode_utf8(p).len(),
            MessageView::Ticket(t) => 18 + encode_utf8(t.plate).len(),
            MessageView::WantHeartbeat(_) => 5,
            MessageView::HeartBeat => 1,
            MessageView::IAmCamera(_) => 7,
            MessageView::IAmDispatcher(r) => 2 + 2 * r.len(),
        },
{
    if let MessageView::IAmDispatcher(r) = m {
        lemma_roads_field_len(r);
    }
}

} // verus!

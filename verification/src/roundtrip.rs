//! What the decoder makes of what the encoder writes.
use crate::bytes_buf::{be16, be32};
use crate::messages::{
    roads_at, roads_field, spec_decode, spec_decode_panics, spec_encode, text_bytes, text_end,
    u16_at, u32_at, Decoded, MessageView, lemma_roads_field_len,
};
use vstd::prelude::*;
use vstd::utf8::{encode_utf8, encode_utf8_decode_utf8, encode_utf8_valid_utf8};

verus! {

/// A message whose length bytes hold its lengths exactly: every text is at
/// most 255 bytes of UTF-8, and a dispatcher lists at most 255 roads.
pub open spec fn lengths_fit(m: MessageView) -> bool {
    match m {
        MessageView::Error(s) => encode_utf8(s).len() < 256,
        MessageView::Plate(p, _) => encode_utf8(p).len() < 256,
        MessageView::Ticket(t) => encode_utf8(t.plate).len() < 256,
        MessageView::IAmDispatcher(r) => r.len() < 256,
        _ => true,
    }
}

proof fn lemma_u16_at(v: u16, b: Seq<u8>, p: int)
    requires
        0 <= p,
        p + 2 <= b.len(),
        b[p] == be16(v)[0],
        b[p + 1] == be16(v)[1],
    ensures
        u16_at(b, p) == v,
{
    let hi = v / 256;
    let lo = v % 256;
    assert(v == hi * 256 + lo);
}

proof fn lemma_u32_at(v: u32, b: Seq<u8>, p: int)
    requires
        0 <= p,
        p + 4 <= b.len(),
        b[p] == be32(v)[0],
        b[p + 1] == be32(v)[1],
        b[p + 2] == be32(v)[2],
        b[p + 3] == be32(v)[3],
    ensures
        u32_at(b, p) == v,
{
    let a = v / 0x100_0000;
    let c = (v / 0x1_0000) % 256;
    let d = (v / 256) % 256;
    let e = v % 256;
    assert(v == a * 0x100_0000 + c * 0x1_0000 + d * 256 + e) by (nonlinear_arith)
        requires
            a == v / 0x100_0000,
            c == (v / 0x1_0000) % 256,
            d == (v / 256) % 256,
            e == v % 256,
    ;
}

/// The bytes of road `i` sit at `2 * i` in the road list field.
proof fn lemma_roads_field_index(r: Seq<u16>, i: int)
    requires
        0 <= i < r.len(),
    ensures
        roads_field(r)[2 * i] == be16(r[i])[0],
        roads_field(r)[2 * i + 1] == be16(r[i])[1],
    decreases r.len(),
{
    lemma_roads_field_len(r.drop_last());
    if i < r.len() - 1 {
        lemma_roads_field_index(r.drop_last(), i);
    }
}

/// Decoding gives back every message that was encoded, whatever follows it
/// in the buffer, and takes exactly its bytes, provided its length bytes
/// hold its lengths; such a buffer never stops the decoder.
pub proof fn law_decode_encode(m: MessageView, rest: Seq<u8>)
    requires
        lengths_fit(m),
    ensures
        !spec_decode_panics(spec_encode(m) + rest),
        spec_decode(spec_encode(m) + rest) == (Decoded::Message(m), spec_encode(m).len() as int),
{
    let b = spec_encode(m) + rest;
    match m {
        MessageView::Error(s) => {
            assert(b.subrange(2, 2 + encode_utf8(s).len() as int) =~= encode_utf8(s));
            lemma_text_roundtrip(s, b);
            assert(b.len() >= text_end(b));
        },
        MessageView::Plate(p, t) => {
            assert(b.subrange(2, 2 + encode_utf8(p).len() as int) =~= encode_utf8(p));
            lemma_text_roundtrip(p, b);
            let e = text_end(b);
            lemma_u32_at(t, b, e);
        },
        MessageView::Ticket(t) => {
            assert(b.subrange(2, 2 + encode_utf8(t.plate).len() as int) =~= encode_utf8(t.plate));
            lemma_text_roundtrip(t.plate, b);
            let e = text_end(b);
            lemma_u16_at(t.road, b, e);
            lemma_u16_at(t.mile1, b, e + 2);
            lemma_u32_at(t.timestamp1, b, e + 4);
            lemma_u16_at(t.mile2, b, e + 8);
            lemma_u32_at(t.timestamp2, b, e + 10);
            lemma_u16_at(t.speed, b, e + 14);
        },
        MessageView::WantHeartbeat(i) => {
            lemma_u32_at(i, b, 1);
        },
        MessageView::HeartBeat => {},
        MessageView::IAmCamera(c) => {
            lemma_u16_at(c.road, b, 1);
            lemma_u16_at(c.mile, b, 3);
            lemma_u16_at(c.limit, b, 5);
        },
        MessageView::IAmDispatcher(r) => {
            lemma_roads_field_len(r);
            assert(b[1] as int == r.len());
            assert forall|i: int| 0 <= i < r.len() implies u16_at(b, 2 + 2 * i) == r[i] by {
                lemma_roads_field_index(r, i);
                lemma_u16_at(r[i], b, 2 + 2 * i);
            }
            assert(roads_at(b) =~= r);
        },
    }
}

/// The text field of an encoded message holds the text's UTF-8 at 2..end.
proof fn lemma_text_roundtrip(s: Seq<char>, b: Seq<u8>)
    requires
        encode_utf8(s).len() < 256,
        b.len() >= 2 + encode_utf8(s).len(),
        b[1] == (encode_utf8(s).len() % 256) as u8,
        b.subrange(2, 2 + encode_utf8(s).len() as int) == encode_utf8(s),
    ensures
        text_end(b) == 2 + encode_utf8(s).len(),
        text_bytes(b) == encode_utf8(s),
        vstd::utf8::valid_utf8(text_bytes(b)),
        vstd::utf8::decode_utf8(text_bytes(b)) == s,
{
    encode_utf8_valid_utf8(s);
    encode_utf8_decode_utf8(s);
}


/// A message that has only partly arrived is not decoded: decoding a proper
/// prefix of an encoded message finds the buffer incomplete (wherever that
/// prefix does not stop the decoder), and takes no more than the prefix.
pub proof fn law_partial_message_waits(m: MessageView, k: int)
    requires
        lengths_fit(m),
        0 <= k < spec_encode(m).len(),
        !spec_decode_panics(spec_encode(m).take(k)),
    ensures
        spec_decode(spec_encode(m).take(k)).0 == Decoded::Incomplete,
        spec_decode(spec_encode(m).take(k)).1 <= k,
{
    let b = spec_encode(m).take(k);
    assert(b.len() == k);
    if k > 0 {
        assert(b[0] == spec_encode(m)[0]);
    }
    match m {
        MessageView::Error(s) => {
            if k >= 2 {
                assert(b[1] == spec_encode(m)[1]);
            }
        },
        MessageView::Plate(p, t) => lemma_partial_plate(p, t, k),
        MessageView::Ticket(t) => lemma_partial_ticket(t, k),
        MessageView::IAmDispatcher(r) => {
            lemma_roads_field_len(r);
            if k >= 2 {
                assert(b[1] == spec_encode(m)[1]);
            }
        },
        _ => {},
    }
}

proof fn lemma_partial_plate(p: Seq<char>, t: u32, k: int)
    requires
        encode_utf8(p).len() < 256,
        0 <= k < spec_encode(MessageView::Plate(p, t)).len(),
        !spec_decode_panics(spec_encode(MessageView::Plate(p, t)).take(k)),
    ensures
        spec_decode(spec_encode(MessageView::Plate(p, t)).take(k)).0 == Decoded::Incomplete,
        spec_decode(spec_encode(MessageView::Plate(p, t)).take(k)).1 <= k,
{
    let full = spec_encode(MessageView::Plate(p, t));
    let b = full.take(k);
    assert(b.len() == k);
    if k > 0 {
        assert(b[0] == full[0]);
    }
    if k >= 2 {
        assert(b[1] == full[1]);
    }
    if k >= 2 + encode_utf8(p).len() {
        assert(b.subrange(2, 2 + encode_utf8(p).len() as int) =~= encode_utf8(p));
        lemma_text_roundtrip(p, b);
    }
}

proof fn lemma_partial_ticket(t: crate::network::TicketView, k: int)
    requires
        encode_utf8(t.plate).len() < 256,
        0 <= k < spec_encode(MessageView::Ticket(t)).len(),
        !spec_decode_panics(spec_encode(MessageView::Ticket(t)).take(k)),
    ensures
        spec_decode(spec_encode(MessageView::Ticket(t)).take(k)).0 == Decoded::Incomplete,
        spec_decode(spec_encode(MessageView::Ticket(t)).take(k)).1 <= k,
{
    let full = spec_encode(MessageView::Ticket(t));
    let b = full.take(k);
    assert(b.len() == k);
    if k > 0 {
        assert(b[0] == full[0]);
    }
    if k >= 2 {
        assert(b[1] == full[1]);
    }
    if k >= 2 + encode_utf8(t.plate).len() {
        assert(b.subrange(2, 2 + encode_utf8(t.plate).len() as int) =~= encode_utf8(t.plate));
        lemma_text_roundtrip(t.plate, b);
    }
}

} // verus!

use bytes::BytesMut;
use speed_daemon::messages::{CodecError, DecodeHalt, MessageDecoder, MessageEncoder, MessageType};
use speed_daemon::network::{Camera, Ticket};

fn decode_one(msg: &[u8]) -> MessageType {
    let mut decoder = MessageDecoder {};
    let mut src = BytesMut::from(msg);
    assert_eq!(decoder.halt_reason(&src), None);
    let frame = decoder.decode(&mut src).unwrap().unwrap();
    assert!(src.is_empty());
    frame
}

fn encode_one(item: MessageType) -> Vec<u8> {
    let mut encoder = MessageEncoder {};
    let mut dst = BytesMut::new();
    assert!(encoder.fits(&item, &dst));
    encoder.encode(item, &mut dst).unwrap();
    dst.to_vec()
}

#[test]
fn test_decode_error() {
    let msg: [u8; 5] = [0x10, 0x03, 0x62, 0x61, 0x64];
    let frame = decode_one(&msg[..]);
    assert_eq!(frame, MessageType::Error(String::from("bad")));
}

#[test]
fn test_decode_plate() {
    let msg: [u8; 13] = [
        0x20, 0x07, 0x52, 0x45, 0x30, 0x35, 0x42, 0x4b, 0x47, 0x00, 0x01, 0xe2, 0x40,
    ];
    let frame = decode_one(&msg[..]);
    assert_eq!(frame, MessageType::Plate(String::from("RE05BKG"), 123456,));
}

#[test]
fn test_decode_ticket() {
    let msg: [u8; 25] = [
        0x21, 0x07, 0x52, 0x45, 0x30, 0x35, 0x42, 0x4b, 0x47, 0x01, 0x70, 0x04, 0xd2, 0x00,
        0x0f, 0x42, 0x40, 0x04, 0xd3, 0x00, 0x0f, 0x42, 0x7c, 0x17, 0x70,
    ];
    let frame = decode_one(&msg[..]);
    assert_eq!(
        frame,
        MessageType::Ticket(Ticket {
            plate: String::from("RE05BKG"),
            road: 368,
            mile1: 1234,
            timestamp1: 1000000,
            mile2: 1235,
            timestamp2: 1000060,
            speed: 6000,
        })
    );
}

#[test]
fn test_decode_want_heartbeat() {
    let msg: [u8; 5] = [0x40, 0x00, 0x00, 0x04, 0xdb];
    let frame = decode_one(&msg[..]);
    assert_eq!(frame, MessageType::WantHeartbeat(1243));
}

#[test]
fn test_decode_heartbeat() {
    let msg: [u8; 1] = [0x41];
    let frame = decode_one(&msg[..]);
    assert_eq!(frame, MessageType::HeartBeat);
}

#[test]
fn test_decode_iamcamera() {
    let msg: [u8; 7] = [0x80, 0x00, 0x42, 0x00, 0x64, 0x00, 0x3c];
    let frame = decode_one(&msg[..]);
    assert_eq!(
        frame,
        MessageType::IAmCamera(Camera {
            road: 66,
            mile: 100,
            limit: 60
        })
    );
}

#[test]
fn test_decode_iamdispatcher() {
    let msg: [u8; 8] = [0x81, 0x03, 0x00, 0x42, 0x01, 0x70, 0x13, 0x88];
    let frame = decode_one(&msg[..]);
    assert_eq!(frame, MessageType::IAmDispatcher(vec![66, 368, 5000]));
}

#[test]
fn test_encode_error() {
    let error = String::from("illegal msg");
    let buffer = encode_one(MessageType::Error(error));
    assert_eq!(
        buffer.as_slice(),
        [0x10, 0x0b, 0x69, 0x6c, 0x6c, 0x65, 0x67, 0x61, 0x6c, 0x20, 0x6d, 0x73, 0x67]
    );
}

#[test]
fn test_encode_plate() {
    let buffer = encode_one(MessageType::Plate(String::from("UN1X"), 1000));
    assert_eq!(
        buffer.as_slice(),
        [0x20, 0x04, 0x55, 0x4e, 0x31, 0x58, 0x00, 0x00, 0x03, 0xe8]
    );
}

#[test]
fn test_encode_ticket() {
    let ticket = Ticket {
        plate: String::from("UN1X"),
        road: 66,
        mile1: 100,
        timestamp1: 123456,
        mile2: 110,
        timestamp2: 123816,
        speed: 10000,
    };
    let buffer = encode_one(MessageType::Ticket(ticket));
    assert_eq!(
        buffer.as_slice(),
        [
            0x21, 0x04, 0x55, 0x4e, 0x31, 0x58, 0x00, 0x42, 0x00, 0x64, 0x00, 0x01, 0xe2, 0x40,
            0x00, 0x6e, 0x00, 0x01, 0xe3, 0xa8, 0x27, 0x10
        ]
    );
}

#[test]
fn test_encode_want_heartbeat() {
    let buffer = encode_one(MessageType::WantHeartbeat(10));
    assert_eq!(buffer.as_slice(), [0x40, 0x00, 0x00, 0x00, 0x0a]);
}

#[test]
fn test_encode_heartbeat() {
    let buffer = encode_one(MessageType::HeartBeat);
    assert_eq!(buffer.as_slice(), [0x41]);
}

#[test]
fn test_encode_iamcamera() {
    let buffer = encode_one(MessageType::IAmCamera(Camera {
        road: 368,
        mile: 1234,
        limit: 40,
    }));
    assert_eq!(buffer.as_slice(), [0x80, 0x01, 0x70, 0x04, 0xd2, 0x00, 0x28]);
}

#[test]
fn test_encode_iamdispatcher() {
    let buffer = encode_one(MessageType::IAmDispatcher(vec![66, 368, 5000]));
    assert_eq!(buffer.as_slice(), [0x81, 0x03, 0x00, 0x42, 0x01, 0x70, 0x13, 0x88]);
}

// ---------------------------------------------------------------------------

#[test]
fn decode_empty_buffer_waits() {
    let mut decoder = MessageDecoder {};
    let mut src = BytesMut::new();
    assert_eq!(decoder.decode(&mut src), Ok(None));
    assert!(src.is_empty());
}

#[test]
fn decode_takes_one_message_and_leaves_the_rest() {
    let mut decoder = MessageDecoder {};
    let mut src = BytesMut::from(&[0x41u8, 0x40, 0x00, 0x00, 0x00, 0x0a, 0x41][..]);
    assert_eq!(decoder.decode(&mut src), Ok(Some(MessageType::HeartBeat)));
    assert_eq!(&src[..], &[0x40, 0x00, 0x00, 0x00, 0x0a, 0x41]);
    assert_eq!(decoder.decode(&mut src), Ok(Some(MessageType::WantHeartbeat(10))));
    assert_eq!(&src[..], &[0x41]);
}

#[test]
fn decode_cut_short_plate_loses_the_fields_read() {
    // the plate text is complete, the timestamp is not
    let mut decoder = MessageDecoder {};
    let mut src = BytesMut::from(&[0x20u8, 0x04, 0x55, 0x4e, 0x31, 0x58, 0x00, 0x00][..]);
    assert_eq!(decoder.decode(&mut src), Ok(None));
    assert_eq!(&src[..], &[0x00, 0x00]);
}

#[test]
fn decode_cut_short_text_keeps_the_length_byte() {
    let mut decoder = MessageDecoder {};
    let mut src = BytesMut::from(&[0x10u8, 0x05, 0x61, 0x62][..]);
    assert_eq!(decoder.decode(&mut src), Ok(None));
    assert_eq!(&src[..], &[0x05, 0x61, 0x62]);
}

#[test]
fn decode_cut_short_camera_stops_at_the_missing_field() {
    let mut decoder = MessageDecoder {};
    let mut src = BytesMut::from(&[0x80u8, 0x00, 0x42, 0x00, 0x64, 0x00][..]);
    assert_eq!(decoder.decode(&mut src), Ok(None));
    assert_eq!(&src[..], &[0x00]);
}

#[test]
fn decode_cut_short_road_list_takes_whole_roads() {
    let mut decoder = MessageDecoder {};
    let mut src = BytesMut::from(&[0x81u8, 0x03, 0x00, 0x42, 0x01, 0x70, 0x13][..]);
    assert_eq!(decoder.decode(&mut src), Ok(None));
    assert_eq!(&src[..], &[0x13]);
}

#[test]
fn decode_cut_short_ticket_stops_at_the_missing_field() {
    let mut decoder = MessageDecoder {};
    // plate "AB", road 1, mile1 2, then two bytes of a timestamp
    let mut src = BytesMut::from(&[0x21u8, 0x02, 0x41, 0x42, 0x00, 0x01, 0x00, 0x02, 0x00, 0x00][..]);
    assert_eq!(decoder.decode(&mut src), Ok(None));
    assert_eq!(&src[..], &[0x00, 0x00]);
}

#[test]
fn decode_bad_utf8_is_an_error_and_keeps_the_text() {
    let mut decoder = MessageDecoder {};
    let mut src = BytesMut::from(&[0x10u8, 0x02, 0xff, 0xfe][..]);
    assert_eq!(decoder.decode(&mut src), Err(CodecError::InvalidText));
    assert_eq!(&src[..], &[0x02, 0xff, 0xfe]);
}

#[test]
fn decode_multibyte_utf8_text() {
    let msg = [0x10u8, 0x02, 0xc3, 0xa9];
    assert_eq!(decode_one(&msg), MessageType::Error(String::from("é")));
}

#[test]
fn halt_reasons() {
    let decoder = MessageDecoder {};
    assert_eq!(
        decoder.halt_reason(&BytesMut::from(&[0x99u8, 0x00][..])),
        Some(DecodeHalt::UnknownType(0x99))
    );
    assert_eq!(
        decoder.halt_reason(&BytesMut::from(&[0x20u8][..])),
        Some(DecodeHalt::MissingLength)
    );
    assert_eq!(
        decoder.halt_reason(&BytesMut::from(&[0x81u8][..])),
        Some(DecodeHalt::MissingLength)
    );
    assert_eq!(decoder.halt_reason(&BytesMut::from(&[0x40u8][..])), None);
    assert_eq!(decoder.halt_reason(&BytesMut::new()), None);
}

#[test]
fn encode_appends_after_existing_bytes() {
    let mut encoder = MessageEncoder {};
    let mut dst = BytesMut::from(&[0x41u8][..]);
    encoder.encode(MessageType::WantHeartbeat(1), &mut dst).unwrap();
    assert_eq!(&dst[..], &[0x41, 0x40, 0x00, 0x00, 0x00, 0x01]);
}

#[test]
fn encode_long_text_keeps_low_length_bits() {
    let text = "x".repeat(300);
    let buffer = encode_one(MessageType::Error(text));
    assert_eq!(buffer.len(), 302);
    assert_eq!(buffer[0], 0x10);
    assert_eq!(buffer[1], (300 % 256) as u8);
}

#[test]
fn encode_then_decode_gives_back_each_message() {
    let messages = vec![
        MessageType::Error(String::from("no")),
        MessageType::Plate(String::from("XY12"), 4_000_000_000),
        MessageType::Ticket(Ticket {
            plate: String::from("ÅB"),
            road: 1,
            mile1: 2,
            timestamp1: 3,
            mile2: 4,
            timestamp2: 5,
            speed: 65535,
        }),
        MessageType::WantHeartbeat(0),
        MessageType::HeartBeat,
        MessageType::IAmCamera(Camera { road: 65535, mile: 0, limit: 255 }),
        MessageType::IAmDispatcher(vec![]),
        MessageType::IAmDispatcher((0..255).collect()),
    ];
    let mut encoder = MessageEncoder {};
    let mut buf = BytesMut::new();
    for m in &messages {
        let copy = match m {
            MessageType::Error(s) => MessageType::Error(s.clone()),
            MessageType::Plate(p, t) => MessageType::Plate(p.clone(), *t),
            MessageType::Ticket(t) => MessageType::Ticket(t.clone()),
            MessageType::WantHeartbeat(i) => MessageType::WantHeartbeat(*i),
            MessageType::HeartBeat => MessageType::HeartBeat,
            MessageType::IAmCamera(c) => MessageType::IAmCamera(*c),
            MessageType::IAmDispatcher(r) => MessageType::IAmDispatcher(r.clone()),
        };
        encoder.encode(copy, &mut buf).unwrap();
    }
    let mut decoder = MessageDecoder {};
    for m in &messages {
        assert_eq!(decoder.halt_reason(&buf), None);
        assert_eq!(decoder.decode(&mut buf).unwrap().as_ref(), Some(m));
    }
    assert!(buf.is_empty());
}

#[test]
fn every_prefix_of_a_message_waits() {
    let bytes = encode_one(MessageType::Ticket(Ticket {
        plate: String::from("RE05BKG"),
        road: 368,
        mile1: 1234,
        timestamp1: 1000000,
        mile2: 1235,
        timestamp2: 1000060,
        speed: 6000,
    }));
    let mut decoder = MessageDecoder {};
    for k in 2..bytes.len() {
        let mut src = BytesMut::from(&bytes[..k]);
        assert_eq!(decoder.halt_reason(&src), None);
        assert_eq!(decoder.decode(&mut src), Ok(None));
        assert!(src.len() < k);
    }
}

#[test]
fn fits_checks_room() {
    let encoder = MessageEncoder {};
    assert!(encoder.fits(&MessageType::HeartBeat, &BytesMut::new()));
}

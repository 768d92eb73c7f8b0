use bytes::BytesMut;
use rzbridge::codec::{push_bytes, push_le16, push_le32, read_le16, read_le32, write_le32};
use rzbridge::error::RZError;
use rzbridge::protocol::{
    build_error_response, drain_frame, find_next_router_magic, prepend_header, try_decode_router,
    DecodeResult, DrainStep, Header, ProtocolError, KEEPALIVE_SEGMENT, MAX_ROUTER_LEN,
    ROUTER_MAGIC, SHARD_MAGIC,
};

fn router_frame(segment: &[u8], flag: u8, shard: &[u8]) -> Vec<u8> {
    let len = 2 + segment.len() + shard.len();
    let mut out = vec![0xFE];
    out.extend_from_slice(&(len as u32).to_le_bytes());
    out.push(segment.len() as u8);
    out.extend_from_slice(segment);
    out.push(flag);
    out.extend_from_slice(shard);
    out
}

fn parse_error(buf: &[u8]) -> String {
    match try_decode_router(buf) {
        DecodeResult::Error(RZError::ParseError(what)) => what,
        _ => panic!("a parse error was expected"),
    }
}

fn drained(bytes: &[u8], ended: bool) -> (DrainStep, Vec<u8>) {
    let mut buf = BytesMut::from(bytes);
    let step = drain_frame(&mut buf, ended);
    (step, buf.to_vec())
}

#[test]
fn integers_are_little_endian() {
    let mut out = Vec::new();
    push_le16(&mut out, 0x0102);
    push_le32(&mut out, 0x03040506);
    push_bytes(&mut out, &[7, 8]);
    assert_eq!(out, vec![2, 1, 6, 5, 4, 3, 7, 8]);
    assert_eq!(read_le16(&out, 0), 0x0102);
    assert_eq!(read_le32(&out, 2), 0x03040506);
    write_le32(&mut out, 3, u32::MAX - 1);
    assert_eq!(out, vec![2, 1, 6, 0xFE, 0xFF, 0xFF, 0xFF, 8]);
    assert_eq!(read_le32(&out, 3), u32::MAX - 1);
}

#[test]
fn constants_of_the_format() {
    assert_eq!(ROUTER_MAGIC, 0xFE);
    assert_eq!(SHARD_MAGIC, 0xFF);
    assert_eq!(KEEPALIVE_SEGMENT, "__keepalive__");
    assert_eq!(MAX_ROUTER_LEN, 16 * 1024 * 1024);
}

#[test]
fn prepend_header_frames_a_payload() {
    assert_eq!(
        prepend_header(0x01020304, &[9, 8]),
        vec![0xFF, 4, 3, 2, 1, 2, 0, 0, 0, 9, 8]
    );
    assert_eq!(prepend_header(7, &[]), vec![0xFF, 7, 0, 0, 0, 0, 0, 0, 0]);
    let long = vec![1u8; 70000];
    let frame = prepend_header(1, &long);
    assert_eq!(&frame[5..9], &70000u32.to_le_bytes());
    assert_eq!(&frame[9..], &long[..]);
}

#[test]
fn error_responses_by_code() {
    let digits = |code: u8| build_error_response(5, code)[28..].to_vec();
    assert_eq!(digits(1), b"404".to_vec());
    assert_eq!(digits(2), b"503".to_vec());
    assert_eq!(digits(3), b"408".to_vec());
    assert_eq!(digits(4), b"500".to_vec());
    assert_eq!(digits(0), b"500".to_vec());
    assert_eq!(digits(255), b"500".to_vec());
    let mut expected = vec![0xFF];
    expected.extend_from_slice(&0xA1B2C3D4u32.to_le_bytes());
    expected.extend_from_slice(&22u32.to_le_bytes());
    expected.push(5);
    expected.extend_from_slice(b"ERROR");
    expected.extend_from_slice(&1u16.to_le_bytes());
    expected.extend_from_slice(&1u16.to_le_bytes());
    expected.push(1);
    expected.extend_from_slice(&4u32.to_le_bytes());
    expected.extend_from_slice(&3u32.to_le_bytes());
    expected.extend_from_slice(b"500");
    assert_eq!(build_error_response(0xA1B2C3D4, 4), expected);
}

#[test]
fn error_response_can_be_drained() {
    let frame = build_error_response(77, 4);
    match drained(&frame, false) {
        (DrainStep::Frame(Header { clr_id, status_len, field_cnt }, bytes), rest) => {
            assert_eq!((clr_id, status_len, field_cnt), (77, 5, 1));
            assert_eq!(bytes.to_vec(), frame);
            assert!(rest.is_empty());
        }
        _ => panic!("a frame was expected"),
    }
}

#[test]
fn whole_router_frame_is_decoded() {
    let shard = prepend_header(0x0A0B0C0D, &[1, 2, 3]);
    let mut buf = router_frame("hôtel".as_bytes(), 1, &shard);
    let frame = buf.len();
    buf.extend_from_slice(&[0xFE, 9]);
    match try_decode_router(&buf) {
        DecodeResult::Frame {
            frame_len,
            segment,
            is_write,
            shard_frame,
            clrid_offset,
            original_clrid,
        } => {
            assert_eq!(frame_len, frame);
            assert_eq!(segment, "hôtel");
            assert!(is_write);
            assert_eq!(shard_frame, shard);
            assert_eq!(clrid_offset, 6 + 6 + 2);
            assert_eq!(original_clrid, 0x0A0B0C0D);
        }
        _ => panic!("a frame was expected"),
    }
}

#[test]
fn only_flag_one_is_a_write() {
    let shard = prepend_header(1, &[]);
    for flag in [0u8, 1, 2, 255] {
        match try_decode_router(&router_frame(b"", flag, &shard)) {
            DecodeResult::Frame { is_write, segment, .. } => {
                assert_eq!(is_write, flag == 1);
                assert_eq!(segment, "");
            }
            _ => panic!("a frame was expected"),
        }
    }
}

#[test]
fn incomplete_router_frame_needs_more() {
    let frame = router_frame(b"s", 0, &prepend_header(1, &[4]));
    for n in 0..frame.len() {
        assert!(matches!(try_decode_router(&frame[..n]), DecodeResult::NeedMore));
    }
    assert!(matches!(try_decode_router(&frame), DecodeResult::Frame { .. }));
}

#[test]
fn malformed_router_frames() {
    assert_eq!(parse_error(&[1, 0, 0, 0, 0]), "bad router magic");
    assert_eq!(parse_error(&[0xFE, 1, 0, 0, 1]), "frame too large");
    assert_eq!(parse_error(&[0xFE, 0, 0, 0, 0]), "router total_len too small");
    assert_eq!(parse_error(&[0xFE, 1, 0, 0, 0, 0]), "router total_len too small");
    assert_eq!(parse_error(&[0xFE, 2, 0, 0, 0, 1, 7]), "segment length out of range");
    assert_eq!(parse_error(&[0xFE, 3, 0, 0, 0, 1, 0xC3, 0]), "segment not utf-8");
    assert_eq!(parse_error(&[0xFE, 2, 0, 0, 0, 0, 1]), "missing shard magic");
    assert_eq!(parse_error(&router_frame(b"s", 0, &[0xFE, 0, 0, 0, 0])), "missing shard magic");
    assert_eq!(parse_error(&router_frame(b"s", 0, &[0xFF, 0, 0, 0])), "missing shard magic");
}

#[test]
fn length_limit_is_inclusive() {
    let mut head = vec![0xFE];
    head.extend_from_slice(&MAX_ROUTER_LEN.to_le_bytes());
    assert!(matches!(try_decode_router(&head), DecodeResult::NeedMore));
    let mut over = vec![0xFE];
    over.extend_from_slice(&(MAX_ROUTER_LEN + 1).to_le_bytes());
    assert_eq!(parse_error(&over), "frame too large");
}

#[test]
fn shortest_shard_part_is_taken() {
    match try_decode_router(&router_frame(b"", 1, &[0xFF, 1, 0, 0, 0])) {
        DecodeResult::Frame { shard_frame, original_clrid, .. } => {
            assert_eq!(shard_frame, vec![0xFF, 1, 0, 0, 0]);
            assert_eq!(original_clrid, 1);
        }
        _ => panic!("a frame was expected"),
    }
}

#[test]
fn segment_text_is_read_as_utf8() {
    let shard = prepend_header(1, &[]);
    for text in ["", "plain", "höher", "日本", "𝄞"] {
        match try_decode_router(&router_frame(text.as_bytes(), 0, &shard)) {
            DecodeResult::Frame { segment, .. } => assert_eq!(segment, text),
            _ => panic!("a frame was expected"),
        }
    }
    for bad in [&[0x80u8][..], &[0xED, 0xA0, 0x80], &[0xF5, 0x80, 0x80, 0x80], &[0xC0, 0xAF]] {
        assert_eq!(parse_error(&router_frame(bad, 0, &shard)), "segment not utf-8");
    }
}

#[test]
fn next_magic_is_found_from_a_place_on() {
    let buf = [1, 0xFE, 2, 0xFE];
    assert_eq!(find_next_router_magic(&buf, 0), Some(1));
    assert_eq!(find_next_router_magic(&buf, 1), Some(1));
    assert_eq!(find_next_router_magic(&buf, 2), Some(3));
    assert_eq!(find_next_router_magic(&buf, 4), None);
    assert_eq!(find_next_router_magic(&[], 0), None);
    assert_eq!(find_next_router_magic(&[0xFF], 0), None);
}

#[test]
fn framed_payload_comes_out_again() {
    let frame = prepend_header(0xDEADBEEF, &[2, b'O', b'K', 3, 1, 42]);
    let mut stream = frame.clone();
    stream.extend_from_slice(&[0xFF, 1]);
    match drained(&stream, false) {
        (DrainStep::Frame(header, bytes), rest) => {
            assert_eq!(header.clr_id, 0xDEADBEEF);
            assert_eq!(header.status_len, 2);
            assert_eq!(header.field_cnt, 259);
            assert_eq!(bytes.to_vec(), frame);
            assert_eq!(rest, vec![0xFF, 1]);
        }
        _ => panic!("a frame was expected"),
    }
}

#[test]
fn incomplete_response_waits_or_fails() {
    let frame = prepend_header(3, &[0, 1, 0]);
    for n in 0..frame.len() {
        let (step, rest) = drained(&frame[..n], false);
        assert!(matches!(step, DrainStep::NeedMore));
        assert_eq!(rest, frame[..n].to_vec());
        let (step, _) = drained(&frame[..n], true);
        assert!(matches!(step, DrainStep::Failed(ProtocolError::ShortFrame)));
    }
    assert!(matches!(drained(&frame, true).0, DrainStep::Frame(..)));
}

#[test]
fn response_without_magic_fails() {
    let (step, rest) = drained(&[0xFE, 0, 0, 0, 0, 0, 0, 0, 0], false);
    assert!(matches!(step, DrainStep::Failed(ProtocolError::MissingMagic(0xFE))));
    assert_eq!(rest.len(), 9);
    assert!(matches!(drained(&[0xFE, 0, 0], false).0, DrainStep::NeedMore));
}

#[test]
fn response_with_short_payload_is_taken_and_fails() {
    let short = |payload: &[u8]| {
        let mut stream = prepend_header(1, payload);
        stream.push(0xAB);
        match drained(&stream, false) {
            (DrainStep::Failed(ProtocolError::ShortPayload(what)), rest) => (what, rest),
            _ => panic!("a short payload was expected"),
        }
    };
    assert_eq!(short(&[]), ("empty payload".to_string(), vec![0xAB]));
    assert_eq!(short(&[0, 1]), ("missing field count".to_string(), vec![0xAB]));
    assert_eq!(short(&[3, 1, 2, 3, 4]), ("missing field count".to_string(), vec![0xAB]));
}

#[test]
fn protocol_errors_are_told() {
    assert_eq!(ProtocolError::ShortFrame.message(), "incomplete frame");
    assert_eq!(ProtocolError::MissingMagic(0x0A).message(), "missing magic byte: got 0x0a");
    assert_eq!(ProtocolError::MissingMagic(0xFE).message(), "missing magic byte: got 0xfe");
    assert_eq!(
        ProtocolError::ShortPayload("empty payload".to_string()).message(),
        "short payload: empty payload"
    );
    assert_eq!(
        ProtocolError::ExtraBytes(120).message(),
        "extra 120 bytes after parsing fields"
    );
    assert_eq!(ProtocolError::InvalidUtf8.message(), "invalid UTF-8 in status string");
    assert_eq!(
        ProtocolError::InvalidResponse("x".to_string()).message(),
        "invalid response: x"
    );
}

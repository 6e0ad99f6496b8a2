use base64::Engine;
use mcumgr_toolkit_web::framing::{
    begin_assembly, extend_assembly, FrameError, SerialFramer, SERIAL_CHUNK_SIZE, ZEPHYR_MTU,
};

const ECHO_HEADER: [u8; 8] = [0x08, 0, 0, 9, 0, 0, 0, 0];
const ECHO_PAYLOAD: [u8; 9] = [0xa1, 0x61, 0x64, 0x65, 0x68, 0x65, 0x6c, 0x6c, 0x6f];

fn flatten(lines: &[Vec<u8>]) -> Vec<u8> {
    lines.iter().flatten().copied().collect()
}

#[test]
fn encode_small_frame_exact() {
    let framer = SerialFramer::new();
    let lines = framer.encode_frame(ECHO_HEADER, &ECHO_PAYLOAD);
    assert_eq!(lines.len(), 1);
    let mut expected = vec![0x06, 0x09];
    expected.extend_from_slice(b"ABMIAAAJAAAAAKFhZGVoZWxsb4O7");
    expected.push(0x0a);
    assert_eq!(lines[0], expected);
}

#[test]
fn encode_frame_checksum_is_crc16_xmodem() {
    // size 0x0013, header, payload, then CRC-16/XMODEM 0x83bb
    let framer = SerialFramer::new();
    let lines = framer.encode_frame(ECHO_HEADER, &ECHO_PAYLOAD);
    let text = &lines[0][2..lines[0].len() - 1];
    let raw = base64::prelude::BASE64_STANDARD.decode(text).unwrap();
    assert_eq!(&raw[0..2], &[0x00, 0x13]);
    assert_eq!(&raw[2..10], &ECHO_HEADER);
    assert_eq!(&raw[10..19], &ECHO_PAYLOAD);
    assert_eq!(&raw[19..21], &[0x83, 0xbb]);
}

#[test]
fn encode_long_frame_splits_lines() {
    let framer = SerialFramer::new();
    let header = [0x12, 0, 0, 200, 0, 1, 5, 1];
    let payload: Vec<u8> = (0..200u32).map(|i| i as u8).collect();
    let lines = framer.encode_frame(header, &payload);
    // raw stream: 2 + 8 + 200 + 2 = 212 bytes -> chunks of 93, 93, 26
    assert_eq!(lines.len(), 3);
    assert_eq!(&lines[0][0..2], &[0x06, 0x09]);
    assert_eq!(&lines[1][0..2], &[0x04, 0x14]);
    assert_eq!(&lines[2][0..2], &[0x04, 0x14]);
    for line in &lines {
        assert!(line.len() <= ZEPHYR_MTU);
        assert_eq!(*line.last().unwrap(), 0x0a);
    }
    assert_eq!(lines[0].len(), 2 + 124 + 1);
    assert_eq!(SERIAL_CHUNK_SIZE, 93);
    let mut raw = Vec::new();
    for line in &lines {
        raw.extend(base64::prelude::BASE64_STANDARD.decode(&line[2..line.len() - 1]).unwrap());
    }
    assert_eq!(raw.len(), 212);
    assert_eq!(&raw[0..2], &[0x00, 210]);
    assert_eq!(&raw[210..212], &[0x69, 0xa1]);
}

#[test]
fn frame_roundtrip_law() {
    let framer = SerialFramer::new();
    let header = [0x12, 0, 0, 200, 0, 1, 5, 1];
    let payload: Vec<u8> = (0..200u32).map(|i| (i * 7) as u8).collect();
    let lines = framer.encode_frame(header, &payload);
    let mut buf = flatten(&lines);
    let frame_len = buf.len();
    buf.extend_from_slice(&[0x06, 0x09, 0x41]);
    let (data, consumed) = framer.decode_frame(&buf).unwrap().unwrap();
    assert_eq!(&data[0..8], &header);
    assert_eq!(&data[8..], payload.as_slice());
    assert_eq!(consumed, frame_len);
}

#[test]
fn decode_skips_leading_noise() {
    let framer = SerialFramer::new();
    let mut buf = vec![0x00, 0x41, 0x0a];
    buf.extend(flatten(&framer.encode_frame(ECHO_HEADER, &ECHO_PAYLOAD)));
    let (data, consumed) = framer.decode_frame(&buf).unwrap().unwrap();
    assert_eq!(&data[0..8], &ECHO_HEADER);
    assert_eq!(&data[8..], &ECHO_PAYLOAD);
    assert_eq!(consumed, buf.len());
}

#[test]
fn decode_partial_frames_wait() {
    let framer = SerialFramer::new();
    assert!(framer.decode_frame(&[]).unwrap().is_none());
    assert!(framer.decode_frame(&[0x06]).unwrap().is_none());
    let header = [0x12, 0, 0, 200, 0, 1, 5, 1];
    let payload = vec![0u8; 200];
    let buf = flatten(&framer.encode_frame(header, &payload));
    for cut in 0..buf.len() {
        assert_eq!(framer.decode_frame(&buf[..cut]), Ok(None), "cut {cut}");
    }
    assert!(framer.decode_frame(&buf).unwrap().is_some());
}

#[test]
fn decode_bad_base64() {
    let framer = SerialFramer::new();
    assert_eq!(framer.decode_frame(&[0x06, 0x09, b'*', b'*', 0x0a]), Err(FrameError::Base64));
}

#[test]
fn decode_rejects_non_canonical_text() {
    let framer = SerialFramer::new();
    // not base64 symbols
    assert_eq!(framer.decode_frame(&[0x06, 0x09, b'!', b'!', b'!', b'!', 0x0a]), Err(FrameError::Base64));
    // missing padding
    assert_eq!(framer.decode_frame(&[0x06, 0x09, b'Q', b'Q', 0x0a]), Err(FrameError::Base64));
    // nonzero trailing bits
    assert_eq!(framer.decode_frame(&[0x06, 0x09, b'Q', b'R', b'=', b'=', 0x0a]), Err(FrameError::Base64));
}

#[test]
fn decode_bad_crc() {
    let framer = SerialFramer::new();
    let mut line = vec![0x06, 0x09];
    line.extend_from_slice(b"ABMIAAAJAAAAAKFhZGVoZWxsb4O8");
    line.push(0x0a);
    assert_eq!(framer.decode_frame(&line), Err(FrameError::BadCrc));
}

#[test]
fn decode_too_short() {
    // size field 1, then a single byte: fewer than the two checksum bytes
    let framer = SerialFramer::new();
    let text = base64::prelude::BASE64_STANDARD.encode([0x00, 0x01, 0x55]);
    let mut line = vec![0x06, 0x09];
    line.extend_from_slice(text.as_bytes());
    line.push(0x0a);
    assert_eq!(framer.decode_frame(&line), Err(FrameError::TooShort));
}

#[test]
fn decode_first_line_too_short_is_error() {
    // a complete first line whose text decodes to a single byte cannot hold
    // the two-byte size: no later byte can complete it
    let framer = SerialFramer::new();
    let mut line = vec![0x06, 0x09];
    line.extend_from_slice(b"AA==");
    line.push(0x0a);
    assert_eq!(framer.decode_frame(&line), Err(FrameError::TooShort));
    let nothing: [u8; 0] = [];
    let text = base64::prelude::BASE64_STANDARD.encode(nothing);
    let mut empty_line = vec![0x06, 0x09];
    empty_line.extend_from_slice(text.as_bytes());
    empty_line.push(0x0a);
    assert_eq!(framer.decode_frame(&empty_line), Err(FrameError::TooShort));
}

#[test]
fn assembly_steps() {
    assert_eq!(begin_assembly(&[0x01]), Err(FrameError::TooShort));
    let (mut assembled, total) = begin_assembly(&[0x00, 0x05, 0xaa, 0xbb]).unwrap();
    assert_eq!(assembled, vec![0xaa, 0xbb]);
    assert_eq!(total, 5);
    assert!(!extend_assembly(&mut assembled, &[0xcc, 0xdd], total));
    assert!(extend_assembly(&mut assembled, &[0xee, 0xff], total));
    assert_eq!(assembled, vec![0xaa, 0xbb, 0xcc, 0xdd, 0xee, 0xff]);
}

#[test]
fn encoded_lines_are_nonempty_base64() {
    let framer = SerialFramer::new();
    for n in [0usize, 1, 80, 81, 82, 83, 200, 1000] {
        let payload = vec![0x5au8; n];
        let lines = framer.encode_frame([0; 8], &payload);
        assert!(!lines.is_empty());
        for (i, line) in lines.iter().enumerate() {
            let marker: &[u8] = if i == 0 { &[0x06, 0x09] } else { &[0x04, 0x14] };
            assert_eq!(&line[0..2], marker);
            assert_eq!(*line.last().unwrap(), 0x0a);
            let text = &line[2..line.len() - 1];
            assert!(!text.is_empty());
            assert_eq!(text.len() % 4, 0);
            assert!(text.iter().all(|b| b.is_ascii_alphanumeric() || *b == b'+' || *b == b'/' || *b == b'='));
        }
    }
}

#[test]
fn frame_error_messages() {
    assert_eq!(FrameError::Base64.message(), "base64 decode error");
    assert_eq!(FrameError::BadCrc.message(), "CRC mismatch");
    assert_eq!(FrameError::TooShort.message(), "frame too short");
}

#[test]
fn raw_stream_and_line_builders() {
    let raw = mcumgr_toolkit_web::framing::raw_frame_stream(&ECHO_HEADER, &ECHO_PAYLOAD, 0x83bb);
    let expected = base64::prelude::BASE64_STANDARD.decode("ABMIAAAJAAAAAKFhZGVoZWxsb4O7").unwrap();
    assert_eq!(raw, expected);
    assert_eq!(mcumgr_toolkit_web::framing::frame_line(false, b"QQ=="), vec![0x04, 0x14, b'Q', b'Q', b'=', b'=', 0x0a]);
}

#[test]
fn check_frame_crc_outcomes() {
    let ok = mcumgr_toolkit_web::framing::check_frame_crc(&[1, 2, 0x12, 0x34], 0x1234, 9);
    assert_eq!(ok, Ok(Some((vec![1, 2], 9))));
    let bad = mcumgr_toolkit_web::framing::check_frame_crc(&[1, 2, 0x12, 0x34], 0x1235, 9);
    assert_eq!(bad, Err(FrameError::BadCrc));
}

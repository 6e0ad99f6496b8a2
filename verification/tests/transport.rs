use mcumgr_toolkit_web::framing::{FrameError, SerialFramer};
use mcumgr_toolkit_web::smp::{op, SmpHeader};
use mcumgr_toolkit_web::transport::{PendingRequest, SmpSession, TransportError};

fn response_frame(op_: u8, group_id: u16, sequence_num: u8, command_id: u8, payload: &[u8]) -> Vec<u8> {
    let h = SmpHeader {
        ver: 1,
        op: op_,
        flags: 0,
        data_length: payload.len() as u16,
        group_id,
        sequence_num,
        command_id,
    };
    SerialFramer::new().encode_frame(h.to_bytes(), payload).concat()
}

#[test]
fn begin_request_frames_header_and_payload() {
    let mut session = SmpSession::new();
    let payload = [0xa1, 0x61, 0x64, 0x65, 0x68, 0x65, 0x6c, 0x6c, 0x6f];
    let (req, lines) = session.begin_request(false, 0, 0, &payload);
    assert_eq!(
        req,
        PendingRequest { write_operation: false, group_id: 0, command_id: 0, sequence_num: 0 }
    );
    let mut expected = vec![0x06, 0x09];
    expected.extend_from_slice(b"ABMIAAAJAAAAAKFhZGVoZWxsb4O7");
    expected.push(0x0a);
    assert_eq!(lines, vec![expected]);
}

#[test]
fn write_request_header() {
    let mut session = SmpSession::new();
    let (req, lines) = session.begin_request(true, 1, 1, &[0xa0]);
    let (data, _) = SerialFramer::new().decode_frame(&lines.concat()).unwrap().unwrap();
    let h = SmpHeader::from_bytes(data[0..8].try_into().unwrap());
    assert_eq!(h.ver, 1);
    assert_eq!(h.op, op::WRITE);
    assert_eq!(h.data_length, 1);
    assert_eq!(h.group_id, 1);
    assert_eq!(h.command_id, 1);
    assert_eq!(h.sequence_num, req.sequence_num);
    assert_eq!(&data[8..], &[0xa0]);
}

#[test]
fn sequence_numbers_wrap() {
    let mut session = SmpSession::new();
    for i in 0..256u32 {
        let (req, _) = session.begin_request(false, 0, 0, &[]);
        assert_eq!(req.sequence_num as u32, i);
    }
    let (req, _) = session.begin_request(false, 0, 0, &[]);
    assert_eq!(req.sequence_num, 0);
}

#[test]
fn poll_delivers_response_law() {
    let mut session = SmpSession::new();
    let (req, _) = session.begin_request(false, 0, 0, &[0xa0]);
    assert_eq!(session.poll_response(&req).unwrap(), None);
    let frame = response_frame(op::READ_RSP, 0, 0, 0, &[0xa1, 0x61, 0x72, 0x61, 0x78]);
    session.push_received(&frame[..10]);
    assert_eq!(session.poll_response(&req).unwrap(), None);
    session.push_received(&frame[10..]);
    assert_eq!(session.poll_response(&req).unwrap(), Some(vec![0xa1, 0x61, 0x72, 0x61, 0x78]));
    // the frame was consumed
    assert_eq!(session.poll_response(&req).unwrap(), None);
}

#[test]
fn poll_skips_stale_law() {
    let mut session = SmpSession::new();
    let (_old, _) = session.begin_request(true, 1, 1, &[]);
    let (req, _) = session.begin_request(true, 1, 1, &[]);
    assert_eq!(req.sequence_num, 1);
    let mut bytes = response_frame(op::WRITE_RSP, 1, 0, 1, &[0x01]);
    bytes.extend(response_frame(op::WRITE_RSP, 1, 1, 1, &[0x02]));
    session.push_received(&bytes);
    assert_eq!(session.poll_response(&req).unwrap(), Some(vec![0x02]));
}

#[test]
fn poll_rejects_mismatch_law() {
    let mut session = SmpSession::new();
    let (req, _) = session.begin_request(false, 0, 7, &[]);
    session.push_received(&response_frame(op::READ_RSP, 0, 0, 8, &[0xa0]));
    assert!(matches!(session.poll_response(&req), Err(TransportError::UnexpectedResponse)));
    session.push_received(&response_frame(op::WRITE_RSP, 0, 0, 7, &[0xa0]));
    assert!(matches!(session.poll_response(&req), Err(TransportError::UnexpectedResponse)));
    session.push_received(&response_frame(op::READ_RSP, 2, 0, 7, &[0xa0]));
    assert!(matches!(session.poll_response(&req), Err(TransportError::UnexpectedResponse)));
    session.push_received(&response_frame(op::READ_RSP, 0, 0, 7, &[0xa0]));
    assert_eq!(session.poll_response(&req).unwrap(), Some(vec![0xa0]));
}

#[test]
fn poll_short_frame_is_unexpected() {
    let mut session = SmpSession::new();
    let (req, _) = session.begin_request(false, 0, 0, &[]);
    // a frame whose message is shorter than a header
    let text = base64::Engine::encode(&base64::prelude::BASE64_STANDARD, {
        let data = [1u8, 2, 3];
        let crc = crc::Crc::<u16>::new(&crc::CRC_16_XMODEM).checksum(&data);
        let mut raw = vec![0x00, 0x05];
        raw.extend_from_slice(&data);
        raw.extend_from_slice(&crc.to_be_bytes());
        raw
    });
    let mut line = vec![0x06, 0x09];
    line.extend_from_slice(text.as_bytes());
    line.push(0x0a);
    session.push_received(&line);
    assert!(matches!(session.poll_response(&req), Err(TransportError::UnexpectedResponse)));
}

#[test]
fn poll_reports_frame_errors() {
    let mut session = SmpSession::new();
    let (req, _) = session.begin_request(false, 0, 0, &[]);
    session.push_received(&[0x06, 0x09, b'*', 0x0a]);
    assert!(matches!(session.poll_response(&req), Err(TransportError::Frame(FrameError::Base64))));
    // the bad frame stays buffered
    assert!(matches!(session.poll_response(&req), Err(TransportError::Frame(FrameError::Base64))));
}

#[test]
fn transport_error_messages() {
    assert_eq!(TransportError::Js("boom".to_string()).message(), "JS error: boom");
    assert_eq!(TransportError::Frame(FrameError::BadCrc).message(), "Frame error: CRC mismatch");
    assert_eq!(TransportError::UnexpectedResponse.message(), "Unexpected response");
}

#[test]
fn poll_ignores_console_text_before_frame() {
    let mut session = SmpSession::new();
    let (req, _) = session.begin_request(false, 0, 0, &[]);
    let mut bytes = b"*** Booting Zephyr OS ***\r\n".to_vec();
    bytes.extend(response_frame(op::READ_RSP, 0, 0, 0, &[0xbf, 0xff]));
    bytes.extend_from_slice(b"tail");
    session.push_received(&bytes);
    assert_eq!(session.poll_response(&req).unwrap(), Some(vec![0xbf, 0xff]));
    assert_eq!(session.poll_response(&req).unwrap(), None);
}

use mcumgr_toolkit_web::smp::{op, SmpHeader, SMP_HEADER_SIZE};

fn sample_header() -> SmpHeader {
    SmpHeader {
        ver: 1,
        op: op::WRITE,
        flags: 0x5a,
        data_length: 0x1234,
        group_id: 0xabcd,
        sequence_num: 7,
        command_id: 9,
    }
}

#[test]
fn header_to_bytes_layout() {
    let bytes = sample_header().to_bytes();
    assert_eq!(bytes, [0x0a, 0x5a, 0x12, 0x34, 0xab, 0xcd, 7, 9]);
    assert_eq!(bytes.len(), SMP_HEADER_SIZE);
}

#[test]
fn header_from_bytes_fields() {
    let h = SmpHeader::from_bytes([0x0b, 0x00, 0x00, 0x09, 0x00, 0x01, 0xff, 0x05]);
    assert_eq!(h.ver, 1);
    assert_eq!(h.op, op::WRITE_RSP);
    assert_eq!(h.flags, 0);
    assert_eq!(h.data_length, 9);
    assert_eq!(h.group_id, 1);
    assert_eq!(h.sequence_num, 0xff);
    assert_eq!(h.command_id, 5);
}

#[test]
fn header_from_bytes_ignores_high_bits() {
    let h = SmpHeader::from_bytes([0xff, 0, 0, 0, 0, 0, 0, 0]);
    assert_eq!(h.ver, 3);
    assert_eq!(h.op, 7);
}

#[test]
fn header_to_bytes_masks_fields() {
    let h = SmpHeader {
        ver: 0xff,
        op: 0xff,
        flags: 0,
        data_length: 0,
        group_id: 0,
        sequence_num: 0,
        command_id: 0,
    };
    assert_eq!(h.to_bytes()[0], 0x1f);
}

#[test]
fn header_roundtrip_law() {
    let h = sample_header();
    let back = SmpHeader::from_bytes(h.to_bytes());
    assert_eq!(back.ver, h.ver);
    assert_eq!(back.op, h.op);
    assert_eq!(back.flags, h.flags);
    assert_eq!(back.data_length, h.data_length);
    assert_eq!(back.group_id, h.group_id);
    assert_eq!(back.sequence_num, h.sequence_num);
    assert_eq!(back.command_id, h.command_id);
}

#[test]
fn bytes_roundtrip_law() {
    let b = [0x1b, 1, 2, 3, 4, 5, 6, 7];
    assert_eq!(SmpHeader::from_bytes(b).to_bytes(), b);
}

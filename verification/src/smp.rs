use vstd::prelude::*;

pub mod op;

verus! {

/// Size in bytes of an encoded SMP header.
pub const SMP_HEADER_SIZE: usize = 8;

/// The header that precedes every SMP message.
pub struct SmpHeader {
    pub ver: u8,
    pub op: u8,
    pub flags: u8,
    pub data_length: u16,
    pub group_id: u16,
    pub sequence_num: u8,
    pub command_id: u8,
}

/// Big-endian value of two bytes.
pub open spec fn be16(hi: u8, lo: u8) -> u16 {
    (hi * 256 + lo) as u16
}

/// Header decoded from eight bytes: the version sits in bits 3..5 of the
/// first byte, the operation in bits 0..3, the two 16-bit fields are
/// big-endian.
pub open spec fn header_from_bytes(b: Seq<u8>) -> SmpHeader {
    SmpHeader {
        ver: ((b[0] / 8) % 4) as u8,
        op: (b[0] % 8) as u8,
        flags: b[1],
        data_length: be16(b[2], b[3]),
        group_id: be16(b[4], b[5]),
        sequence_num: b[6],
        command_id: b[7],
    }
}

/// The eight bytes of a header; only the low two bits of the version and
/// the low three bits of the operation are kept.
pub open spec fn header_to_bytes(h: SmpHeader) -> Seq<u8> {
    seq![
        ((h.ver % 4) * 8 + h.op % 8) as u8,
        h.flags,
        (h.data_length / 256) as u8,
        (h.data_length % 256) as u8,
        (h.group_id / 256) as u8,
        (h.group_id % 256) as u8,
        h.sequence_num,
        h.command_id,
    ]
}

/// A header whose version and operation fit their bit fields.
pub open spec fn header_fits(h: SmpHeader) -> bool {
    h.ver < 4 && h.op < 8
}

impl SmpHeader {
    pub fn from_bytes(data: [u8; SMP_HEADER_SIZE]) -> (r: Self)
        ensures
            r == header_from_bytes(data@),
    {
        let b0 = data[0];
        let ver = (b0 >> 3) & 0b11;
        let op = b0 & 0b111;
        assert(ver == (b0 / 8) % 4 && op == b0 % 8) by (bit_vector)
            requires
                ver == (b0 >> 3) & 0b11,
                op == b0 & 0b111,
        ;
        Self {
            ver,
            op,
            flags: data[1],
            data_length: (data[2] as u16) * 256 + (data[3] as u16),
            group_id: (data[4] as u16) * 256 + (data[5] as u16),
            sequence_num: data[6],
            command_id: data[7],
        }
    }

    pub fn to_bytes(&self) -> (r: [u8; SMP_HEADER_SIZE])
        ensures
            r@ == header_to_bytes(*self),
    {
        let ver = self.ver;
        let op = self.op;
        let b0 = ((ver & 0b11) << 3) | (op & 0b111);
        assert(b0 == (ver % 4) * 8 + op % 8) by (bit_vector)
            requires
                b0 == ((ver & 0b11) << 3) | (op & 0b111),
        ;
        let r = [
            b0,
            self.flags,
            (self.data_length / 256) as u8,
            (self.data_length % 256) as u8,
            (self.group_id / 256) as u8,
            (self.group_id % 256) as u8,
            self.sequence_num,
            self.command_id,
        ];
        assert(r@ =~= header_to_bytes(*self));
        r
    }
}

/// Decoding the bytes of a header gives back the header, for every header
/// whose version and operation fit their bit fields.
pub proof fn lemma_header_roundtrip(h: SmpHeader)
    requires
        header_fits(h),
    ensures
        header_from_bytes(header_to_bytes(h)) == h,
{
    let b = header_to_bytes(h);
    assert(((h.ver % 4) * 8 + h.op % 8) / 8 % 4 == h.ver);
    assert(((h.ver % 4) * 8 + h.op % 8) % 8 == h.op);
}

/// Encoding a decoded header gives back the eight bytes, for every input
/// whose first byte has its three high bits clear.
pub proof fn lemma_bytes_roundtrip(b: Seq<u8>)
    requires
        b.len() == 8,
        b[0] < 32,
    ensures
        header_to_bytes(header_from_bytes(b)) == b,
{
    let h = header_from_bytes(b);
    assert(header_to_bytes(h) =~= b);
}

} // verus!

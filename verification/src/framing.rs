//! Serial line framing of SMP messages, as MCUmgr's serial transport (and
//! Zephyr's `MCUMGR_SERIAL_MAX_FRAME`) defines it.
//!
//! A message `header ++ payload` becomes the raw stream
//! `len(2, BE) ++ header ++ payload ++ crc16(2, BE)`, where `len` counts the
//! header, payload and checksum. The raw stream is cut into chunks of
//! `SERIAL_CHUNK_SIZE` bytes; each chunk becomes a line: a two-byte marker
//! (`06 09` for the first line, `04 14` for the others), the base64 text of
//! the chunk and a newline.
use vstd::prelude::*;

use crate::primitives::{base64_decode, base64_decoded, base64_encode, base64_encoded, crc16_checksum, crc16_xmodem, is_base64_symbol};
use crate::bytes::append_bytes;
use crate::smp::SMP_HEADER_SIZE;

verus! {

/// See Zephyr's `MCUMGR_SERIAL_MAX_FRAME`.
pub const ZEPHYR_MTU: usize = 127;

/// Raw bytes per line: `((ZEPHYR_MTU - 3) / 4) * 3`, so that the marker, the
/// base64 text and the newline fill at most `ZEPHYR_MTU` bytes.
pub const SERIAL_CHUNK_SIZE: usize = 93;

/// Marker bytes of the first line of a frame.
pub const INITIAL_HEADER_0: u8 = 0x06;
pub const INITIAL_HEADER_1: u8 = 0x09;
/// Marker bytes of the following lines of a frame.
pub const CONTINUATION_HEADER_0: u8 = 0x04;
pub const CONTINUATION_HEADER_1: u8 = 0x14;
/// End of a line.
pub const NEWLINE: u8 = 0x0a;

/// A protocol error met while decoding a frame.
#[derive(Debug, Clone, Copy, PartialEq, Eq, Structural)]
pub enum FrameError {
    Base64,
    BadCrc,
    TooShort,
}

impl FrameError {
    /// The text that describes the error.
    pub fn message(&self) -> (r: String)
        ensures
            r@ == frame_error_text(*self),
    {
        match self {
            FrameError::Base64 => String::from_str("base64 decode error"),
            FrameError::BadCrc => String::from_str("CRC mismatch"),
            FrameError::TooShort => String::from_str("frame too short"),
        }
    }
}

/// The text that describes a frame error.
pub open spec fn frame_error_text(e: FrameError) -> Seq<char> {
    match e {
        FrameError::Base64 => "base64 decode error"@,
        FrameError::BadCrc => "CRC mismatch"@,
        FrameError::TooShort => "frame too short"@,
    }
}

/// Two bytes, big-endian, of a 16-bit value.
pub open spec fn be16_bytes(v: u16) -> Seq<u8> {
    seq![(v / 256) as u8, (v % 256) as u8]
}

/// The size field of a frame: header, payload and checksum, truncated to 16 bits.
pub open spec fn frame_size_field(header_len: nat, data_len: nat) -> u16 {
    ((header_len + data_len + 2) % 65536) as u16
}

/// The raw stream of a frame: size, header, payload and the CRC of header
/// and payload.
pub open spec fn raw_stream(header: Seq<u8>, data: Seq<u8>) -> Seq<u8> {
    be16_bytes(frame_size_field(header.len(), data.len())) + header + data + be16_bytes(
        crc16_xmodem(header + data),
    )
}

/// The two marker bytes of a line.
pub open spec fn line_marker(first: bool) -> Seq<u8> {
    if first {
        seq![INITIAL_HEADER_0, INITIAL_HEADER_1]
    } else {
        seq![CONTINUATION_HEADER_0, CONTINUATION_HEADER_1]
    }
}

/// A line carrying an already encoded chunk.
pub open spec fn line_of(first: bool, encoded: Seq<u8>) -> Seq<u8> {
    line_marker(first) + encoded + seq![NEWLINE]
}

/// The lines that carry a raw stream, cut into chunks of `SERIAL_CHUNK_SIZE`
/// bytes; `first` tells whether the first of them opens the frame.
pub open spec fn frame_lines(raw: Seq<u8>, first: bool) -> Seq<Seq<u8>>
    decreases raw.len(),
{
    if raw.len() == 0 {
        Seq::empty()
    } else {
        let n = if raw.len() < SERIAL_CHUNK_SIZE {
            raw.len() as int
        } else {
            SERIAL_CHUNK_SIZE as int
        };
        seq![line_of(first, base64_encoded(raw.take(n)))] + frame_lines(raw.skip(n), false)
    }
}

/// The lines of the frame that carries `header ++ data`.
pub open spec fn encoded_frame(header: Seq<u8>, data: Seq<u8>) -> Seq<Seq<u8>> {
    frame_lines(raw_stream(header, data), true)
}

/// Builds the raw stream of a frame from its header, payload and the checksum
/// of header and payload.
pub fn raw_frame_stream(header: &[u8; SMP_HEADER_SIZE], data: &[u8], checksum: u16) -> (r: Vec<u8>)
    ensures
        r@ == be16_bytes(frame_size_field(8, data@.len())) + header@ + data@ + be16_bytes(checksum),
{
    let size: u16 = ((data.len() % 65536 + 10) % 65536) as u16;
    let capacity = if data.len() <= usize::MAX - 12 {
        data.len() + 12
    } else {
        data.len()
    };
    let mut raw: Vec<u8> = Vec::with_capacity(capacity);
    raw.push((size / 256) as u8);
    raw.push((size % 256) as u8);
    append_bytes(&mut raw, header.as_slice());
    append_bytes(&mut raw, data);
    raw.push((checksum / 256) as u8);
    raw.push((checksum % 256) as u8);
    assert(size == frame_size_field(8, data@.len()));
    assert(raw@ =~= be16_bytes(frame_size_field(8, data@.len())) + header@ + data@ + be16_bytes(
        checksum,
    ));
    raw
}

/// Builds one line: the marker (initial or continuation), the encoded chunk
/// and a newline.
pub fn frame_line(first: bool, encoded: &[u8]) -> (r: Vec<u8>)
    ensures
        r@ == line_of(first, encoded@),
{
    let mut line: Vec<u8> = Vec::new();
    if first {
        line.push(INITIAL_HEADER_0);
        line.push(INITIAL_HEADER_1);
    } else {
        line.push(CONTINUATION_HEADER_0);
        line.push(CONTINUATION_HEADER_1);
    }
    append_bytes(&mut line, encoded);
    line.push(NEWLINE);
    assert(line@ =~= line_of(first, encoded@));
    line
}

/// Encodes and decodes SMP frames on a serial line.
pub struct SerialFramer {
    /// Max raw bytes per line.
    body_buf_size: usize,
}

impl SerialFramer {
    #[verifier::type_invariant]
    spec fn inv(self) -> bool {
        self.body_buf_size == SERIAL_CHUNK_SIZE
    }

    /// Raw bytes carried per line.
    pub closed spec fn chunk_size(self) -> nat {
        self.body_buf_size as nat
    }

    pub fn new() -> (r: Self)
        ensures
            r.chunk_size() == SERIAL_CHUNK_SIZE,
    {
        let body_buf_size = ((ZEPHYR_MTU - 3) / 4) * 3;
        Self { body_buf_size }
    }

    /// Encodes an SMP frame into serial lines ready to send, each with its
    /// marker and trailing newline.
    pub fn encode_frame(&self, header: [u8; SMP_HEADER_SIZE], data: &[u8]) -> (r: Vec<Vec<u8>>)
        ensures
            r.deep_view() == encoded_frame(header@, data@),
            r@.len() > 0,
            forall|i: int| 0 <= i < r@.len() ==> 7 <= (#[trigger] r@[i])@.len() <= ZEPHYR_MTU,
            data@.len() + 10 <= 65535 ==> forall|k: int|
                0 <= k < r.deep_view().flatten().len() ==> #[trigger] decoded_frame(
                    r.deep_view().flatten().take(k),
                ) == Ok::<Option<(Seq<u8>, int)>, FrameError>(None),
            data@.len() + 10 <= 65535 ==> forall|noise: Seq<u8>, rest: Seq<u8>|
                no_frame_start(noise) ==> #[trigger] decoded_frame(
                    noise + r.deep_view().flatten() + rest,
                ) == Ok::<
                    Option<(Seq<u8>, int)>,
                    FrameError,
                >(Some((header@ + data@, (noise.len() + r.deep_view().flatten().len()) as int))),
    {
        proof {
            use_type_invariant(self);
        }
        let capacity = if data.len() <= usize::MAX - 8 {
            data.len() + 8
        } else {
            data.len()
        };
        let mut body: Vec<u8> = Vec::with_capacity(capacity);
        append_bytes(&mut body, header.as_slice());
        append_bytes(&mut body, data);
        let checksum = crc16_checksum(body.as_slice());
        let raw = raw_frame_stream(&header, data, checksum);
        let ghost whole = raw_stream(header@, data@);
        assert(raw@ == whole);

        let mut lines: Vec<Vec<u8>> = Vec::new();
        let mut offset: usize = 0;
        let mut is_first = true;
        assert(raw@.skip(0) =~= raw@);
        while offset < raw.len()
            invariant
                offset <= raw@.len(),
                raw@ == whole,
                self.body_buf_size == SERIAL_CHUNK_SIZE,
                is_first == (offset == 0),
                lines.deep_view() + frame_lines(raw@.skip(offset as int), is_first)
                    == frame_lines(whole, true),
                forall|i: int| 0 <= i < lines@.len() ==> 7 <= (#[trigger] lines@[i])@.len() <= ZEPHYR_MTU,
                offset > 0 ==> lines@.len() > 0,
            decreases raw@.len() - offset,
        {
            let end = if raw.len() - offset < self.body_buf_size {
                raw.len()
            } else {
                offset + self.body_buf_size
            };
            let chunk = &raw.as_slice()[offset..end];
            let encoded = base64_encode(chunk);
            proof {
                crate::primitives::lemma_base64_encoded_shape(chunk@);
            }
            let line = frame_line(is_first, encoded.as_slice());
            assert(7 <= line@.len() <= ZEPHYR_MTU);
            let ghost old_lines = lines.deep_view();
            assert(line.deep_view() =~= line@);
            lines.push(line);
            proof {
                let rest = raw@.skip(offset as int);
                let n = end - offset;
                assert(rest.take(n) =~= chunk@);
                assert(rest.skip(n) =~= raw@.skip(end as int));
                assert(lines.deep_view() =~= old_lines.push(line@));
                assert(frame_lines(rest, is_first) == seq![line@] + frame_lines(raw@.skip(end as int), false));
                assert(lines.deep_view() + frame_lines(raw@.skip(end as int), false) =~= old_lines
                    + frame_lines(rest, is_first));
            }
            offset = end;
            is_first = false;
        }
        assert(raw@.skip(offset as int) =~= Seq::<u8>::empty());
        assert(lines.deep_view() + frame_lines(raw@.skip(offset as int), is_first) =~= lines.deep_view());
        proof {
            if data@.len() + 10 <= 65535 {
                assert forall|noise: Seq<u8>, rest: Seq<u8>|
                    no_frame_start(noise) implies #[trigger] decoded_frame(
                        noise + lines.deep_view().flatten() + rest,
                    ) == Ok::<
                        Option<(Seq<u8>, int)>,
                        FrameError,
                    >(Some((header@ + data@, (noise.len() + lines.deep_view().flatten().len()) as int))) by {
                    lemma_frame_roundtrip(noise, header@, data@, rest);
                }
                assert forall|k: int|
                    0 <= k < lines.deep_view().flatten().len() implies #[trigger] decoded_frame(
                        lines.deep_view().flatten().take(k),
                    ) == Ok::<Option<(Seq<u8>, int)>, FrameError>(None) by {
                    lemma_frame_prefix_waits(header@, data@, k);
                }
            }
        }
        lines
    }
}


/// Index of the first occurrence of the byte pair `a b` that starts at or
/// after `from`.
pub open spec fn find_pair(buf: Seq<u8>, from: int, a: u8, b: u8) -> Option<int>
    decreases buf.len() - from,
{
    if from < 0 || from + 1 >= buf.len() {
        None
    } else if buf[from] == a && buf[from + 1] == b {
        Some(from)
    } else {
        find_pair(buf, from + 1, a, b)
    }
}

/// Index of the first byte `x` at or after `from`.
pub open spec fn find_byte(buf: Seq<u8>, from: int, x: u8) -> Option<int>
    decreases buf.len() - from,
{
    if from < 0 || from >= buf.len() {
        None
    } else if buf[from] == x {
        Some(from)
    } else {
        find_byte(buf, from + 1, x)
    }
}

pub proof fn lemma_find_pair_bounds(buf: Seq<u8>, from: int, a: u8, b: u8)
    ensures
        find_pair(buf, from, a, b) matches Some(i) ==> {
            &&& 0 <= from <= i
            &&& i + 1 < buf.len()
            &&& buf[i] == a
            &&& buf[i + 1] == b
        },
    decreases buf.len() - from,
{
    if !(from < 0 || from + 1 >= buf.len()) && !(buf[from] == a && buf[from + 1] == b) {
        lemma_find_pair_bounds(buf, from + 1, a, b);
    }
}

pub proof fn lemma_find_byte_bounds(buf: Seq<u8>, from: int, x: u8)
    ensures
        find_byte(buf, from, x) matches Some(i) ==> {
            &&& 0 <= from <= i < buf.len()
            &&& buf[i] == x
        },
    decreases buf.len() - from,
{
    if !(from < 0 || from >= buf.len()) && buf[from] != x {
        lemma_find_byte_bounds(buf, from + 1, x);
    }
}

/// Collects continuation lines from `pos` on, appending their decoded chunks
/// to `acc` until it holds at least `total` bytes. The result is the
/// assembled bytes and the position after the last line read, `None` where
/// the buffer ends first.
pub open spec fn assemble(buf: Seq<u8>, pos: int, acc: Seq<u8>, total: int) -> Result<
    Option<(Seq<u8>, int)>,
    FrameError,
>
    decreases buf.len() - pos,
{
    if acc.len() >= total {
        Ok(Some((acc, pos)))
    } else {
        match find_pair(buf, pos, CONTINUATION_HEADER_0, CONTINUATION_HEADER_1) {
            None => Ok(None),
            Some(cs) => match find_byte(buf, cs + 2, NEWLINE) {
                None => Ok(None),
                Some(nl) => match base64_decoded(buf.subrange(cs + 2, nl)) {
                    None => Err(FrameError::Base64),
                    Some(d) => {
                        proof {
                            lemma_find_pair_bounds(
                                buf,
                                pos,
                                CONTINUATION_HEADER_0,
                                CONTINUATION_HEADER_1,
                            );
                            lemma_find_byte_bounds(buf, cs + 2, NEWLINE);
                        }
                        assemble(buf, nl + 1, acc + d, total)
                    },
                },
            },
        }
    }
}

/// Checks the trailing big-endian checksum of assembled bytes against the
/// checksum computed over the bytes before it.
pub open spec fn checked_frame(joined: Seq<u8>, pos: int) -> Result<Option<(Seq<u8>, int)>, FrameError> {
    if joined.len() < 2 {
        Err(FrameError::TooShort)
    } else {
        let data = joined.take(joined.len() - 2);
        if crate::smp::be16(joined[joined.len() - 2], joined[joined.len() - 1]) != crc16_xmodem(data) {
            Err(FrameError::BadCrc)
        } else {
            Ok(Some((data, pos)))
        }
    }
}

/// The outcome of a frame once its lines are collected.
pub open spec fn after_assembly(r: Result<Option<(Seq<u8>, int)>, FrameError>) -> Result<
    Option<(Seq<u8>, int)>,
    FrameError,
> {
    match r {
        Err(e) => Err(e),
        Ok(None) => Ok(None),
        Ok(Some((joined, pos))) => checked_frame(joined, pos),
    }
}

/// What decoding the received bytes `buf` gives: the first complete frame
/// (header and payload, and the number of bytes up to the end of its last
/// line), `None` while the buffer does not yet hold one, or a protocol error.
pub open spec fn decoded_frame(buf: Seq<u8>) -> Result<Option<(Seq<u8>, int)>, FrameError> {
    match find_pair(buf, 0, INITIAL_HEADER_0, INITIAL_HEADER_1) {
        None => Ok(None),
        Some(start) => match find_byte(buf, start + 2, NEWLINE) {
            None => Ok(None),
            Some(nl) => match base64_decoded(buf.subrange(start + 2, nl)) {
                None => Err(FrameError::Base64),
                Some(first) => if first.len() < 2 {
                    Err(FrameError::TooShort)
                } else {
                    let total = crate::smp::be16(first[0], first[1]) as int;
                    after_assembly(assemble(buf, nl + 1, first.skip(2), total))
                },
            },
        },
    }
}

/// The spec view of a decoding result.
pub open spec fn decode_view(r: Result<Option<(Vec<u8>, usize)>, FrameError>) -> Result<
    Option<(Seq<u8>, int)>,
    FrameError,
> {
    match r {
        Ok(Some((v, n))) => Ok(Some((v@, n as int))),
        Ok(None) => Ok(None),
        Err(e) => Err(e),
    }
}

/// First index at or after `from` of the byte pair `a b`.
fn find_header_at(buf: &[u8], from: usize, a: u8, b: u8) -> (r: Option<usize>)
    ensures
        match r {
            Some(i) => find_pair(buf@, from as int, a, b) == Some(i as int),
            None => find_pair(buf@, from as int, a, b) is None,
        },
{
    if from >= buf.len() || buf.len() - from < 2 {
        return None;
    }
    let mut i = from;
    while i + 1 < buf.len()
        invariant
            from <= i < buf.len(),
            find_pair(buf@, i as int, a, b) == find_pair(buf@, from as int, a, b),
        decreases buf@.len() - i,
    {
        if buf[i] == a && buf[i + 1] == b {
            return Some(i);
        }
        i = i + 1;
    }
    None
}

/// First index of the byte pair `a b` in `buf`.
fn find_header(buf: &[u8], a: u8, b: u8) -> (r: Option<usize>)
    ensures
        match r {
            Some(i) => find_pair(buf@, 0, a, b) == Some(i as int),
            None => find_pair(buf@, 0, a, b) is None,
        },
{
    find_header_at(buf, 0, a, b)
}

/// First index at or after `from` of a newline.
fn find_newline(buf: &[u8], from: usize) -> (r: Option<usize>)
    ensures
        match r {
            Some(i) => find_byte(buf@, from as int, NEWLINE) == Some(i as int),
            None => find_byte(buf@, from as int, NEWLINE) is None,
        },
{
    let mut i = from;
    while i < buf.len()
        invariant
            from <= i <= buf.len() || from >= buf.len(),
            find_byte(buf@, i as int, NEWLINE) == find_byte(buf@, from as int, NEWLINE),
        decreases buf@.len() - i,
    {
        if buf[i] == NEWLINE {
            return Some(i);
        }
        i = i + 1;
    }
    None
}

/// Starts assembling a frame from the decoded bytes of its first line: they
/// open with the big-endian size of the rest of the frame. Returns the bytes
/// after the size and the size; a first line too short to hold the size is
/// a protocol error.
pub fn begin_assembly(first_decoded: &[u8]) -> (r: Result<(Vec<u8>, usize), FrameError>)
    ensures
        first_decoded@.len() < 2 ==> r == Err::<(Vec<u8>, usize), FrameError>(FrameError::TooShort),
        first_decoded@.len() >= 2 ==> match r {
            Ok((v, total)) => v@ == first_decoded@.skip(2) && total == crate::smp::be16(
                first_decoded@[0],
                first_decoded@[1],
            ),
            Err(_) => false,
        },
{
    if first_decoded.len() < 2 {
        return Err(FrameError::TooShort);
    }
    let total: usize = (first_decoded[0] as usize) * 256 + (first_decoded[1] as usize);
    let mut assembled: Vec<u8> = Vec::with_capacity(total);
    append_bytes(&mut assembled, &first_decoded[2..first_decoded.len()]);
    assert(assembled@ =~= first_decoded@.skip(2));
    Ok((assembled, total))
}

/// Adds the decoded bytes of a continuation line to a frame being assembled,
/// and tells whether the frame now holds `total` bytes or more.
pub fn extend_assembly(assembled: &mut Vec<u8>, decoded: &[u8], total: usize) -> (r: bool)
    ensures
        final(assembled)@ == old(assembled)@ + decoded@,
        r == (final(assembled)@.len() >= total),
{
    append_bytes(assembled, decoded);
    assembled.len() >= total
}

/// Finishes decoding a frame whose lines are all assembled: `assembled` ends
/// with the big-endian checksum of the bytes before it, `computed_crc` is the
/// checksum computed over those bytes, and `consumed` is the position after
/// the frame's last line.
pub fn check_frame_crc(assembled: &[u8], computed_crc: u16, consumed: usize) -> (r: Result<
    Option<(Vec<u8>, usize)>,
    FrameError,
>)
    requires
        assembled@.len() >= 2,
    ensures
        decode_view(r) == (if crate::smp::be16(
            assembled@[assembled@.len() - 2],
            assembled@[assembled@.len() - 1],
        ) != computed_crc {
            Err::<Option<(Seq<u8>, int)>, FrameError>(FrameError::BadCrc)
        } else {
            Ok(Some((assembled@.take(assembled@.len() - 2), consumed as int)))
        }),
{
    let n = assembled.len();
    let expected: u16 = (assembled[n - 2] as u16) * 256 + (assembled[n - 1] as u16);
    if expected != computed_crc {
        return Err(FrameError::BadCrc);
    }
    let mut data: Vec<u8> = Vec::with_capacity(n - 2);
    append_bytes(&mut data, &assembled[0..n - 2]);
    Ok(Some((data, consumed)))
}

impl SerialFramer {
    /// Attempts to decode a complete SMP frame from the received bytes.
    ///
    /// `Ok(Some((data, consumed)))`: a frame was decoded; `data` is the SMP
    /// header and payload, `consumed` the number of bytes up to the end of
    /// its last line. `Ok(None)`: not enough data yet. `Err`: a protocol
    /// error (bad base64, bad CRC, too short).
    pub fn decode_frame(&self, buf: &[u8]) -> (r: Result<Option<(Vec<u8>, usize)>, FrameError>)
        ensures
            decode_view(r) == decoded_frame(buf@),
            r matches Ok(Some((data, consumed))) ==> data@.len() < consumed,
    {
        assert(buf@.len() == buf.len());
        let start = match find_header(buf, INITIAL_HEADER_0, INITIAL_HEADER_1) {
            Some(s) => s,
            None => return Ok(None),
        };
        proof {
            lemma_find_pair_bounds(buf@, 0, INITIAL_HEADER_0, INITIAL_HEADER_1);
        }
        let mut pos = start + 2;
        let first_end = match find_newline(buf, pos) {
            Some(e) => e,
            None => return Ok(None),
        };
        proof {
            lemma_find_byte_bounds(buf@, pos as int, NEWLINE);
        }
        let first_b64 = &buf[pos..first_end];
        pos = first_end + 1;
        let first_decoded = match base64_decode(first_b64) {
            Ok(v) => v,
            Err(_) => return Err(FrameError::Base64),
        };
        proof {
            crate::primitives::lemma_base64_decoded_len(first_b64@);
        }
        let (mut assembled, total_len) = match begin_assembly(first_decoded.as_slice()) {
            Ok(started) => started,
            Err(e) => return Err(e),
        };
        let ghost total = total_len as int;
        let ghost pos0 = pos as int;
        let ghost acc0 = assembled@;
        assert(decoded_frame(buf@) == after_assembly(assemble(buf@, pos0, acc0, total)));
        let mut complete = assembled.len() >= total_len;

        while !complete
            invariant
                pos <= buf.len(),
                total == total_len,
                complete == (assembled@.len() >= total),
                assembled@.len() + 2 <= pos,
                decoded_frame(buf@) == after_assembly(assemble(buf@, pos0, acc0, total)),
                assemble(buf@, pos as int, assembled@, total) == assemble(buf@, pos0, acc0, total),
            decreases buf@.len() - pos,
        {
            let cont_start = match find_header_at(
                buf,
                pos,
                CONTINUATION_HEADER_0,
                CONTINUATION_HEADER_1,
            ) {
                Some(c) => c,
                None => return Ok(None),
            };
            proof {
                lemma_find_pair_bounds(buf@, pos as int, CONTINUATION_HEADER_0, CONTINUATION_HEADER_1);
            }
            pos = cont_start + 2;
            let b64_end = match find_newline(buf, pos) {
                Some(e) => e,
                None => return Ok(None),
            };
            proof {
                lemma_find_byte_bounds(buf@, pos as int, NEWLINE);
            }
            let b64_data = &buf[pos..b64_end];
            pos = b64_end + 1;
            let decoded = match base64_decode(b64_data) {
                Ok(v) => v,
                Err(_) => return Err(FrameError::Base64),
            };
            proof {
                crate::primitives::lemma_base64_decoded_len(b64_data@);
            }
            complete = extend_assembly(&mut assembled, decoded.as_slice(), total_len);
        }

        if assembled.len() < 2 {
            return Err(FrameError::TooShort);
        }
        let n = assembled.len();
        let actual_crc = crc16_checksum(&assembled.as_slice()[0..n - 2]);
        check_frame_crc(assembled.as_slice(), actual_crc, pos)
    }
}


proof fn lemma_flatten_cons(x: Seq<u8>, s: Seq<Seq<u8>>)
    ensures
        (seq![x] + s).flatten() == x + s.flatten(),
{
    let t = seq![x] + s;
    assert(t.len() > 0);
    assert(t.first() == x);
    assert(t.drop_first() =~= s);
}

proof fn lemma_find_pair_here(buf: Seq<u8>, p: int, a: u8, b: u8)
    requires
        0 <= p,
        p + 1 < buf.len(),
        buf[p] == a,
        buf[p + 1] == b,
    ensures
        find_pair(buf, p, a, b) == Some(p),
{
}

proof fn lemma_find_byte_first(buf: Seq<u8>, from: int, to: int, x: u8)
    requires
        0 <= from <= to < buf.len(),
        buf[to] == x,
        forall|i: int| from <= i < to ==> buf[i] != x,
    ensures
        find_byte(buf, from, x) == Some(to),
    decreases to - from,
{
    if from < to {
        lemma_find_byte_first(buf, from + 1, to, x);
    }
}

proof fn lemma_be16_bytes(v: u16)
    ensures
        crate::smp::be16(be16_bytes(v)[0], be16_bytes(v)[1]) == v,
{
    assert((v / 256) * 256 + v % 256 == v);
}

/// A line that carries a soundly encoded chunk, found at position `p` of
/// `buf`, is read back by the decoder: its newline is the first one after
/// the marker, and its text decodes to the chunk.
proof fn lemma_read_line(buf: Seq<u8>, p: int, first: bool, chunk: Seq<u8>)
    requires
        0 <= p,
        p + line_of(first, base64_encoded(chunk)).len() <= buf.len(),
        buf.subrange(p, p + line_of(first, base64_encoded(chunk)).len()) == line_of(
            first,
            base64_encoded(chunk),
        ),
    ensures
        ({
            let enc = base64_encoded(chunk);
            &&& buf[p] == line_marker(first)[0]
            &&& buf[p + 1] == line_marker(first)[1]
            &&& find_byte(buf, p + 2, NEWLINE) == Some(p + 2 + enc.len())
            &&& base64_decoded(buf.subrange(p + 2, p + 2 + enc.len())) == Some(chunk)
        }),
{
    let enc = base64_encoded(chunk);
    crate::primitives::lemma_base64_encoded_shape(chunk);
    crate::primitives::lemma_base64_roundtrip(chunk);
    let line = line_of(first, enc);
    let m = p + 2 + enc.len();
    assert(line[0] == buf[p]);
    assert(line[1] == buf[p + 1]);
    assert(line[enc.len() + 2int] == NEWLINE);
    assert(buf[m] == line[m - p]);
    assert forall|i: int| p + 2 <= i < m implies buf[i] != NEWLINE by {
        assert(buf[i] == line[i - p]);
        assert(line[i - p] == enc[i - p - 2]);
        assert(is_base64_symbol(enc[i - p - 2]));
    }
    lemma_find_byte_first(buf, p + 2, m, NEWLINE);
    assert(buf.subrange(p + 2, m) =~= enc) by {
        assert forall|i: int| 0 <= i < enc.len() implies buf.subrange(p + 2, m)[i] == enc[i] by {
            assert(buf[p + 2 + i] == line[2 + i]);
        }
    }
}

/// The decoder collects the continuation lines that carry `raw` back into
/// `acc + raw`, and stops right after the last of them.
proof fn lemma_assemble_lines(
    raw: Seq<u8>,
    prefix: Seq<u8>,
    rest: Seq<u8>,
    acc: Seq<u8>,
    total: int,
)
    requires
        acc.len() + raw.len() == total,
    ensures
        assemble(prefix + frame_lines(raw, false).flatten() + rest, prefix.len() as int, acc, total)
            == Ok::<Option<(Seq<u8>, int)>, FrameError>(
            Some((acc + raw, (prefix.len() + frame_lines(raw, false).flatten().len()) as int)),
        ),
    decreases raw.len(),
{
    let buf = prefix + frame_lines(raw, false).flatten() + rest;
    let p = prefix.len() as int;
    if raw.len() == 0 {
        assert(acc + raw =~= acc);
    } else {
        let n = if raw.len() < SERIAL_CHUNK_SIZE {
            raw.len() as int
        } else {
            SERIAL_CHUNK_SIZE as int
        };
        let chunk = raw.take(n);
        let enc = base64_encoded(chunk);
        let line = line_of(false, enc);
        let tail = frame_lines(raw.skip(n), false);
        assert(frame_lines(raw, false) == seq![line] + tail);
        lemma_flatten_cons(line, tail);
        assert(buf =~= prefix + line + (tail.flatten() + rest));
        assert(buf.subrange(p, p + line.len()) =~= line);
        lemma_read_line(buf, p, false, chunk);
        lemma_find_pair_here(buf, p, CONTINUATION_HEADER_0, CONTINUATION_HEADER_1);
        let prefix2 = prefix + line;
        assert(buf =~= prefix2 + tail.flatten() + rest);
        lemma_assemble_lines(raw.skip(n), prefix2, rest, acc + chunk, total);
        assert(acc + chunk + raw.skip(n) =~= acc + raw);
        assert(p + 2 + enc.len() + 1 == prefix2.len());
    }
}

/// Bytes that hold no frame start marker (`06 09`).
pub open spec fn no_frame_start(noise: Seq<u8>) -> bool {
    forall|i: int|
        0 <= i < noise.len() - 1 ==> !(#[trigger] noise[i] == INITIAL_HEADER_0 && noise[i + 1]
            == INITIAL_HEADER_1)
}

proof fn lemma_find_pair_first(buf: Seq<u8>, from: int, to: int, a: u8, b: u8)
    requires
        0 <= from <= to,
        to + 1 < buf.len(),
        buf[to] == a,
        buf[to + 1] == b,
        forall|i: int| from <= i < to ==> !(#[trigger] buf[i] == a && buf[i + 1] == b),
    ensures
        find_pair(buf, from, a, b) == Some(to),
    decreases to - from,
{
    if from < to {
        lemma_find_pair_first(buf, from + 1, to, a, b);
    }
}

/// The raw stream of a message as the serial protocol defines it: the
/// message length plus two, big-endian, then the message, then the big-endian
/// CRC-16/XMODEM of the whole message.
pub open spec fn protocol_stream(msg: Seq<u8>) -> Seq<u8> {
    seq![((msg.len() + 2) / 256) as u8, ((msg.len() + 2) % 256) as u8] + msg + seq![
        (crc16_xmodem(msg) / 256) as u8,
        (crc16_xmodem(msg) % 256) as u8,
    ]
}

/// A device's frame is accepted: the lines that carry the protocol stream of
/// any message that fits the 16-bit size field decode to that message, whatever
/// bytes follow them and whatever bytes without a frame start marker precede
/// them, and decoding consumes exactly up to the end of the last line. A
/// decoder that checked the CRC of anything but the whole message would
/// refuse such frames.
pub proof fn lemma_device_frame_decodes(noise: Seq<u8>, msg: Seq<u8>, rest: Seq<u8>)
    requires
        no_frame_start(noise),
        msg.len() + 2 <= 65535,
    ensures
        decoded_frame(noise + frame_lines(protocol_stream(msg), true).flatten() + rest) == Ok::<
            Option<(Seq<u8>, int)>,
            FrameError,
        >(Some((msg, (noise.len() + frame_lines(protocol_stream(msg), true).flatten().len()) as int))),
{
    let raw = protocol_stream(msg);
    let size = (msg.len() + 2) as u16;
    assert(raw.len() == 4 + msg.len());
    let n = if raw.len() < SERIAL_CHUNK_SIZE {
        raw.len() as int
    } else {
        SERIAL_CHUNK_SIZE as int
    };
    let chunk = raw.take(n);
    let enc = base64_encoded(chunk);
    let line = line_of(true, enc);
    let tail = frame_lines(raw.skip(n), false);
    assert(frame_lines(raw, true) == seq![line] + tail);
    lemma_flatten_cons(line, tail);
    let flat = frame_lines(raw, true).flatten();
    let buf = noise + flat + rest;
    let p = noise.len() as int;
    assert(buf =~= noise + line + (tail.flatten() + rest));
    assert(buf.subrange(p, p + line.len()) =~= line);
    lemma_read_line(buf, p, true, chunk);
    assert forall|i: int| 0 <= i < p implies !(#[trigger] buf[i] == INITIAL_HEADER_0 && buf[i + 1]
        == INITIAL_HEADER_1) by {
        assert(buf[i] == noise[i]);
        if i + 1 < p {
            assert(buf[i + 1] == noise[i + 1]);
        } else {
            assert(buf[i + 1] == line[0]);
        }
    }
    lemma_find_pair_first(buf, 0, p, INITIAL_HEADER_0, INITIAL_HEADER_1);
    assert(chunk.len() >= 2);
    assert(chunk[0] == be16_bytes(size)[0]);
    assert(chunk[1] == be16_bytes(size)[1]);
    lemma_be16_bytes(size);
    let total = crate::smp::be16(chunk[0], chunk[1]) as int;
    assert(total == 2 + msg.len());
    assert(buf =~= (noise + line) + tail.flatten() + rest);
    lemma_assemble_lines(raw.skip(n), noise + line, rest, chunk.skip(2), total);
    let joined = chunk.skip(2) + raw.skip(n);
    assert(joined =~= raw.skip(2));
    assert(joined.take(joined.len() - 2) =~= msg);
    let crc = crc16_xmodem(msg);
    assert(joined[joined.len() - 2] == be16_bytes(crc)[0]);
    assert(joined[joined.len() - 1] == be16_bytes(crc)[1]);
    lemma_be16_bytes(crc);
    assert(line.len() + tail.flatten().len() == flat.len());
}

/// The raw stream the framer sends for a header and payload that fit the
/// size field is the protocol stream of their concatenation.
proof fn lemma_raw_stream_is_protocol(header: Seq<u8>, data: Seq<u8>)
    requires
        header.len() == 8,
        data.len() + 10 <= 65535,
    ensures
        raw_stream(header, data) == protocol_stream(header + data),
{
    assert(raw_stream(header, data) =~= protocol_stream(header + data));
}

/// Decoding what the framer encodes gives back the SMP message and consumes
/// exactly up to the end of the frame's lines, whatever bytes follow the
/// frame and whatever bytes without a frame start marker precede it; this
/// holds for every message whose size fits the 16-bit size field.
pub proof fn lemma_frame_roundtrip(noise: Seq<u8>, header: Seq<u8>, data: Seq<u8>, rest: Seq<u8>)
    requires
        no_frame_start(noise),
        header.len() == 8,
        data.len() + 10 <= 65535,
    ensures
        decoded_frame(noise + encoded_frame(header, data).flatten() + rest) == Ok::<
            Option<(Seq<u8>, int)>,
            FrameError,
        >(Some((header + data, (noise.len() + encoded_frame(header, data).flatten().len()) as int))),
{
    lemma_raw_stream_is_protocol(header, data);
    lemma_device_frame_decodes(noise, header + data, rest);
}

/// The text of a line: the bytes between its two-byte marker and its newline.
pub open spec fn line_text(line: Seq<u8>) -> Seq<u8> {
    line.subrange(2, line.len() - 1)
}

/// The bytes that the texts of lines carry, one line after another.
pub open spec fn carried_bytes(lines: Seq<Seq<u8>>) -> Seq<u8>
    decreases lines.len(),
{
    if lines.len() == 0 {
        Seq::empty()
    } else {
        let carried = match base64_decoded(line_text(lines[0])) {
            Some(b) => b,
            None => Seq::empty(),
        };
        carried + carried_bytes(lines.drop_first())
    }
}

proof fn lemma_carried_bytes(raw: Seq<u8>, first: bool)
    ensures
        carried_bytes(frame_lines(raw, first)) == raw,
    decreases raw.len(),
{
    if raw.len() == 0 {
        assert(raw =~= Seq::<u8>::empty());
    } else {
        let n = if raw.len() < SERIAL_CHUNK_SIZE {
            raw.len() as int
        } else {
            SERIAL_CHUNK_SIZE as int
        };
        let chunk = raw.take(n);
        let enc = base64_encoded(chunk);
        let line = line_of(first, enc);
        let tail = frame_lines(raw.skip(n), false);
        let lines = frame_lines(raw, first);
        assert(lines == seq![line] + tail);
        assert(lines[0] == line);
        assert(lines.drop_first() =~= tail);
        assert(line_text(line) =~= enc);
        crate::primitives::lemma_base64_roundtrip(chunk);
        lemma_carried_bytes(raw.skip(n), false);
        assert(chunk + raw.skip(n) =~= raw);
    }
}

/// The lines of a frame start with the initial marker, every other line with
/// the continuation marker, each ends with a newline, and their texts carry
/// the message length plus two, big-endian, the header, the payload and the
/// big-endian CRC-16/XMODEM of header and payload, for every message whose
/// size fits the 16-bit size field.
pub proof fn lemma_frame_carries_message(header: Seq<u8>, data: Seq<u8>)
    requires
        header.len() == 8,
        data.len() + 10 <= 65535,
    ensures
        carried_bytes(encoded_frame(header, data)) == seq![
            ((data.len() + 10) / 256) as u8,
            ((data.len() + 10) % 256) as u8,
        ] + header + data + seq![
            (crc16_xmodem(header + data) / 256) as u8,
            (crc16_xmodem(header + data) % 256) as u8,
        ],
        forall|i: int|
            0 <= i < encoded_frame(header, data).len() ==> {
                let line = #[trigger] encoded_frame(header, data)[i];
                &&& line.len() >= 3
                &&& line[0] == (if i == 0 {
                    0x06u8
                } else {
                    0x04u8
                })
                &&& line[1] == (if i == 0 {
                    0x09u8
                } else {
                    0x14u8
                })
                &&& line[line.len() - 1] == 0x0au8
            },
{
    let raw = raw_stream(header, data);
    lemma_carried_bytes(raw, true);
    assert(raw =~= seq![((data.len() + 10) / 256) as u8, ((data.len() + 10) % 256) as u8] + header
        + data + seq![
        (crc16_xmodem(header + data) / 256) as u8,
        (crc16_xmodem(header + data) % 256) as u8,
    ]);
    lemma_frame_line_markers(raw, true);
}

proof fn lemma_frame_line_markers(raw: Seq<u8>, first: bool)
    ensures
        forall|i: int|
            0 <= i < frame_lines(raw, first).len() ==> {
                let line = #[trigger] frame_lines(raw, first)[i];
                &&& line.len() >= 3
                &&& line[0] == (if i == 0 && first {
                    0x06u8
                } else {
                    0x04u8
                })
                &&& line[1] == (if i == 0 && first {
                    0x09u8
                } else {
                    0x14u8
                })
                &&& line[line.len() - 1] == 0x0au8
            },
    decreases raw.len(),
{
    if raw.len() > 0 {
        let n = if raw.len() < SERIAL_CHUNK_SIZE {
            raw.len() as int
        } else {
            SERIAL_CHUNK_SIZE as int
        };
        let line = line_of(first, base64_encoded(raw.take(n)));
        let tail = frame_lines(raw.skip(n), false);
        lemma_frame_line_markers(raw.skip(n), false);
        assert(frame_lines(raw, first) == seq![line] + tail);
        assert forall|i: int| 0 <= i < frame_lines(raw, first).len() implies {
            let l = #[trigger] frame_lines(raw, first)[i];
            &&& l.len() >= 3
            &&& l[0] == (if i == 0 && first {
                0x06u8
            } else {
                0x04u8
            })
            &&& l[1] == (if i == 0 && first {
                0x09u8
            } else {
                0x14u8
            })
            &&& l[l.len() - 1] == 0x0au8
        } by {
            if i > 0 {
                assert(frame_lines(raw, first)[i] == tail[i - 1]);
            }
        }
    }
}

proof fn lemma_find_byte_none(buf: Seq<u8>, from: int, x: u8)
    requires
        0 <= from,
        forall|i: int| from <= i < buf.len() ==> buf[i] != x,
    ensures
        find_byte(buf, from, x) is None,
    decreases buf.len() - from,
{
    if from < buf.len() {
        lemma_find_byte_none(buf, from + 1, x);
    }
}

/// A cut inside the continuation lines that carry `raw` leaves the decoder
/// waiting.
proof fn lemma_assemble_cut(raw: Seq<u8>, prefix: Seq<u8>, acc: Seq<u8>, total: int, k: int)
    requires
        acc.len() + raw.len() == total,
        prefix.len() <= k < prefix.len() + frame_lines(raw, false).flatten().len(),
    ensures
        assemble((prefix + frame_lines(raw, false).flatten()).take(k), prefix.len() as int, acc, total)
            == Ok::<Option<(Seq<u8>, int)>, FrameError>(None),
    decreases raw.len(),
{
    let p = prefix.len() as int;
    if raw.len() == 0 {
        assert(frame_lines(raw, false).flatten().len() == 0);
    } else {
        let n = if raw.len() < SERIAL_CHUNK_SIZE {
            raw.len() as int
        } else {
            SERIAL_CHUNK_SIZE as int
        };
        let chunk = raw.take(n);
        let enc = base64_encoded(chunk);
        crate::primitives::lemma_base64_encoded_shape(chunk);
        let line = line_of(false, enc);
        let tail = frame_lines(raw.skip(n), false);
        assert(frame_lines(raw, false) == seq![line] + tail);
        lemma_flatten_cons(line, tail);
        let full = prefix + frame_lines(raw, false).flatten();
        assert(full =~= prefix + line + tail.flatten());
        let buf = full.take(k);
        let m = p + 2 + enc.len();
        if k <= p + 1 {
        } else {
            assert(buf[p] == line[0] && buf[p + 1] == line[1]);
            lemma_find_pair_here(buf, p, CONTINUATION_HEADER_0, CONTINUATION_HEADER_1);
            if k <= m {
                assert forall|i: int| p + 2 <= i < buf.len() implies buf[i] != NEWLINE by {
                    assert(buf[i] == line[i - p]);
                    assert(line[i - p] == enc[i - p - 2]);
                    assert(is_base64_symbol(enc[i - p - 2]));
                }
                lemma_find_byte_none(buf, p + 2, NEWLINE);
            } else {
                assert(buf.subrange(p, p + line.len()) =~= line);
                lemma_read_line(buf, p, false, chunk);
                let prefix2 = prefix + line;
                assert(buf =~= (prefix2 + tail.flatten()).take(k));
                lemma_assemble_cut(raw.skip(n), prefix2, acc + chunk, total, k);
            }
        }
    }
}

/// A frame that has not fully arrived leaves the decoder waiting: every
/// proper prefix of the frame's bytes decodes to "no frame yet", neither an
/// error nor a partial frame; this holds for every message whose size fits
/// the 16-bit size field.
pub proof fn lemma_frame_prefix_waits(header: Seq<u8>, data: Seq<u8>, k: int)
    requires
        header.len() == 8,
        data.len() + 10 <= 65535,
        0 <= k < encoded_frame(header, data).flatten().len(),
    ensures
        decoded_frame(encoded_frame(header, data).flatten().take(k)) == Ok::<
            Option<(Seq<u8>, int)>,
            FrameError,
        >(None),
{
    let raw = raw_stream(header, data);
    let size = frame_size_field(header.len(), data.len());
    assert(size == 10 + data.len());
    assert(raw.len() == 12 + data.len());
    let n = if raw.len() < SERIAL_CHUNK_SIZE {
        raw.len() as int
    } else {
        SERIAL_CHUNK_SIZE as int
    };
    let chunk = raw.take(n);
    let enc = base64_encoded(chunk);
    crate::primitives::lemma_base64_encoded_shape(chunk);
    let line = line_of(true, enc);
    let tail = frame_lines(raw.skip(n), false);
    assert(encoded_frame(header, data) == seq![line] + tail);
    lemma_flatten_cons(line, tail);
    let flat = encoded_frame(header, data).flatten();
    let buf = flat.take(k);
    let m = 2 + enc.len();
    if k <= 1 {
    } else {
        assert(buf[0] == line[0] && buf[1] == line[1]);
        lemma_find_pair_here(buf, 0, INITIAL_HEADER_0, INITIAL_HEADER_1);
        if k <= m {
            assert forall|i: int| 2 <= i < buf.len() implies buf[i] != NEWLINE by {
                assert(buf[i] == line[i]);
                assert(line[i] == enc[i - 2]);
                assert(is_base64_symbol(enc[i - 2]));
            }
            lemma_find_byte_none(buf, 2, NEWLINE);
        } else {
            assert(buf.subrange(0, line.len() as int) =~= line);
            lemma_read_line(buf, 0, true, chunk);
            assert(chunk.len() >= 2);
            assert(chunk[0] == be16_bytes(size)[0]);
            assert(chunk[1] == be16_bytes(size)[1]);
            lemma_be16_bytes(size);
            let total = crate::smp::be16(chunk[0], chunk[1]) as int;
            assert(total == 10 + data.len());
            assert(buf =~= (line + tail.flatten()).take(k));
            lemma_assemble_cut(raw.skip(n), line, chunk.skip(2), total, k);
        }
    }
}

proof fn lemma_assemble_pos(buf: Seq<u8>, pos: int, acc: Seq<u8>, total: int)
    requires
        0 <= pos <= buf.len(),
    ensures
        assemble(buf, pos, acc, total) matches Ok(Some((j, q))) ==> pos <= q <= buf.len(),
    decreases buf.len() - pos,
{
    if acc.len() < total {
        lemma_find_pair_bounds(buf, pos, CONTINUATION_HEADER_0, CONTINUATION_HEADER_1);
        if let Some(cs) = find_pair(buf, pos, CONTINUATION_HEADER_0, CONTINUATION_HEADER_1) {
            lemma_find_byte_bounds(buf, cs + 2, NEWLINE);
            if let Some(nl) = find_byte(buf, cs + 2, NEWLINE) {
                if let Some(d) = base64_decoded(buf.subrange(cs + 2, nl)) {
                    lemma_assemble_pos(buf, nl + 1, acc + d, total);
                }
            }
        }
    }
}

/// A decoded frame consumes at least one byte and no more than the buffer.
pub proof fn lemma_decoded_frame_consumes(buf: Seq<u8>)
    ensures
        decoded_frame(buf) matches Ok(Some((d, c))) ==> 0 < c <= buf.len(),
{
    lemma_find_pair_bounds(buf, 0, INITIAL_HEADER_0, INITIAL_HEADER_1);
    if let Some(start) = find_pair(buf, 0, INITIAL_HEADER_0, INITIAL_HEADER_1) {
        lemma_find_byte_bounds(buf, start + 2, NEWLINE);
        if let Some(nl) = find_byte(buf, start + 2, NEWLINE) {
            if let Some(first) = base64_decoded(buf.subrange(start + 2, nl)) {
                if first.len() >= 2 {
                    let total = crate::smp::be16(first[0], first[1]) as int;
                    lemma_assemble_pos(buf, nl + 1, first.skip(2), total);
                }
            }
        }
    }
}


proof fn lemma_find_pair_extend(buf: Seq<u8>, more: Seq<u8>, from: int, a: u8, b: u8)
    requires
        find_pair(buf, from, a, b) is Some,
    ensures
        find_pair(buf + more, from, a, b) == find_pair(buf, from, a, b),
    decreases buf.len() - from,
{
    let ext = buf + more;
    assert(ext[from] == buf[from]);
    assert(ext[from + 1] == buf[from + 1]);
    if !(buf[from] == a && buf[from + 1] == b) {
        lemma_find_pair_extend(buf, more, from + 1, a, b);
    }
}

proof fn lemma_find_byte_extend(buf: Seq<u8>, more: Seq<u8>, from: int, x: u8)
    requires
        find_byte(buf, from, x) is Some,
    ensures
        find_byte(buf + more, from, x) == find_byte(buf, from, x),
    decreases buf.len() - from,
{
    let ext = buf + more;
    assert(ext[from] == buf[from]);
    if buf[from] != x {
        lemma_find_byte_extend(buf, more, from + 1, x);
    }
}

proof fn lemma_assemble_extend(buf: Seq<u8>, more: Seq<u8>, pos: int, acc: Seq<u8>, total: int)
    requires
        !(assemble(buf, pos, acc, total) is Ok && assemble(buf, pos, acc, total)->Ok_0 is None),
    ensures
        assemble(buf + more, pos, acc, total) == assemble(buf, pos, acc, total),
    decreases buf.len() - pos,
{
    let ext = buf + more;
    if acc.len() < total {
        let cs = find_pair(buf, pos, CONTINUATION_HEADER_0, CONTINUATION_HEADER_1)->Some_0;
        lemma_find_pair_bounds(buf, pos, CONTINUATION_HEADER_0, CONTINUATION_HEADER_1);
        lemma_find_pair_extend(buf, more, pos, CONTINUATION_HEADER_0, CONTINUATION_HEADER_1);
        let nl = find_byte(buf, cs + 2, NEWLINE)->Some_0;
        lemma_find_byte_bounds(buf, cs + 2, NEWLINE);
        lemma_find_byte_extend(buf, more, cs + 2, NEWLINE);
        assert(ext.subrange(cs + 2, nl) =~= buf.subrange(cs + 2, nl));
        if let Some(d) = base64_decoded(buf.subrange(cs + 2, nl)) {
            lemma_assemble_extend(buf, more, nl + 1, acc + d, total);
        }
    }
}

/// Receiving more bytes does not change a decoding that is already decided:
/// once the buffer holds a complete frame, or a protocol error, appending
/// bytes gives the same outcome.
pub proof fn lemma_decode_stable(buf: Seq<u8>, more: Seq<u8>)
    requires
        decoded_frame(buf) != Ok::<Option<(Seq<u8>, int)>, FrameError>(None),
    ensures
        decoded_frame(buf + more) == decoded_frame(buf),
{
    let ext = buf + more;
    let start = find_pair(buf, 0, INITIAL_HEADER_0, INITIAL_HEADER_1)->Some_0;
    lemma_find_pair_bounds(buf, 0, INITIAL_HEADER_0, INITIAL_HEADER_1);
    lemma_find_pair_extend(buf, more, 0, INITIAL_HEADER_0, INITIAL_HEADER_1);
    let nl = find_byte(buf, start + 2, NEWLINE)->Some_0;
    lemma_find_byte_bounds(buf, start + 2, NEWLINE);
    lemma_find_byte_extend(buf, more, start + 2, NEWLINE);
    assert(ext.subrange(start + 2, nl) =~= buf.subrange(start + 2, nl));
    if let Some(first) = base64_decoded(buf.subrange(start + 2, nl)) {
        if first.len() >= 2 {
            let total = crate::smp::be16(first[0], first[1]) as int;
            lemma_assemble_extend(buf, more, nl + 1, first.skip(2), total);
        }
    }
}

} // verus!

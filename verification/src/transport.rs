//! The request/response logic of an SMP transport: sequence numbers, request
//! framing, and the matching of received frames to the pending request.
//! The serial port itself is driven by the application, which hands the
//! received bytes to the session and sends the lines it returns.
use vstd::prelude::*;

use crate::bytes::append_bytes;
use crate::framing::{
    decoded_frame, no_frame_start, encoded_frame, frame_error_text,
    lemma_frame_roundtrip, FrameError, SerialFramer,
};
use crate::smp::{header_fits, header_from_bytes, header_to_bytes, lemma_header_roundtrip, op, SmpHeader, SMP_HEADER_SIZE};

verus! {

/// An error of the transport.
#[derive(Debug)]
pub enum TransportError {
    Js(String),
    Frame(FrameError),
    UnexpectedResponse,
}

/// The text that describes a transport error.
pub open spec fn transport_error_text(e: TransportError) -> Seq<char> {
    match e {
        TransportError::Js(msg) => "JS error: "@ + msg@,
        TransportError::Frame(f) => "Frame error: "@ + frame_error_text(f),
        TransportError::UnexpectedResponse => "Unexpected response"@,
    }
}

impl TransportError {
    /// The text that describes the error.
    pub fn message(&self) -> (r: String)
        ensures
            r@ == transport_error_text(*self),
    {
        match self {
            TransportError::Js(msg) => {
                let mut s = String::from_str("JS error: ");
                s.append(msg.as_str());
                s
            },
            TransportError::Frame(f) => {
                let mut s = String::from_str("Frame error: ");
                let m = f.message();
                s.append(m.as_str());
                s
            },
            TransportError::UnexpectedResponse => String::from_str("Unexpected response"),
        }
    }
}

/// What a sent request waits for: the response with its sequence number.
#[derive(Clone, Copy, Debug, PartialEq, Eq, Structural)]
pub struct PendingRequest {
    pub write_operation: bool,
    pub group_id: u16,
    pub command_id: u8,
    pub sequence_num: u8,
}

/// The operation of a request.
pub open spec fn request_op(write_operation: bool) -> u8 {
    if write_operation {
        op::WRITE
    } else {
        op::READ
    }
}

/// The operation that answers a request.
pub open spec fn response_op(write_operation: bool) -> u8 {
    if write_operation {
        op::WRITE_RSP
    } else {
        op::READ_RSP
    }
}

/// The header sent with a request carrying `payload_len` payload bytes.
pub open spec fn request_header(req: PendingRequest, payload_len: nat) -> SmpHeader {
    SmpHeader {
        ver: 1,
        op: request_op(req.write_operation),
        flags: 0,
        data_length: (payload_len % 65536) as u16,
        group_id: req.group_id,
        sequence_num: req.sequence_num,
        command_id: req.command_id,
    }
}

/// A response header that answers the request: same sequence number, group
/// and command, and the matching response operation.
pub open spec fn answers(h: SmpHeader, req: PendingRequest) -> bool {
    &&& h.sequence_num == req.sequence_num
    &&& h.op == response_op(req.write_operation)
    &&& h.group_id == req.group_id
    &&& h.command_id == req.command_id
}

/// What polling a buffer of received bytes gives for a pending request, and
/// the bytes that stay buffered: frames that answer other sequence numbers
/// are dropped, the first frame with the request's sequence number is its
/// response; a frame shorter than a header, or one with a wrong operation,
/// group or command, is an unexpected response. A protocol error leaves the
/// buffer as it is.
pub open spec fn polled(buf: Seq<u8>, req: PendingRequest) -> (
    Result<Option<Seq<u8>>, TransportError>,
    Seq<u8>,
)
    decreases buf.len(),
{
    match decoded_frame(buf) {
        Err(e) => (Err(TransportError::Frame(e)), buf),
        Ok(None) => (Ok(None), buf),
        Ok(Some((data, consumed))) => {
            let rest = buf.skip(consumed);
            if data.len() < SMP_HEADER_SIZE {
                (Err(TransportError::UnexpectedResponse), rest)
            } else {
                let h = header_from_bytes(data.take(8));
                if h.sequence_num != req.sequence_num {
                    proof {
                        crate::framing::lemma_decoded_frame_consumes(buf);
                    }
                    polled(rest, req)
                } else if !answers(h, req) {
                    (Err(TransportError::UnexpectedResponse), rest)
                } else {
                    (Ok(Some(data.skip(8))), rest)
                }
            }
        },
    }
}

/// The spec view of a poll result.
pub open spec fn poll_view(r: Result<Option<Vec<u8>>, TransportError>) -> Result<
    Option<Seq<u8>>,
    TransportError,
> {
    match r {
        Ok(Some(v)) => Ok(Some(v@)),
        Ok(None) => Ok(None),
        Err(e) => Err(e),
    }
}

/// The transport-independent state of an SMP connection: the framer, the
/// received bytes not yet consumed, and the next sequence number.
pub struct SmpSession {
    framer: SerialFramer,
    read_buf: Vec<u8>,
    next_seqnum: u8,
}

impl SmpSession {
    /// Received bytes not yet consumed.
    pub closed spec fn buffered(self) -> Seq<u8> {
        self.read_buf@
    }

    /// Sequence number of the next request.
    pub closed spec fn next_seq(self) -> u8 {
        self.next_seqnum
    }

    pub fn new() -> (r: Self)
        ensures
            r.buffered() == Seq::<u8>::empty(),
            r.next_seq() == 0,
    {
        SmpSession { framer: SerialFramer::new(), read_buf: Vec::with_capacity(4096), next_seqnum: 0 }
    }

    /// Starts a request: takes the next sequence number (wrapping after 255),
    /// and returns what the response must answer and the serial lines that
    /// carry the request.
    pub fn begin_request(
        &mut self,
        write_operation: bool,
        group_id: u16,
        command_id: u8,
        cbor_payload: &[u8],
    ) -> (r: (PendingRequest, Vec<Vec<u8>>))
        ensures
            r.0 == (PendingRequest {
                write_operation,
                group_id,
                command_id,
                sequence_num: old(self).next_seq(),
            }),
            final(self).next_seq() == (old(self).next_seq() + 1) % 256,
            final(self).buffered() == old(self).buffered(),
            r.1.deep_view() == encoded_frame(
                header_to_bytes(request_header(r.0, cbor_payload@.len())),
                cbor_payload@,
            ),
    {
        let sequence_num = self.next_seqnum;
        self.next_seqnum = self.next_seqnum.wrapping_add(1);
        let req = PendingRequest { write_operation, group_id, command_id, sequence_num };
        let header = SmpHeader {
            ver: 0b01,
            op: if write_operation {
                op::WRITE
            } else {
                op::READ
            },
            flags: 0,
            data_length: (cbor_payload.len() % 65536) as u16,
            group_id,
            sequence_num,
            command_id,
        };
        let lines = self.framer.encode_frame(header.to_bytes(), cbor_payload);
        (req, lines)
    }

    /// Appends bytes read from the port to the receive buffer.
    pub fn push_received(&mut self, bytes: &[u8])
        ensures
            final(self).buffered() == old(self).buffered() + bytes@,
            final(self).next_seq() == old(self).next_seq(),
    {
        append_bytes(&mut self.read_buf, bytes);
    }

    /// Looks for the response to `req` among the received bytes.
    /// `Ok(Some(payload))`: the response arrived; `Ok(None)`: more bytes are
    /// needed; `Err`: a protocol error or an unexpected response.
    pub fn poll_response(&mut self, req: &PendingRequest) -> (r: Result<
        Option<Vec<u8>>,
        TransportError,
    >)
        ensures
            (poll_view(r), final(self).buffered()) == polled(old(self).buffered(), *req),
            final(self).next_seq() == old(self).next_seq(),
    {
        loop
            invariant
                polled(self.read_buf@, *req) == polled(old(self).read_buf@, *req),
                self.next_seqnum == old(self).next_seqnum,
            decreases self.read_buf@.len(),
        {
            let decoded = self.framer.decode_frame(self.read_buf.as_slice());
            match decoded {
                Err(e) => return Err(TransportError::Frame(e)),
                Ok(None) => return Ok(None),
                Ok(Some((data, consumed))) => {
                    proof {
                        crate::framing::lemma_decoded_frame_consumes(self.read_buf@);
                    }
                    let n = self.read_buf.len();
                    let mut rest: Vec<u8> = Vec::with_capacity(n - consumed);
                    append_bytes(&mut rest, &self.read_buf.as_slice()[consumed..n]);
                    assert(rest@ =~= self.read_buf@.skip(consumed as int));
                    self.read_buf = rest;
                    if data.len() < SMP_HEADER_SIZE {
                        return Err(TransportError::UnexpectedResponse);
                    }
                    let hb: [u8; SMP_HEADER_SIZE] = [
                        data[0],
                        data[1],
                        data[2],
                        data[3],
                        data[4],
                        data[5],
                        data[6],
                        data[7],
                    ];
                    assert(hb@ =~= data@.take(8));
                    let resp_header = SmpHeader::from_bytes(hb);
                    if resp_header.sequence_num != req.sequence_num {
                        continue;
                    }
                    let expected_op = if req.write_operation {
                        op::WRITE_RSP
                    } else {
                        op::READ_RSP
                    };
                    if resp_header.op != expected_op || resp_header.group_id != req.group_id
                        || resp_header.command_id != req.command_id {
                        return Err(TransportError::UnexpectedResponse);
                    }
                    let mut payload: Vec<u8> = Vec::with_capacity(data.len() - SMP_HEADER_SIZE);
                    append_bytes(&mut payload, &data.as_slice()[SMP_HEADER_SIZE..data.len()]);
                    assert(payload@ =~= data@.skip(8));
                    return Ok(Some(payload));
                },
            }
        }
    }
}


/// The bytes of a frame that carries a message with header `h` and payload
/// `payload`.
pub open spec fn frame_bytes(h: SmpHeader, payload: Seq<u8>) -> Seq<u8> {
    encoded_frame(header_to_bytes(h), payload).flatten()
}

proof fn lemma_poll_frame(
    noise: Seq<u8>,
    h: SmpHeader,
    payload: Seq<u8>,
    rest: Seq<u8>,
    req: PendingRequest,
)
    requires
        no_frame_start(noise),
        header_fits(h),
        payload.len() + 10 <= 65535,
    ensures
        decoded_frame(noise + frame_bytes(h, payload) + rest) == Ok::<
            Option<(Seq<u8>, int)>,
            FrameError,
        >(
            Some(
                (
                    header_to_bytes(h) + payload,
                    (noise.len() + frame_bytes(h, payload).len()) as int,
                ),
            ),
        ),
        (noise + frame_bytes(h, payload) + rest).skip(
            (noise.len() + frame_bytes(h, payload).len()) as int,
        ) == rest,
        (header_to_bytes(h) + payload).take(8) == header_to_bytes(h),
        header_from_bytes((header_to_bytes(h) + payload).take(8)) == h,
        (header_to_bytes(h) + payload).skip(8) == payload,
{
    let hb = header_to_bytes(h);
    lemma_frame_roundtrip(noise, hb, payload, rest);
    lemma_header_roundtrip(h);
    let flat = frame_bytes(h, payload);
    assert((noise + flat + rest).skip((noise.len() + flat.len()) as int) =~= rest);
    assert((hb + payload).take(8) =~= hb);
    assert((hb + payload).skip(8) =~= payload);
}

/// The response to a pending request is delivered: when the received bytes
/// hold, after bytes without a frame start marker, the frame of a message
/// whose header carries the request's sequence number, group and command and
/// the response operation of the request (write response for a write, read
/// response for a read), the poll gives its payload and keeps the bytes after
/// the frame, whatever the header's version bits and flags hold.
pub proof fn lemma_poll_delivers_response(
    noise: Seq<u8>,
    h: SmpHeader,
    payload: Seq<u8>,
    rest: Seq<u8>,
    req: PendingRequest,
)
    requires
        no_frame_start(noise),
        header_fits(h),
        h.sequence_num == req.sequence_num,
        h.op == (if req.write_operation {
            op::WRITE_RSP
        } else {
            op::READ_RSP
        }),
        h.group_id == req.group_id,
        h.command_id == req.command_id,
        payload.len() + 10 <= 65535,
    ensures
        polled(noise + frame_bytes(h, payload) + rest, req) == (
            Ok::<Option<Seq<u8>>, TransportError>(Some(payload)),
            rest,
        ),
{
    lemma_poll_frame(noise, h, payload, rest, req);
}

/// A frame that carries another sequence number than the pending request's
/// is dropped, with the bytes before it: polling goes on with the bytes
/// after it.
pub proof fn lemma_poll_skips_stale(
    noise: Seq<u8>,
    h: SmpHeader,
    payload: Seq<u8>,
    rest: Seq<u8>,
    req: PendingRequest,
)
    requires
        no_frame_start(noise),
        header_fits(h),
        h.sequence_num != req.sequence_num,
        payload.len() + 10 <= 65535,
    ensures
        polled(noise + frame_bytes(h, payload) + rest, req) == polled(rest, req),
{
    lemma_poll_frame(noise, h, payload, rest, req);
}

/// A frame with the pending request's sequence number but another
/// operation, group or command is an unexpected response; it is consumed.
pub proof fn lemma_poll_rejects_mismatch(
    noise: Seq<u8>,
    h: SmpHeader,
    payload: Seq<u8>,
    rest: Seq<u8>,
    req: PendingRequest,
)
    requires
        no_frame_start(noise),
        header_fits(h),
        h.sequence_num == req.sequence_num,
        !(h.op == (if req.write_operation {
            op::WRITE_RSP
        } else {
            op::READ_RSP
        }) && h.group_id == req.group_id && h.command_id == req.command_id),
        payload.len() + 10 <= 65535,
    ensures
        polled(noise + frame_bytes(h, payload) + rest, req) == (
            Err::<Option<Seq<u8>>, TransportError>(TransportError::UnexpectedResponse),
            rest,
        ),
{
    lemma_poll_frame(noise, h, payload, rest, req);
}

/// While no frame start has arrived, polling waits and keeps the bytes.
pub proof fn lemma_poll_waits(buf: Seq<u8>, req: PendingRequest)
    requires
        no_frame_start(buf),
    ensures
        polled(buf, req) == (Ok::<Option<Seq<u8>>, TransportError>(None), buf),
{
    crate::framing::lemma_find_pair_bounds(
        buf,
        0,
        crate::framing::INITIAL_HEADER_0,
        crate::framing::INITIAL_HEADER_1,
    );
}


/// The header of a request records the payload's full length: for every
/// payload of at most 65535 bytes its two length bytes are the length,
/// big-endian, and decoding them gives the length back.
pub proof fn lemma_request_header_length(req: PendingRequest, n: nat)
    requires
        n <= 65535,
    ensures
        header_to_bytes(request_header(req, n))[2] == n / 256,
        header_to_bytes(request_header(req, n))[3] == n % 256,
        header_from_bytes(header_to_bytes(request_header(req, n))).data_length == n,
{
    lemma_header_roundtrip(request_header(req, n));
}

/// What a request sends is what the device reads: decoding the lines of a
/// request gives back the payload, behind a version 1 header with the write
/// or read operation, no flags, the payload's length, and the request's
/// group, command and sequence number.
pub proof fn lemma_request_frame(req: PendingRequest, payload: Seq<u8>)
    requires
        payload.len() + 10 <= 65535,
    ensures
        ({
            let lines = encoded_frame(header_to_bytes(request_header(req, payload.len())), payload);
            match decoded_frame(lines.flatten()) {
                Ok(Some((d, consumed))) => {
                    &&& consumed == lines.flatten().len()
                    &&& d.skip(8) == payload
                    &&& header_from_bytes(d.take(8)) == (SmpHeader {
                        ver: 1,
                        op: if req.write_operation {
                            op::WRITE
                        } else {
                            op::READ
                        },
                        flags: 0,
                        data_length: payload.len() as u16,
                        group_id: req.group_id,
                        sequence_num: req.sequence_num,
                        command_id: req.command_id,
                    })
                },
                _ => false,
            }
        }),
{
    let h = request_header(req, payload.len());
    let hb = header_to_bytes(h);
    let lines = encoded_frame(hb, payload);
    lemma_frame_roundtrip(Seq::<u8>::empty(), hb, payload, Seq::<u8>::empty());
    assert(Seq::<u8>::empty() + lines.flatten() + Seq::<u8>::empty() =~= lines.flatten());
    lemma_header_roundtrip(h);
    assert((hb + payload).take(8) =~= hb);
    assert((hb + payload).skip(8) =~= payload);
}

} // verus!

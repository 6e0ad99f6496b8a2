//! Image management: the image list entry, the size of upload chunks, and
//! the sequence of upload requests.
use vstd::prelude::*;

use crate::bytes::append_bytes;
use crate::primitives::{sha256, sha256_digest};

verus! {

/// Image management group ID.
pub const GROUP_IMAGE: u16 = 1;
/// Image state command ID.
pub const CMD_IMAGE_STATE: u8 = 0;
/// Image upload command ID.
pub const CMD_IMAGE_UPLOAD: u8 = 1;
/// Default SMP frame size (Zephyr's default).
pub const DEFAULT_SMP_FRAME_SIZE: usize = 384;
/// Size of the SMP header inside a frame.
pub const MGMT_HDR_SIZE: usize = 8;

/// One image slot as the device reports it.
#[derive(Clone, Debug)]
pub struct ImageState {
    pub image: u32,
    pub slot: u32,
    pub version: String,
    pub bootable: bool,
    pub pending: bool,
    pub confirmed: bool,
    pub active: bool,
    pub permanent: bool,
}

/// Bytes that a CBOR byte-string header needs beyond its first byte to
/// carry a length `n`, as the chunk size computation counts them.
pub open spec fn length_bytes(n: int) -> int {
    if n <= 0xff {
        1
    } else if n <= 0xffff {
        2
    } else if n <= 0xffff_ffff {
        4
    } else {
        8
    }
}

/// The largest data chunk of an upload request that fits an SMP frame of
/// `smp_frame_size` bytes, given the encoded size of a first upload request
/// with maximal fields and one data byte; `None` when the frame is too small.
pub open spec fn max_data_chunk_size(smp_frame_size: int, size_with_one_byte: int) -> Option<int> {
    let estimated = smp_frame_size - MGMT_HDR_SIZE - (size_with_one_byte - 1);
    if estimated <= 0 {
        None
    } else {
        let actual = estimated - length_bytes(estimated);
        if actual <= 0 {
            None
        } else {
            Some(actual)
        }
    }
}

/// Computes the max data chunk size for an image upload. `size_with_one_byte`
/// is the CBOR size of a first upload request with maximal offset, length
/// and image number, a 32-byte hash and one data byte.
pub fn image_upload_max_data_chunk_size(smp_frame_size: usize, size_with_one_byte: usize) -> (r:
    Result<usize, String>)
    requires
        size_with_one_byte >= 1,
    ensures
        match r {
            Ok(n) => max_data_chunk_size(smp_frame_size as int, size_with_one_byte as int) == Some(
                n as int,
            ),
            Err(s) => max_data_chunk_size(smp_frame_size as int, size_with_one_byte as int) is None
                && s@ == "SMP frame size too small"@,
        },
{
    let size_without_data = size_with_one_byte - 1;
    if smp_frame_size < MGMT_HDR_SIZE || smp_frame_size - MGMT_HDR_SIZE < size_without_data {
        return Err(String::from_str("SMP frame size too small"));
    }
    let estimated_data_size = smp_frame_size - MGMT_HDR_SIZE - size_without_data;
    if estimated_data_size == 0 {
        return Err(String::from_str("SMP frame size too small"));
    }
    let data_length_bytes: usize = if estimated_data_size <= 0xff {
        1
    } else if estimated_data_size <= 0xffff {
        2
    } else if estimated_data_size as u64 <= 0xffff_ffff {
        4
    } else {
        8
    };
    if estimated_data_size < data_length_bytes {
        return Err(String::from_str("SMP frame size too small"));
    }
    let actual_data_size = estimated_data_size - data_length_bytes;
    if actual_data_size == 0 {
        return Err(String::from_str("SMP frame size too small"));
    }
    Ok(actual_data_size)
}

/// The first upload request: it carries the image number, the total length
/// and the SHA-256 of the whole image.
#[derive(Clone, Debug)]
pub struct ImageUploadFirst {
    pub image: Option<u32>,
    pub len: u64,
    pub off: u64,
    pub sha: Vec<u8>,
    pub data: Vec<u8>,
}

/// A following upload request.
#[derive(Clone, Debug)]
pub struct ImageUploadChunk {
    pub off: u64,
    pub data: Vec<u8>,
}

/// One request of an upload.
#[derive(Clone, Debug)]
pub enum UploadRequest {
    First(ImageUploadFirst),
    Chunk(ImageUploadChunk),
}

/// End of the chunk that starts at `offset`.
pub open spec fn chunk_end(size: int, offset: int, max: int) -> int {
    if size - offset < max {
        size
    } else {
        offset + max
    }
}

/// The state of an image upload: the image's size, hash and number, the
/// chunk size, and the offset the device asked for next.
pub struct ImageUpload {
    size: usize,
    offset: usize,
    chunk_size_max: usize,
    image: Option<u32>,
    sha: [u8; 32],
}

impl ImageUpload {
    pub closed spec fn size(self) -> nat {
        self.size as nat
    }

    pub closed spec fn offset(self) -> nat {
        self.offset as nat
    }

    pub closed spec fn chunk_size_max(self) -> nat {
        self.chunk_size_max as nat
    }

    pub closed spec fn image(self) -> Option<u32> {
        self.image
    }

    pub closed spec fn sha(self) -> Seq<u8> {
        self.sha@
    }

    /// Starts the upload of `data` into image `image`, in chunks of at most
    /// `chunk_size_max` bytes.
    pub fn new(data: &[u8], image: Option<u32>, chunk_size_max: usize) -> (r: Self)
        requires
            chunk_size_max > 0,
        ensures
            r.size() == data@.len(),
            r.offset() == 0,
            r.chunk_size_max() == chunk_size_max,
            r.image() == image,
            r.sha() == sha256(data@),
    {
        let sha = sha256_digest(data);
        ImageUpload { size: data.len(), offset: 0, chunk_size_max, image, sha }
    }

    /// The offset the device asked for next.
    pub fn offset_now(&self) -> (r: usize)
        ensures
            r == self.offset(),
    {
        self.offset
    }

    /// Whether the whole image has been acknowledged.
    pub fn is_done(&self) -> (r: bool)
        ensures
            r == (self.offset() >= self.size()),
    {
        self.offset >= self.size
    }

    /// The next request to send, `None` once the device has acknowledged the
    /// whole image: the chunk of `data` at the current offset, at most
    /// `chunk_size_max` bytes; the first request (at offset 0) also carries
    /// the image number, the total length and the image's hash.
    pub fn next_request(&self, data: &[u8]) -> (r: Option<UploadRequest>)
        requires
            data@.len() == self.size(),
            self.chunk_size_max() > 0,
        ensures
            self.offset() >= self.size() ==> r is None,
            self.offset() < self.size() ==> {
                let end = chunk_end(self.size() as int, self.offset() as int, self.chunk_size_max() as int);
                let chunk = data@.subrange(self.offset() as int, end);
                match r {
                    Some(UploadRequest::First(f)) => self.offset() == 0 && f.image == self.image()
                        && f.len == self.size() && f.off == 0 && f.sha@ == self.sha() && f.data@
                        == chunk,
                    Some(UploadRequest::Chunk(c)) => self.offset() != 0 && c.off == self.offset()
                        && c.data@ == chunk,
                    None => false,
                }
            },
            self.offset() < self.size() ==> match r {
                Some(UploadRequest::First(f)) => f.data@.len() == if self.size() - self.offset()
                    < self.chunk_size_max() {
                    self.size() - self.offset()
                } else {
                    self.chunk_size_max() as int
                },
                Some(UploadRequest::Chunk(c)) => c.data@.len() == if self.size() - self.offset()
                    < self.chunk_size_max() {
                    self.size() - self.offset()
                } else {
                    self.chunk_size_max() as int
                },
                None => false,
            },
    {
        if self.offset >= self.size {
            return None;
        }
        let current_chunk_size = if self.size - self.offset < self.chunk_size_max {
            self.size - self.offset
        } else {
            self.chunk_size_max
        };
        let end = self.offset + current_chunk_size;
        let mut chunk: Vec<u8> = Vec::with_capacity(current_chunk_size);
        append_bytes(&mut chunk, &data[self.offset..end]);
        if self.offset == 0 {
            let mut sha: Vec<u8> = Vec::with_capacity(32);
            append_bytes(&mut sha, self.sha.as_slice());
            Some(
                UploadRequest::First(
                    ImageUploadFirst {
                        image: self.image,
                        len: self.size as u64,
                        off: 0,
                        sha,
                        data: chunk,
                    },
                ),
            )
        } else {
            Some(UploadRequest::Chunk(ImageUploadChunk { off: self.offset as u64, data: chunk }))
        }
    }

    /// Takes the device's answer: the offset it expects next.
    pub fn handle_response(&mut self, off: u64)
        ensures
            final(self).offset() == off as usize,
            final(self).size() == old(self).size(),
            final(self).chunk_size_max() == old(self).chunk_size_max(),
            final(self).image() == old(self).image(),
            final(self).sha() == old(self).sha(),
    {
        self.offset = off as usize;
    }
}

/// Every chunk holds the bytes left or the chunk size, whichever is fewer:
/// never more than the chunk size, and never empty.
pub proof fn lemma_chunk_length(size: int, offset: int, max: int)
    requires
        0 <= offset < size,
        max > 0,
    ensures
        chunk_end(size, offset, max) - offset == if size - offset < max {
            size - offset
        } else {
            max
        },
        0 < chunk_end(size, offset, max) - offset <= max,
        chunk_end(size, offset, max) <= size,
{
}

/// The chunks that an upload from `offset` on sends, when the device
/// acknowledges each chunk by asking for the byte right after it.
pub open spec fn acknowledged_chunks(data: Seq<u8>, offset: int, max: int) -> Seq<Seq<u8>>
    decreases data.len() - offset,
{
    if max <= 0 || offset < 0 || offset >= data.len() {
        Seq::empty()
    } else {
        let end = chunk_end(data.len() as int, offset, max);
        seq![data.subrange(offset, end)] + acknowledged_chunks(data, end, max)
    }
}

/// When the device acknowledges every chunk by asking for the byte right
/// after it, the chunks of an upload, in the order sent, make up the whole
/// image.
pub proof fn lemma_upload_covers_image(data: Seq<u8>, max: int)
    requires
        max > 0,
    ensures
        acknowledged_chunks(data, 0, max).flatten() == data,
{
    lemma_chunks_from(data, 0, max);
    assert(data.skip(0) =~= data);
}

proof fn lemma_chunks_from(data: Seq<u8>, offset: int, max: int)
    requires
        max > 0,
        0 <= offset <= data.len(),
    ensures
        acknowledged_chunks(data, offset, max).flatten() == data.skip(offset),
    decreases data.len() - offset,
{
    if offset >= data.len() {
        assert(data.skip(offset) =~= Seq::<u8>::empty());
    } else {
        let end = chunk_end(data.len() as int, offset, max);
        let head = data.subrange(offset, end);
        let tail = acknowledged_chunks(data, end, max);
        lemma_chunks_from(data, end, max);
        let s = seq![head] + tail;
        assert(s.drop_first() =~= tail);
        assert(s.flatten() == head + tail.flatten());
        assert(head + data.skip(end) =~= data.skip(offset));
    }
}

} // verus!

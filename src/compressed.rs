//! Reader for content compressed with dictzip (`.dict.dz`).
//!
//! Dictzip is gzip (RFC 1952) whose `FEXTRA` field holds an `RA` subfield: the content is
//! cut into chunks of a fixed uncompressed length, each compressed on its own as raw DEFLATE,
//! and the subfield lists the compressed length of each. Any byte range of the content can
//! then be had by inflating only the chunks that cover it.
use vstd::prelude::*;

use crate::error::DictError;
use crate::index::Location;
use crate::reader::{
    bytes_outcome, bytes_to_text, copy_range, le16, le32, read_u16_le, read_u32_le, text_outcome,
    Fault, MAX_BYTES_FOR_BUFFER,
};

verus! {

/// Flag bit: the header has an `FEXTRA` field.
pub const GZ_FEXTRA: u8 = 0b0000_0100;

/// Flag bit: the header holds a file name, ended by a zero byte.
pub const GZ_FNAME: u8 = 0b0000_1000;

/// Flag bit: the header holds a comment, ended by a zero byte.
pub const GZ_COMMENT: u8 = 0b0001_0000;

/// Flag bit: the header ends with a two-byte CRC.
pub const GZ_FHCRC: u8 = 0b0000_0010;

/// The output of raw DEFLATE decompression of `data` into a zeroed buffer of `capacity`
/// bytes, or `None` where the data does not inflate.
pub uninterp spec fn raw_inflate(data: Seq<u8>, capacity: nat) -> Option<Seq<u8>>;

/// Relies on flate2's `Decompress::new(false)` and `Decompress::decompress`: raw DEFLATE
/// decompression of `data[lo..hi]` into a zeroed buffer of `capacity` bytes, which is returned
/// whole.
#[verifier::external_body]
fn inflate(data: &Vec<u8>, lo: usize, hi: usize, capacity: usize) -> (r: Result<
    Vec<u8>,
    flate2::DecompressError,
>)
    requires
        lo <= hi <= data@.len(),
    ensures
        match r {
            Ok(v) => raw_inflate(data@.subrange(lo as int, hi as int), capacity as nat) == Some(v@)
                && v@.len() == capacity,
            Err(_) => raw_inflate(data@.subrange(lo as int, hi as int), capacity as nat) is None,
        },
{
    let mut decoder = flate2::Decompress::new(false);
    let mut decoded = vec![0u8; capacity];
    decoder.decompress(&data[lo..hi], &mut decoded, flate2::FlushDecompress::None)?;
    Ok(decoded)
}

/// Whether flag bit `mask` is set in the header `d`.
pub open spec fn flag(d: Seq<u8>, mask: u8) -> bool {
    d[3] & mask != 0
}

/// Length of the `FEXTRA` field.
pub open spec fn xlen(d: Seq<u8>) -> nat {
    le16(d, 10)
}

/// Length of the uncompressed chunks.
pub open spec fn uchunk_length(d: Seq<u8>) -> nat {
    le16(d, 18)
}

/// Number of chunks.
pub open spec fn chunk_count(d: Seq<u8>) -> nat {
    le16(d, 20)
}

/// Compressed length of chunk `i`.
pub open spec fn chunk_size(d: Seq<u8>, i: int) -> nat {
    le16(d, 22 + 2 * i)
}

/// Number of non-zero bytes from `p` on, before a zero byte or the end.
pub open spec fn nonzero_run(d: Seq<u8>, p: int) -> nat
    decreases d.len() - p,
{
    if p < 0 || p >= d.len() || d[p] == 0 {
        0
    } else {
        1 + nonzero_run(d, p + 1)
    }
}

/// A zero byte ends the string that starts at `p`.
pub open spec fn terminated(d: Seq<u8>, p: int) -> bool {
    p + nonzero_run(d, p) < d.len()
}

/// Where the file name, if any, ends.
pub open spec fn name_end(d: Seq<u8>) -> int {
    let p = 12 + xlen(d) as int;
    if flag(d, GZ_FNAME) {
        p + nonzero_run(d, p) + 1
    } else {
        p
    }
}

/// Where the comment, if any, ends.
pub open spec fn comment_end(d: Seq<u8>) -> int {
    let p = name_end(d);
    if flag(d, GZ_COMMENT) {
        p + nonzero_run(d, p) + 1
    } else {
        p
    }
}

/// Where the header ends and the first chunk starts.
pub open spec fn header_end(d: Seq<u8>) -> int {
    comment_end(d) + if flag(d, GZ_FHCRC) {
        2int
    } else {
        0int
    }
}

/// Sum of the compressed lengths of the chunks before chunk `i`.
pub open spec fn sizes_before(d: Seq<u8>, i: int) -> nat
    decreases i,
{
    if i <= 0 {
        0
    } else {
        sizes_before(d, i - 1) + chunk_size(d, i - 1)
    }
}

/// Where chunk `i` starts in the file.
pub open spec fn chunk_start(d: Seq<u8>, i: int) -> int {
    header_end(d) + sizes_before(d, i)
}

/// One past the last compressed byte; the uncompressed length follows.
pub open spec fn compressed_end(d: Seq<u8>) -> int {
    chunk_start(d, chunk_count(d) as int)
}

/// The uncompressed length recorded after the chunks (modulo 2^32).
pub open spec fn ufile_length(d: Seq<u8>) -> nat {
    le32(d, compressed_end(d))
}

/// Why a header is refused.
pub enum HeaderFault {
    /// The data ends before the header does.
    Truncated,
    /// A check of the header fails.
    Malformed,
}

/// The first check that the dictzip header `d` fails, or `None` for a good header.
pub open spec fn header_fault(d: Seq<u8>) -> Option<HeaderFault> {
    if early_fault(d) is Some {
        early_fault(d)
    } else if compressed_end(d) + 4 > d.len() {
        Some(HeaderFault::Truncated)
    } else {
        None
    }
}

/// The first check that the fixed part of the header `d`, up to the end of the optional
/// fields, fails.
pub open spec fn early_fault(d: Seq<u8>) -> Option<HeaderFault> {
    if d.len() < 2 {
        Some(HeaderFault::Truncated)
    } else if d[0] != 0x1F || d[1] != 0x8B {
        Some(HeaderFault::Malformed)
    } else if d.len() < 12 {
        Some(HeaderFault::Truncated)
    } else if !flag(d, GZ_FEXTRA) {
        Some(HeaderFault::Malformed)
    } else if d.len() < 12 + xlen(d) {
        Some(HeaderFault::Truncated)
    } else if xlen(d) < 10 {
        Some(HeaderFault::Malformed)
    } else if d[12] != 0x52 || d[13] != 0x41 {
        Some(HeaderFault::Malformed)
    } else if le16(d, 14) != xlen(d) - 4 {
        Some(HeaderFault::Malformed)
    } else if le16(d, 16) != 1 {
        Some(HeaderFault::Malformed)
    } else if chunk_count(d) == 0 {
        Some(HeaderFault::Malformed)
    } else if (xlen(d) - 10) / 2 != chunk_count(d) {
        Some(HeaderFault::Malformed)
    } else if flag(d, GZ_FNAME) && !terminated(d, 12 + xlen(d) as int) {
        Some(HeaderFault::Truncated)
    } else if flag(d, GZ_COMMENT) && !terminated(d, name_end(d)) {
        Some(HeaderFault::Truncated)
    } else {
        None
    }
}

/// Chunk `i` inflated, or `None` where it does not inflate.
pub open spec fn plain_chunk(d: Seq<u8>, i: int) -> Option<Seq<u8>> {
    raw_inflate(
        d.subrange(chunk_start(d, i), chunk_start(d, i) + chunk_size(d, i)),
        uchunk_length(d),
    )
}

/// The `uchunk_length` bytes that chunk `i` inflates to.
pub open spec fn plain_bytes(d: Seq<u8>, i: int) -> Seq<u8> {
    Seq::new(uchunk_length(d), |k: int| plain_chunk(d, i).unwrap()[k])
}

/// Every chunk in `[lo, hi)` inflates.
pub open spec fn chunks_inflate(d: Seq<u8>, lo: int, hi: int) -> bool {
    forall|i: int| lo <= i < hi ==> #[trigger] plain_chunk(d, i) is Some
}

/// The uncompressed bytes of the chunks `[lo, hi)`, one after the other.
pub open spec fn joined(d: Seq<u8>, lo: int, hi: int) -> Seq<u8>
    decreases hi - lo,
{
    if hi <= lo {
        seq![]
    } else {
        joined(d, lo, hi - 1) + plain_bytes(d, hi - 1)
    }
}

/// The whole uncompressed content: every chunk inflated, in order.
pub open spec fn content(d: Seq<u8>) -> Seq<u8> {
    joined(d, 0, chunk_count(d) as int)
}

/// What a fetch of `loc` from the dictzip file `d` gives: the checks of size and range, then
/// the bytes of the chunks that cover `[offset, offset + size)`, cut to that range. Where the
/// chunks are empty (chunk length 0) no byte can be had.
pub open spec fn dz_fetch(d: Seq<u8>, loc: Location) -> Result<Seq<u8>, Fault> {
    let u = uchunk_length(d) as int;
    if loc.size > MAX_BYTES_FOR_BUFFER {
        Err(Fault::TooLarge)
    } else if loc.offset + loc.size > ufile_length(d) {
        Err(Fault::OutOfRange)
    } else if loc.size == 0 {
        Ok(seq![])
    } else if u == 0 {
        Err(Fault::OutOfRange)
    } else {
        let first = loc.offset as int / u;
        let stop = (loc.offset + loc.size - 1) / u + 1;
        if stop > chunk_count(d) {
            Err(Fault::OutOfRange)
        } else if !chunks_inflate(d, first, stop) {
            Err(Fault::BadChunk)
        } else {
            let cut = loc.offset - first * u;
            Ok(joined(d, first, stop).subrange(cut, cut + loc.size))
        }
    }
}

/// Reader for dictzip-compressed content, held in memory.
pub struct Compressed {
    /// The compressed file.
    buf: Vec<u8>,
    /// Length of an uncompressed chunk.
    uchunk_length: usize,
    /// One past the last compressed byte.
    end_compressed_data: u64,
    /// Where each compressed chunk starts.
    chunk_offsets: Vec<u64>,
    /// Length of the uncompressed content.
    ufile_length: u64,
}

impl Compressed {
    /// The compressed file.
    pub closed spec fn data(&self) -> Seq<u8> {
        self.buf@
    }

    /// The fields agree with the header of the file, which passed every check.
    #[verifier::type_invariant]
    spec fn wf(&self) -> bool {
        let d = self.buf@;
        &&& header_fault(d) is None
        &&& self.uchunk_length == uchunk_length(d)
        &&& self.chunk_offsets@.len() == chunk_count(d)
        &&& forall|i: int|
            0 <= i < chunk_count(d) ==> #[trigger] self.chunk_offsets@[i] == chunk_start(d, i)
        &&& self.end_compressed_data == compressed_end(d)
        &&& self.ufile_length == ufile_length(d)
    }
}

/// Where the zero-terminated string that starts at `p` ends, or `None` if no zero byte
/// ends it.
fn skip_zero_terminated(d: &Vec<u8>, p: usize) -> (r: Option<usize>)
    requires
        p <= d@.len(),
    ensures
        match r {
            Some(q) => terminated(d@, p as int) && q == p + nonzero_run(d@, p as int) + 1,
            None => !terminated(d@, p as int),
        },
{
    let mut i: usize = p;
    while i < d.len() && d[i] != 0
        invariant
            p <= i <= d@.len(),
            p + nonzero_run(d@, p as int) == i + nonzero_run(d@, i as int),
        decreases d@.len() - i,
    {
        i = i + 1;
    }
    if i < d.len() {
        Some(i + 1)
    } else {
        None
    }
}

/// Chunks start one after the other: each ends where the next starts, and none ends after
/// the compressed data.
proof fn lemma_sizes_before_mono(d: Seq<u8>, i: int, j: int)
    requires
        0 <= i <= j,
    ensures
        sizes_before(d, i) <= sizes_before(d, j),
    decreases j - i,
{
    if i < j {
        lemma_sizes_before_mono(d, i, j - 1);
    }
}

impl Compressed {
    /// Reads the dictzip header of `buf` and builds the table of chunks.
    ///
    /// Fails with `IoError` where the data ends before the header (or the uncompressed
    /// length after the chunks) does, and with `InvalidFileFormat` where a check fails: the
    /// gzip magic, the `FEXTRA` flag, the `RA` subfield, its length, version 1, and a non-zero
    /// chunk count that fills the subfield.
    pub fn new(buf: Vec<u8>) -> (r: Result<Self, DictError>)
        ensures
            match header_fault(buf@) {
                None => r matches Ok(c) && c.data() == buf@,
                Some(HeaderFault::Truncated) => r matches Err(DictError::IoError(_)),
                Some(HeaderFault::Malformed) => r matches Err(DictError::InvalidFileFormat(_)),
            },
    {
        if buf.len() < 2 {
            return Err(DictError::IoError(String::from_str("the data ends within the gzip header")));
        }
        if buf[0] != 0x1F || buf[1] != 0x8B {
            return Err(DictError::InvalidFileFormat(String::from_str("not in gzip format")));
        }
        if buf.len() < 12 {
            return Err(DictError::IoError(String::from_str("the data ends within the gzip header")));
        }
        let flags = buf[3];
        if flags & GZ_FEXTRA == 0 {
            return Err(
                DictError::InvalidFileFormat(
                    String::from_str("extra flag (FLG.FEXTRA) not set, not in gzip + dzip format"),
                ),
            );
        }
        let xlen = read_u16_le(&buf, 10) as usize;
        if buf.len() < 12 + xlen {
            return Err(DictError::IoError(String::from_str("the data ends within the FEXTRA field")));
        }
        if xlen < 10 {
            return Err(DictError::InvalidFileFormat(String::from_str("the FEXTRA field is too short for dictzip information")));
        }
        if buf[12] != 0x52 || buf[13] != 0x41 {
            return Err(
                DictError::InvalidFileFormat(
                    String::from_str("no dictzip information found in the FEXTRA header (SI1 SI2 fields)"),
                ),
            );
        }
        let subfield_length = read_u16_le(&buf, 14) as usize;
        if subfield_length != xlen - 4 {
            return Err(
                DictError::InvalidFileFormat(
                    String::from_str("the subfield length does not match the FEXTRA length"),
                ),
            );
        }
        if read_u16_le(&buf, 16) != 1 {
            return Err(DictError::InvalidFileFormat(String::from_str("unimplemented dictzip version, only version 1 is supported")));
        }
        let uchunk_length = read_u16_le(&buf, 18) as usize;
        let count = read_u16_le(&buf, 20) as usize;
        if count == 0 {
            return Err(DictError::InvalidFileFormat(String::from_str("no compressed chunks in file or broken header information")));
        }
        if (xlen - 10) / 2 != count {
            return Err(
                DictError::InvalidFileFormat(
                    String::from_str("the chunk count does not match the size of the FEXTRA field"),
                ),
            );
        }
        let mut pos: usize = 12 + xlen;
        if flags & GZ_FNAME != 0 {
            match skip_zero_terminated(&buf, pos) {
                Some(p) => pos = p,
                None => return Err(DictError::IoError(String::from_str("the data ends within the file name"))),
            }
        }
        if flags & GZ_COMMENT != 0 {
            match skip_zero_terminated(&buf, pos) {
                Some(p) => pos = p,
                None => return Err(DictError::IoError(String::from_str("the data ends within the comment"))),
            }
        }
        let ghost len = buf@.len();
        let mut end = pos as u64;
        if flags & GZ_FHCRC != 0 {
            match end.checked_add(2) {
                Some(e) => end = e,
                None => {
                    proof {
                        lemma_sizes_before_mono(buf@, 0, count as int);
                    }
                    return Err(DictError::IoError(String::from_str("the data ends before the uncompressed length")));
                },
            }
        }
        assert(10 + 2 * count <= xlen) by (nonlinear_arith)
            requires
                (xlen - 10) / 2 == count,
                xlen >= 10,
        ;
        assert(end == header_end(buf@));
        let mut chunk_offsets: Vec<u64> = Vec::new();
        let mut i: usize = 0;
        while i < count
            invariant
                early_fault(buf@) is None,
                count == chunk_count(buf@),
                10 + 2 * count <= xlen,
                12 + xlen <= buf@.len(),
                0 <= i <= count,
                chunk_offsets@.len() == i,
                forall|j: int| 0 <= j < i ==> #[trigger] chunk_offsets@[j] == chunk_start(buf@, j),
                end == chunk_start(buf@, i as int),
            decreases count - i,
        {
            chunk_offsets.push(end);
            let size = read_u16_le(&buf, 22 + 2 * i) as u64;
            assert(size == chunk_size(buf@, i as int));
            assert(sizes_before(buf@, i + 1) == sizes_before(buf@, i as int) + chunk_size(buf@, i as int));
            match end.checked_add(size) {
                Some(e) => end = e,
                None => {
                    proof {
                        lemma_sizes_before_mono(buf@, i + 1, count as int);
                        assert(compressed_end(buf@) >= chunk_start(buf@, i + 1));
                    }
                    return Err(DictError::IoError(String::from_str("the data ends before the uncompressed length")));
                },
            }
            i = i + 1;
        }
        if end > buf.len() as u64 || buf.len() as u64 - end < 4 {
            return Err(DictError::IoError(String::from_str("the data ends before the uncompressed length")));
        }
        let ufile_length = read_u32_le(&buf, end as usize) as u64;
        Ok(Compressed { buf, uchunk_length, end_compressed_data: end, chunk_offsets, ufile_length })
    }

    /// Number of compressed chunks.
    pub fn chunk_count(&self) -> (r: usize)
        ensures
            r == chunk_count(self.data()),
    {
        proof {
            use_type_invariant(self);
        }
        self.chunk_offsets.len()
    }

    /// Length of an uncompressed chunk.
    pub fn uchunk_length(&self) -> (r: usize)
        ensures
            r == uchunk_length(self.data()),
    {
        proof {
            use_type_invariant(self);
        }
        self.uchunk_length
    }

    /// Length of the uncompressed content, as the file records it.
    pub fn ufile_length(&self) -> (r: u64)
        ensures
            r == ufile_length(self.data()),
    {
        proof {
            use_type_invariant(self);
        }
        self.ufile_length
    }
}

proof fn lemma_joined_len(d: Seq<u8>, lo: int, hi: int)
    requires
        lo <= hi,
    ensures
        joined(d, lo, hi).len() == (hi - lo) * uchunk_length(d),
    decreases hi - lo,
{
    if lo < hi {
        lemma_joined_len(d, lo, hi - 1);
        assert(plain_bytes(d, hi - 1).len() == uchunk_length(d));
        assert(joined(d, lo, hi) == joined(d, lo, hi - 1) + plain_bytes(d, hi - 1));
        let u = uchunk_length(d) as int;
        assert((hi - 1 - lo) * u + u == (hi - lo) * u) by (nonlinear_arith);
    } else {
        assert((hi - lo) * uchunk_length(d) == 0) by (nonlinear_arith)
            requires
                hi == lo,
        ;
    }
}

proof fn lemma_joined_split(d: Seq<u8>, lo: int, mid: int, hi: int)
    requires
        lo <= mid <= hi,
    ensures
        joined(d, lo, hi) == joined(d, lo, mid) + joined(d, mid, hi),
    decreases hi - mid,
{
    if mid < hi {
        lemma_joined_split(d, lo, mid, hi - 1);
        assert(joined(d, lo, mid) + joined(d, mid, hi - 1) + plain_bytes(d, hi - 1) =~= joined(
            d,
            lo,
            mid,
        ) + (joined(d, mid, hi - 1) + plain_bytes(d, hi - 1)));
    } else {
        assert(joined(d, lo, mid) + joined(d, mid, hi) =~= joined(d, lo, hi));
    }
}

/// The chunk range of a fetch covers the requested bytes.
proof fn lemma_cover(offset: int, size: int, u: int)
    requires
        u > 0,
        offset >= 0,
        size > 0,
    ensures
        offset / u * u <= offset,
        offset - offset / u * u < u,
        offset / u < (offset + size - 1) / u + 1,
        offset - offset / u * u + size <= ((offset + size - 1) / u + 1 - offset / u) * u,
{
    vstd::arithmetic::div_mod::lemma_fundamental_div_mod(offset, u);
    vstd::arithmetic::div_mod::lemma_fundamental_div_mod(offset + size - 1, u);
    vstd::arithmetic::div_mod::lemma_div_is_ordered(offset, offset + size - 1, u);
    let a = offset / u;
    let b = (offset + size - 1) / u;
    assert(offset / u * u == u * a) by (nonlinear_arith)
        requires
            a == offset / u,
    ;
    assert((b + 1 - a) * u == u * b + u - u * a) by (nonlinear_arith);
}

/// Chunk `i` starts where chunk `i - 1` ends, and every chunk ends within the compressed data.
proof fn lemma_chunk_bounds(d: Seq<u8>, i: int)
    requires
        header_fault(d) is None,
        0 <= i < chunk_count(d),
    ensures
        chunk_start(d, i + 1) == chunk_start(d, i) + chunk_size(d, i),
        header_end(d) <= chunk_start(d, i),
        chunk_start(d, i + 1) <= compressed_end(d),
        compressed_end(d) + 4 <= d.len(),
{
    lemma_sizes_before_mono(d, 0, i);
    lemma_sizes_before_mono(d, i + 1, chunk_count(d) as int);
}

impl Compressed {
    /// The bytes `[offset, offset + size)` of the uncompressed content.
    ///
    /// Fails with `MemoryError` for a size above `MAX_BYTES_FOR_BUFFER`, with `IoError` for a
    /// range that ends past the recorded uncompressed length or past the last chunk, and with
    /// `Deflate` where a chunk that covers the range does not inflate. Only those chunks are
    /// inflated.
    pub fn fetch_bytes(&self, location: Location) -> (r: Result<Vec<u8>, DictError>)
        ensures
            bytes_outcome(dz_fetch(self.data(), location), r),
    {
        proof {
            use_type_invariant(self);
        }
        let ghost d = self.buf@;
        let size = location.size;
        let offset = location.offset;
        if size > MAX_BYTES_FOR_BUFFER {
            return Err(DictError::MemoryError);
        }
        if size > self.ufile_length || offset > self.ufile_length - size {
            return Err(DictError::IoError(String::from_str("a seek beyond the end of the uncompressed data was requested")));
        }
        if size == 0 {
            return Ok(Vec::new());
        }
        if self.uchunk_length == 0 {
            return Err(DictError::IoError(String::from_str("the chunks of this file hold no data")));
        }
        let u = self.uchunk_length as u64;
        let first = offset / u;
        let stop = (offset + size - 1) / u + 1;
        if stop > self.chunk_offsets.len() as u64 {
            return Err(DictError::IoError(String::from_str("a seek beyond the end of the compressed data was requested")));
        }
        proof {
            lemma_cover(offset as int, size as int, u as int);
        }
        let mut joined_bytes: Vec<u8> = Vec::new();
        let mut id: usize = first as usize;
        while id < stop as usize
            invariant
                d == self.buf@,
                header_fault(d) is None,
                self.uchunk_length == uchunk_length(d),
                self.chunk_offsets@.len() == chunk_count(d),
                forall|i: int|
                    0 <= i < chunk_count(d) ==> #[trigger] self.chunk_offsets@[i] == chunk_start(d, i),
                self.end_compressed_data == compressed_end(d),
                first <= id <= stop <= chunk_count(d),
                u == uchunk_length(d),
                u > 0,
                size == location.size,
                offset == location.offset,
                0 < size <= MAX_BYTES_FOR_BUFFER,
                offset + size <= ufile_length(d),
                first == offset as int / u as int,
                stop == (offset + size - 1) as int / u as int + 1,
                joined_bytes@ == joined(d, first as int, id as int),
                chunks_inflate(d, first as int, id as int),
            decreases stop - id,
        {
            proof {
                lemma_chunk_bounds(d, id as int);
            }
            let start = self.chunk_offsets[id];
            let end = if id + 1 < self.chunk_offsets.len() {
                self.chunk_offsets[id + 1]
            } else {
                self.end_compressed_data
            };
            assert(start == chunk_start(d, id as int));
            assert(end == chunk_start(d, id + 1));
            let n = self.buf.len();
            assert(end <= n);
            match inflate(&self.buf, start as usize, end as usize, self.uchunk_length) {
                Ok(v) => {
                    let mut v = v;
                    proof {
                        assert(v@ =~= plain_bytes(d, id as int));
                    }
                    joined_bytes.append(&mut v);
                },
                Err(e) => {
                    assert(plain_chunk(d, id as int) is None);
                    assert(!chunks_inflate(d, first as int, stop as int));
                    return Err(DictError::Deflate(e));
                },
            }
            id = id + 1;
        }
        proof {
            lemma_joined_len(d, first as int, stop as int);
        }
        let cut = (offset - first * u) as usize;
        Ok(copy_range(&joined_bytes, cut, cut + size as usize))
    }

    /// The definition at `location`, as text: the bytes that `fetch_bytes` gives, which must
    /// be valid UTF-8.
    pub fn fetch_definition(&self, location: Location) -> (r: Result<String, DictError>)
        ensures
            text_outcome(dz_fetch(self.data(), location), r),
    {
        bytes_to_text(self.fetch_bytes(location), Ghost(dz_fetch(self.data(), location)))
    }
}

/// Fetching from a dictzip file gives the same bytes as inflating the whole file and cutting
/// out the range, wherever the range falls: within one chunk, across chunk boundaries, or
/// ending exactly on one.
pub proof fn lemma_fetch_is_slice_of_content(d: Seq<u8>, offset: u64, size: u64)
    requires
        header_fault(d) is None,
        chunks_inflate(d, 0, chunk_count(d) as int),
        size <= MAX_BYTES_FOR_BUFFER,
        offset + size <= ufile_length(d),
        offset + size <= content(d).len(),
    ensures
        dz_fetch(d, Location { offset, size }) == Ok::<Seq<u8>, Fault>(
            content(d).subrange(offset as int, offset + size),
        ),
{
    let u = uchunk_length(d) as int;
    let c = chunk_count(d) as int;
    lemma_joined_len(d, 0, c);
    if size == 0 {
        assert(content(d).subrange(offset as int, offset as int) =~= seq![]);
    } else {
        assert(u > 0) by {
            if u == 0 {
                assert(c * u == 0) by (nonlinear_arith)
                    requires
                        u == 0,
                ;
            }
        }
        lemma_cover(offset as int, size as int, u);
        let first = offset as int / u;
        let stop = (offset + size - 1) / u + 1;
        assert(stop <= c) by {
            assert(offset + size - 1 < c * u);
            vstd::arithmetic::div_mod::lemma_div_is_ordered(offset + size - 1, c * u - 1, u);
            vstd::arithmetic::div_mod::lemma_fundamental_div_mod(c * u - 1, u);
            assert((c * u - 1) / u < c) by {
                vstd::arithmetic::div_mod::lemma_div_by_multiple(c, u);
                vstd::arithmetic::div_mod::lemma_div_is_ordered(c * u - 1, c * u, u);
                if (c * u - 1) / u == c {
                    vstd::arithmetic::div_mod::lemma_fundamental_div_mod(c * u - 1, u);
                    assert(u * c + (c * u - 1) % u == c * u - 1);
                    assert(u * c == c * u) by (nonlinear_arith);
                }
            }
        }
        lemma_joined_split(d, 0, first, c);
        lemma_joined_split(d, first, stop, c);
        lemma_joined_len(d, 0, first);
        lemma_joined_len(d, first, stop);
        let a = joined(d, 0, first);
        let b = joined(d, first, stop);
        let cc = joined(d, stop, c);
        let cut = offset - first * u;
        assert(a.len() == first * u) by (nonlinear_arith)
            requires
                a.len() == (first - 0) * u,
        ;
        assert(content(d) == a + (b + cc));
        assert(content(d).subrange(offset as int, offset + size) =~= b.subrange(cut, cut + size));
    }
}

/// Every definition that a fetch hands out has the size that was asked for, which is at most
/// `MAX_BYTES_FOR_BUFFER`, and lies within the recorded uncompressed length; any other request
/// fails before a chunk is inflated.
pub proof fn lemma_fetch_within_bounds(d: Seq<u8>, loc: Location)
    requires
        header_fault(d) is None,
    ensures
        dz_fetch(d, loc) matches Ok(b) ==> b.len() == loc.size && loc.size <= MAX_BYTES_FOR_BUFFER
            && loc.offset + loc.size <= ufile_length(d),
        loc.size > MAX_BYTES_FOR_BUFFER ==> dz_fetch(d, loc) == Err::<Seq<u8>, Fault>(Fault::TooLarge),
        loc.size <= MAX_BYTES_FOR_BUFFER && loc.offset + loc.size > ufile_length(d) ==> dz_fetch(d, loc)
            == Err::<Seq<u8>, Fault>(Fault::OutOfRange),
{
    if loc.size > 0 && loc.size <= MAX_BYTES_FOR_BUFFER && loc.offset + loc.size <= ufile_length(d)
        && uchunk_length(d) > 0 {
        let u = uchunk_length(d) as int;
        lemma_cover(loc.offset as int, loc.size as int, u);
        let first = loc.offset as int / u;
        let stop = (loc.offset + loc.size - 1) / u + 1;
        if first <= stop {
            lemma_joined_len(d, first, stop);
        }
    }
}

} // verus!

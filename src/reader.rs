//! What the two content readers share: the size limit, little-endian integers and the
//! conversion of definitions to text.
use vstd::prelude::*;
use vstd::utf8::{decode_utf8, valid_utf8};

verus! {

/// Largest definition, in bytes, that a reader hands out. A longer one is refused before
/// anything is allocated, so that a malformed index cannot ask for too much memory.
pub const MAX_BYTES_FOR_BUFFER: u64 = 1_048_576;

/// The little-endian 16-bit number at `d[i..i + 2]`.
pub open spec fn le16(d: Seq<u8>, i: int) -> nat {
    (d[i] + 256 * d[i + 1]) as nat
}

/// The little-endian 32-bit number at `d[i..i + 4]`.
pub open spec fn le32(d: Seq<u8>, i: int) -> nat {
    (d[i] + 256 * d[i + 1] + 65536 * d[i + 2] + 16777216 * d[i + 3]) as nat
}

pub fn read_u16_le(d: &Vec<u8>, i: usize) -> (r: u16)
    requires
        i + 2 <= d.len(),
    ensures
        r == le16(d@, i as int),
{
    let b0 = d[i] as u16;
    let b1 = d[i + 1] as u16;
    b0 + 256 * b1
}

pub fn read_u32_le(d: &Vec<u8>, i: usize) -> (r: u32)
    requires
        i + 4 <= d.len(),
    ensures
        r == le32(d@, i as int),
{
    let b0 = d[i] as u32;
    let b1 = d[i + 1] as u32;
    let b2 = d[i + 2] as u32;
    let b3 = d[i + 3] as u32;
    b0 + 256 * b1 + 65536 * b2 + 16777216 * b3
}

/// `d[lo..hi]` as a vector of its own.
pub fn copy_range(d: &Vec<u8>, lo: usize, hi: usize) -> (r: Vec<u8>)
    requires
        lo <= hi <= d@.len(),
    ensures
        r@ == d@.subrange(lo as int, hi as int),
{
    let mut r: Vec<u8> = Vec::new();
    let mut i: usize = lo;
    while i < hi
        invariant
            lo <= i <= hi <= d@.len(),
            r@ == d@.subrange(lo as int, i as int),
        decreases hi - i,
    {
        r.push(d[i]);
        assert(d@.subrange(lo as int, i + 1) =~= d@.subrange(lo as int, i as int).push(d@[i as int]));
        i = i + 1;
    }
    r
}

/// Relies on `String::from_utf8`: the text that valid UTF-8 encodes, and an error otherwise.
#[verifier::external_body]
pub(crate) fn utf8_to_string(bytes: Vec<u8>) -> (r: Result<String, std::string::FromUtf8Error>)
    ensures
        r is Ok <==> valid_utf8(bytes@),
        r matches Ok(s) ==> s@ == decode_utf8(bytes@),
{
    String::from_utf8(bytes)
}

/// Why a fetch of definition bytes fails.
pub enum Fault {
    /// The definition is larger than `MAX_BYTES_FOR_BUFFER`.
    TooLarge,
    /// The definition reaches past the end of the content.
    OutOfRange,
    /// A chunk that the definition needs does not inflate.
    BadChunk,
}

/// `r` is the outcome that `expected` describes, for a fetch of bytes.
pub open spec fn bytes_outcome(expected: Result<Seq<u8>, Fault>, r: Result<Vec<u8>, crate::DictError>) -> bool {
    match expected {
        Ok(b) => r matches Ok(v) && v@ == b,
        Err(Fault::TooLarge) => r matches Err(crate::DictError::MemoryError),
        Err(Fault::OutOfRange) => r matches Err(crate::DictError::IoError(_)),
        Err(Fault::BadChunk) => r matches Err(crate::DictError::Deflate(_)),
    }
}

/// `r` is the outcome that `expected` describes, for a fetch of text: the bytes must also be
/// valid UTF-8.
pub open spec fn text_outcome(expected: Result<Seq<u8>, Fault>, r: Result<String, crate::DictError>) -> bool {
    match expected {
        Ok(b) => if valid_utf8(b) {
            r matches Ok(s) && s@ == decode_utf8(b)
        } else {
            r matches Err(crate::DictError::Utf8Error(_))
        },
        Err(Fault::TooLarge) => r matches Err(crate::DictError::MemoryError),
        Err(Fault::OutOfRange) => r matches Err(crate::DictError::IoError(_)),
        Err(Fault::BadChunk) => r matches Err(crate::DictError::Deflate(_)),
    }
}

/// The text of fetched bytes, as `text_outcome` describes it.
pub(crate) fn bytes_to_text(r: Result<Vec<u8>, crate::DictError>, Ghost(expected): Ghost<Result<Seq<u8>, Fault>>) -> (t: Result<String, crate::DictError>)
    requires
        bytes_outcome(expected, r),
    ensures
        text_outcome(expected, t),
{
    match r {
        Ok(v) => match utf8_to_string(v) {
            Ok(s) => Ok(s),
            Err(e) => Err(crate::DictError::Utf8Error(e)),
        },
        Err(e) => Err(e),
    }
}

} // verus!

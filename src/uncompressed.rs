//! Reader for uncompressed content (`.dict`).
use vstd::prelude::*;

use crate::error::DictError;
use crate::index::Location;
use crate::reader::{
    bytes_outcome, bytes_to_text, copy_range, text_outcome, Fault, MAX_BYTES_FOR_BUFFER,
};

verus! {

/// What a fetch of `loc` from the uncompressed content `d` gives.
pub open spec fn raw_fetch(d: Seq<u8>, loc: Location) -> Result<Seq<u8>, Fault> {
    if loc.size > MAX_BYTES_FOR_BUFFER {
        Err(Fault::TooLarge)
    } else if loc.offset + loc.size > d.len() {
        Err(Fault::OutOfRange)
    } else {
        Ok(d.subrange(loc.offset as int, loc.offset + loc.size))
    }
}

/// Reader for uncompressed content, held in memory.
pub struct Uncompressed {
    reader: Vec<u8>,
    length: u64,
}

impl Uncompressed {
    /// The content.
    pub closed spec fn data(&self) -> Seq<u8> {
        self.reader@
    }

    #[verifier::type_invariant]
    spec fn wf(&self) -> bool {
        self.length == self.reader@.len()
    }

    /// A reader over `reader`, the whole content.
    pub fn new(reader: Vec<u8>) -> (r: Result<Self, DictError>)
        ensures
            r matches Ok(u) && u.data() == reader@,
    {
        let length = reader.len() as u64;
        Ok(Self { reader, length })
    }

    /// Length of the content.
    pub fn len(&self) -> (r: u64)
        ensures
            r == self.data().len(),
    {
        proof {
            use_type_invariant(self);
        }
        self.length
    }

    /// The bytes `[offset, offset + size)` of the content. Fails with `MemoryError` for a
    /// size above `MAX_BYTES_FOR_BUFFER` and with `IoError` for a range past the end.
    pub fn fetch_bytes(&self, location: Location) -> (r: Result<Vec<u8>, DictError>)
        ensures
            bytes_outcome(raw_fetch(self.data(), location), r),
    {
        if location.size > MAX_BYTES_FOR_BUFFER {
            return Err(DictError::MemoryError);
        }
        let n = self.reader.len() as u64;
        if location.size > n || location.offset > n - location.size {
            return Err(DictError::IoError(String::from_str("a seek beyond the end of the data was requested")));
        }
        let lo = location.offset as usize;
        Ok(copy_range(&self.reader, lo, lo + location.size as usize))
    }

    /// The definition at `location`, as text: the bytes that `fetch_bytes` gives, which must
    /// be valid UTF-8.
    pub fn fetch_definition(&self, location: Location) -> (r: Result<String, DictError>)
        ensures
            text_outcome(raw_fetch(self.data(), location), r),
    {
        bytes_to_text(self.fetch_bytes(location), Ghost(raw_fetch(self.data(), location)))
    }
}

/// Every definition that a fetch hands out has the size that was asked for, at most
/// `MAX_BYTES_FOR_BUFFER`, and lies within the content; any other request fails.
pub proof fn lemma_raw_fetch_within_bounds(d: Seq<u8>, loc: Location)
    ensures
        raw_fetch(d, loc) matches Ok(b) ==> b.len() == loc.size && loc.size <= MAX_BYTES_FOR_BUFFER
            && loc.offset + loc.size <= d.len(),
        loc.size > MAX_BYTES_FOR_BUFFER ==> raw_fetch(d, loc) == Err::<Seq<u8>, Fault>(Fault::TooLarge),
        loc.size <= MAX_BYTES_FOR_BUFFER && loc.offset + loc.size > d.len() ==> raw_fetch(d, loc)
            == Err::<Seq<u8>, Fault>(Fault::OutOfRange),
{
}

} // verus!

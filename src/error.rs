use vstd::prelude::*;

use crate::index::IndexError;

verus! {

#[verifier::external_type_specification]
#[verifier::external_body]
pub struct ExDecompressError(flate2::DecompressError);

#[verifier::external_type_specification]
#[verifier::external_body]
pub struct ExFromUtf8Error(std::string::FromUtf8Error);

/// What can go wrong when reading a dictionary.
#[derive(Debug)]
pub enum DictError {
    /// The content file is not in the expected format; the text says which check failed.
    InvalidFileFormat(String),
    /// A definition larger than `MAX_BYTES_FOR_BUFFER` was requested.
    MemoryError,
    /// Reading past the end of the data, or a failure of the file system.
    IoError(String),
    /// A definition that is not valid UTF-8.
    Utf8Error(std::string::FromUtf8Error),
    /// A compressed chunk that does not inflate.
    Deflate(flate2::DecompressError),
    /// An error of the index.
    IndexError(IndexError),
}

impl DictError {
    /// A short description of the error.
    pub fn description(&self) -> (r: String)
        ensures
            r@ == match self {
                DictError::InvalidFileFormat(_) => "could not determine file format"@,
                DictError::MemoryError => "not enough memory available"@,
                DictError::IoError(_) => "input/output error"@,
                DictError::Utf8Error(_) => "definition is not valid UTF-8"@,
                DictError::Deflate(_) => "a compressed chunk could not be inflated"@,
                DictError::IndexError(e) => match e {
                    IndexError::NoMetadataFound => "no metadata found in index file"@,
                    IndexError::WordNotFound(_) => "word not found in the dictionary"@,
                    IndexError::InvalidCharacter(_, _, _) => "invalid character"@,
                    IndexError::MissingColumnInIndex(_) => "not enough <tab>-separated columns given"@,
                    IndexError::NumberTooLarge(_, _) => "number too large for 64 bits"@,
                },
            },
    {
        match self {
            DictError::InvalidFileFormat(_) => String::from_str("could not determine file format"),
            DictError::MemoryError => String::from_str("not enough memory available"),
            DictError::IoError(_) => String::from_str("input/output error"),
            DictError::Utf8Error(_) => String::from_str("definition is not valid UTF-8"),
            DictError::Deflate(_) => String::from_str("a compressed chunk could not be inflated"),
            DictError::IndexError(e) => match e {
                IndexError::NoMetadataFound => String::from_str("no metadata found in index file"),
                IndexError::WordNotFound(_) => String::from_str("word not found in the dictionary"),
                IndexError::InvalidCharacter(_, _, _) => String::from_str("invalid character"),
                IndexError::MissingColumnInIndex(_) => String::from_str("not enough <tab>-separated columns given"),
                IndexError::NumberTooLarge(_, _) => String::from_str("number too large for 64 bits"),
            },
        }
    }
}

} // verus!

use vstd::prelude::*;

use super::Location;

verus! {

/// The metadata of a dictionary, read from its special `00-database-*` entries.
#[derive(Debug, Default)]
pub struct Metadata {
    /// The long description, from `00-database-info`.
    pub info: Option<String>,
    /// The short name, from `00-database-short`.
    pub short_name: Option<String>,
    /// Where the dictionary comes from, from `00-database-url`.
    pub url: Option<String>,
    /// Keep punctuation when normalizing (`00-database-allchars` is present).
    pub all_chars: bool,
    /// Keep case when normalizing (`00-database-case-sensitive` is present).
    pub case_sensitive: bool,
    /// Normalize the headwords of the index (a `00-database-dictfmt-*` entry is present).
    pub should_normalize: bool,
}

/// The locations of the textual metadata entries and the metadata flags, as read from the
/// index before the content file is consulted.
#[derive(Debug, Default, Clone, Copy, PartialEq, Eq, Structural)]
pub struct MetadataIndex {
    /// Read from `00-database-info`.
    pub info: Option<Location>,
    /// Read from `00-database-short`.
    pub short_name: Option<Location>,
    /// Read from `00-database-url`.
    pub url: Option<Location>,
    /// `00-database-allchars` is present.
    pub all_chars: bool,
    /// An entry whose name holds `case` is present.
    pub case_sensitive: bool,
    /// An entry whose name holds `dictfmt` is present.
    pub should_normalize: bool,
}

} // verus!

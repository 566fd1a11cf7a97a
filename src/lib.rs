//! Random-access reader for DICT-format dictionaries.
//!
//! A dictionary is a `.index` file, listing every headword with the position and length of its
//! definition, and a content file holding the definitions, either plain or compressed with
//! dictzip. This crate works on the contents of those files held in memory.
use vstd::prelude::*;

pub mod compressed;
mod error;
pub mod index;
pub mod indexing;
pub mod reader;
pub mod text;
pub mod uncompressed;

pub use compressed::Compressed;
pub use error::DictError;
pub use index::{Entry, EntryView, Index, IndexError, Location, Metadata, MetadataIndex};
pub use reader::MAX_BYTES_FOR_BUFFER;
pub use uncompressed::Uncompressed;

use vstd::utf8::{decode_utf8, valid_utf8};

use index::{found_ok, index_metadata, not_found_ok, prepared_entries, query_key, run_len};
use reader::{text_outcome, Fault};
use text::{chars_of, string_of, trim, trimmed};

verus! {

/// Reads a definition: the capability that both content readers offer.
pub trait DictReader {
    /// Reads the bytes `[offset, offset + size)` of the uncompressed content and returns
    /// them as text.
    fn fetch_definition(&mut self, location: Location) -> Result<String, DictError>;
}

impl DictReader for Compressed {
    fn fetch_definition(&mut self, location: Location) -> Result<String, DictError> {
        Compressed::fetch_definition(self, location)
    }
}

impl DictReader for Uncompressed {
    fn fetch_definition(&mut self, location: Location) -> Result<String, DictError> {
        Uncompressed::fetch_definition(self, location)
    }
}

/// The content file of a dictionary, plain or compressed with dictzip.
pub enum Content {
    Raw(Uncompressed),
    Dz(Compressed),
}

/// The data starts with the gzip magic bytes.
pub open spec fn gzip_magic(data: Seq<u8>) -> bool {
    data.len() >= 2 && data[0] == 0x1F && data[1] == 0x8B
}

/// What a fetch of `loc` from the content file `data` gives, read as dictzip (`dz`) or plain.
pub open spec fn content_fetch(data: Seq<u8>, dz: bool, loc: Location) -> Result<Seq<u8>, Fault> {
    if dz {
        compressed::dz_fetch(data, loc)
    } else {
        uncompressed::raw_fetch(data, loc)
    }
}

/// Why the content file `data` cannot be read, if it cannot: a dictzip header fault, where
/// the data starts with the gzip magic.
pub open spec fn content_fault(data: Seq<u8>) -> Option<compressed::HeaderFault> {
    if gzip_magic(data) {
        compressed::header_fault(data)
    } else {
        None
    }
}

impl Content {
    /// The content file.
    pub open spec fn data(&self) -> Seq<u8> {
        match self {
            Content::Raw(u) => u.data(),
            Content::Dz(c) => c.data(),
        }
    }

    /// The content is read as dictzip.
    pub open spec fn is_dz(&self) -> bool {
        self is Dz
    }

    /// What a fetch of `loc` gives.
    pub open spec fn fetch_spec(&self, loc: Location) -> Result<Seq<u8>, Fault> {
        content_fetch(self.data(), self.is_dz(), loc)
    }

    /// A reader for the content file `data`, chosen by its first bytes: dictzip where they
    /// are the gzip magic, plain otherwise.
    pub fn from_bytes(data: Vec<u8>) -> (r: Result<Self, DictError>)
        ensures
            gzip_magic(data@) ==> match compressed::header_fault(data@) {
                None => (r matches Ok(Content::Dz(c)) && c.data() == data@),
                Some(compressed::HeaderFault::Truncated) => r matches Err(DictError::IoError(_)),
                Some(compressed::HeaderFault::Malformed) => r matches Err(
                    DictError::InvalidFileFormat(_),
                ),
            },
            !gzip_magic(data@) ==> (r matches Ok(Content::Raw(u)) && u.data() == data@),
    {
        if data.len() >= 2 && data[0] == 0x1F && data[1] == 0x8B {
            match Compressed::new(data) {
                Ok(c) => Ok(Content::Dz(c)),
                Err(e) => Err(e),
            }
        } else {
            match Uncompressed::new(data) {
                Ok(u) => Ok(Content::Raw(u)),
                Err(e) => Err(e),
            }
        }
    }

    /// The definition at `location`, as text.
    pub fn fetch_definition(&self, location: Location) -> (r: Result<String, DictError>)
        ensures
            text_outcome(self.fetch_spec(location), r),
    {
        match self {
            Content::Raw(u) => u.fetch_definition(location),
            Content::Dz(c) => c.fetch_definition(location),
        }
    }
}

impl DictReader for Content {
    fn fetch_definition(&mut self, location: Location) -> Result<String, DictError> {
        Content::fetch_definition(self, location)
    }
}

/// The text that a fetch of `loc` gives, or `None` where it fails.
pub open spec fn fetched_text(c: Content, loc: Location) -> Option<Seq<char>> {
    text_at(c.data(), c.is_dz(), loc)
}

/// The text at `loc` of the content file `data`, read as dictzip (`dz`) or plain, or `None`
/// where the fetch fails or the bytes are not UTF-8.
pub open spec fn text_at(data: Seq<u8>, dz: bool, loc: Location) -> Option<Seq<char>> {
    match content_fetch(data, dz, loc) {
        Ok(b) => if valid_utf8(b) {
            Some(decode_utf8(b))
        } else {
            None
        },
        Err(_) => None,
    }
}

/// A metadata definition as it is kept: without its first line where a line feed ends it
/// and more follows (dictionaries tend to repeat the headword there), and trimmed.
pub open spec fn metadata_text(s: Seq<char>) -> Seq<char> {
    let k = run_len(s, 0, '\n') as int;
    if k + 1 < s.len() {
        trim(s.subrange(k, s.len() as int))
    } else {
        trim(s)
    }
}

/// A metadata definition as `metadata_text` describes it.
pub fn remap_metadata(def: String) -> (r: String)
    ensures
        r@ == metadata_text(def@),
{
    let chars = chars_of(def.as_str());
    let k = index::run_end(&chars, 0, '\n');
    let start = if k < chars.len() && chars.len() - k > 1 {
        k
    } else {
        0
    };
    let (b, e) = trimmed(&chars, start, chars.len());
    assert(chars@.subrange(0, chars@.len() as int) =~= chars@);
    string_of(&chars, b, e)
}

/// The text of the metadata entry at `loc`, if there is one, from the content file `data`:
/// `Some(None)` for no entry, `None` where the fetch fails.
pub open spec fn metadata_entry_text(data: Seq<u8>, dz: bool, loc: Option<Location>) -> Option<
    Option<Seq<char>>,
> {
    match loc {
        None => Some(None),
        Some(l) => match text_at(data, dz, l) {
            Some(t) => Some(Some(metadata_text(t))),
            None => None,
        },
    }
}

pub open spec fn opt_string_view(o: Option<String>) -> Option<Seq<char>> {
    match o {
        Some(s) => Some(s@),
        None => None,
    }
}

/// Fetches the text of a metadata entry, if there is one.
fn fetch_metadata_text(dict: &Content, loc: Option<Location>) -> (r: Result<Option<String>, DictError>)
    ensures
        match metadata_entry_text(dict.data(), dict.is_dz(), loc) {
            Some(t) => r matches Ok(o) && opt_string_view(o) == t,
            None => r is Err,
        },
{
    match loc {
        None => Ok(None),
        Some(l) => match dict.fetch_definition(l) {
            Ok(s) => Ok(Some(remap_metadata(s))),
            Err(e) => Err(e),
        },
    }
}

impl Index {
    /// Creates an index over `text` and reads its full metadata: the flags, and the info,
    /// short name and URL texts, fetched from `dict`.
    pub fn new_full(text: &str, dict: &Content) -> (r: Result<Self, DictError>)
        ensures
            match index_metadata(text@) {
                Err(e) => r matches Err(DictError::IndexError(e2)) && e2 == e,
                Ok(m) => {
                    &&& r is Ok <==> (metadata_entry_text(dict.data(), dict.is_dz(), m.info) is Some
                        && metadata_entry_text(dict.data(), dict.is_dz(), m.short_name) is Some
                        && metadata_entry_text(dict.data(), dict.is_dz(), m.url) is Some)
                    &&& r matches Ok(ix) ==> {
                        &&& !ix.is_loaded()
                        &&& ix.entries_view().len() == 0
                        &&& ix.text() == text@
                        &&& ix.flags().all_chars == m.all_chars
                        &&& ix.flags().case_sensitive == m.case_sensitive
                        &&& ix.flags().should_normalize == m.should_normalize
                        &&& Some(opt_string_view(ix.meta().info)) == metadata_entry_text(dict.data(), dict.is_dz(), m.info)
                        &&& Some(opt_string_view(ix.meta().short_name)) == metadata_entry_text(dict.data(), dict.is_dz(), m.short_name)
                        &&& Some(opt_string_view(ix.meta().url)) == metadata_entry_text(dict.data(), dict.is_dz(), m.url)
                    }
                },
            },
    {
        let m = match index::parse_metadata(text) {
            Ok(m) => m,
            Err(e) => return Err(DictError::IndexError(e)),
        };
        let info = match fetch_metadata_text(dict, m.info) {
            Ok(t) => t,
            Err(e) => return Err(e),
        };
        let short_name = match fetch_metadata_text(dict, m.short_name) {
            Ok(t) => t,
            Err(e) => return Err(e),
        };
        let url = match fetch_metadata_text(dict, m.url) {
            Ok(t) => t,
            Err(e) => return Err(e),
        };
        Ok(Index::with_metadata(text, &m, info, short_name, url))
    }
}

/// A headword and its definition, as a lookup gives them.
#[derive(Debug, PartialEq, Eq)]
pub struct LookupResult {
    pub headword: String,
    pub definition: String,
}

/// The headword that a lookup shows for an entry: as the index wrote it.
pub open spec fn shown_headword(e: EntryView) -> Seq<char> {
    match e.2 {
        Some(o) => o,
        None => e.0,
    }
}

/// Every entry of `found` can be fetched as text.
pub open spec fn all_fetched(c: Content, found: Seq<EntryView>) -> bool {
    forall|i: int| 0 <= i < found.len() ==> #[trigger] fetched_text(c, found[i].1) is Some
}

/// `v` holds, for each entry of `found` in order, its shown headword and its definition.
pub open spec fn results_for(c: Content, found: Seq<EntryView>, v: Seq<LookupResult>) -> bool {
    &&& v.len() == found.len()
    &&& forall|i: int|
        0 <= i < v.len() ==> (#[trigger] v[i]).headword@ == shown_headword(found[i])
            && fetched_text(c, found[i].1) == Some(v[i].definition@)
}

/// Two lookups whose queries normalize to the same key give the same headwords and
/// definitions: in a dictionary that folds case, `Bar` and `bar` look up alike.
pub proof fn lemma_lookups_agree(
    c: Content,
    es: Seq<EntryView>,
    m: MetadataIndex,
    w1: Seq<char>,
    w2: Seq<char>,
    fuzzy: bool,
    relaxed: bool,
    f1: Seq<EntryView>,
    f2: Seq<EntryView>,
    v1: Seq<LookupResult>,
    v2: Seq<LookupResult>,
)
    requires
        query_key(w1, m) == query_key(w2, m),
        found_ok(es, query_key(w1, m), fuzzy, relaxed, f1),
        found_ok(es, query_key(w2, m), fuzzy, relaxed, f2),
        results_for(c, f1, v1),
        results_for(c, f2, v2),
    ensures
        v1.len() == v2.len(),
        forall|i: int|
            0 <= i < v1.len() ==> (#[trigger] v1[i]).headword@ == v2[i].headword@
                && v1[i].definition@ == v2[i].definition@,
{
    index::lemma_same_query_same_entries(es, m, w1, w2, fuzzy, relaxed, f1, f2);
    assert forall|i: int| 0 <= i < v1.len() implies (#[trigger] v1[i]).headword@ == v2[i].headword@
        && v1[i].definition@ == v2[i].definition@ by {
        assert(fetched_text(c, f1[i].1) == Some(v1[i].definition@));
        assert(fetched_text(c, f2[i].1) == Some(v2[i].definition@));
    }
}

impl Content {
    /// The headword and definition of each of `entries`, in order; the first definition that
    /// cannot be fetched fails the whole.
    pub fn lookup_results(&self, entries: &Vec<Entry>) -> (r: Result<Vec<LookupResult>, DictError>)
        ensures
            r is Ok <==> all_fetched(*self, index::entry_views(entries@)),
            r matches Ok(v) ==> results_for(*self, index::entry_views(entries@), v@),
            r matches Err(e) ==> !(e is IndexError),
    {
        let ghost found = index::entry_views(entries@);
        let mut results: Vec<LookupResult> = Vec::new();
        let mut i: usize = 0;
        while i < entries.len()
            invariant
                0 <= i <= entries@.len(),
                found == index::entry_views(entries@),
                results_for(*self, found.subrange(0, i as int), results@),
                forall|j: int| 0 <= j < i ==> #[trigger] fetched_text(*self, found[j].1) is Some,
            decreases entries@.len() - i,
        {
            let e = &entries[i];
            let definition = match self.fetch_definition(e.location) {
                Ok(d) => d,
                Err(err) => {
                    assert(fetched_text(*self, found[i as int].1) is None);
                    assert(!(err is IndexError));
                    return Err(err);
                },
            };
            let headword = match &e.original {
                Some(o) => o.clone(),
                None => e.headword.clone(),
            };
            results.push(LookupResult { headword, definition });
            assert(found[i as int] == e@);
            assert(results_for(*self, found.subrange(0, i + 1), results@)) by {
                assert forall|j: int| 0 <= j < results@.len() implies (#[trigger] results@[j]).headword@
                    == shown_headword(found.subrange(0, i + 1)[j]) && fetched_text(
                    *self,
                    found.subrange(0, i + 1)[j].1,
                ) == Some(results@[j].definition@) by {
                    if j < i {
                        assert(found.subrange(0, i + 1)[j] == found.subrange(0, i as int)[j]);
                    }
                }
            }
            i = i + 1;
        }
        assert(found.subrange(0, i as int) =~= found);
        Ok(results)
    }
}

/// A dictionary: the index of its headwords and the content file with its definitions.
pub struct Dict {
    dict: Content,
    index: Index,
}

impl Dict {
    /// The content file.
    pub closed spec fn content(&self) -> Content {
        self.dict
    }

    /// The index.
    pub closed spec fn index(&self) -> Index {
        self.index
    }

    /// Creates a dictionary from the bytes of its content file and the text of its index.
    /// The content reader is chosen by the first bytes of the content: dictzip after the
    /// gzip magic, plain otherwise. The metadata texts are fetched at once.
    pub fn from_bytes(content: Vec<u8>, index: &str) -> (r: Result<Self, DictError>)
        ensures
            ({
                let dz = gzip_magic(content@);
                match content_fault(content@) {
                    Some(compressed::HeaderFault::Truncated) => r matches Err(DictError::IoError(_)),
                    Some(compressed::HeaderFault::Malformed) => r matches Err(
                        DictError::InvalidFileFormat(_),
                    ),
                    None => match index_metadata(index@) {
                        Err(e) => r matches Err(DictError::IndexError(e2)) && e2 == e,
                        Ok(m) => {
                            &&& r is Ok <==> (metadata_entry_text(content@, dz, m.info) is Some
                                && metadata_entry_text(content@, dz, m.short_name) is Some
                                && metadata_entry_text(content@, dz, m.url) is Some)
                            &&& r matches Ok(d) ==> {
                                &&& d.content().data() == content@
                                &&& d.content().is_dz() == dz
                                &&& d.index().text() == index@
                                &&& !d.index().is_loaded()
                                &&& d.index().entries_view().len() == 0
                                &&& d.index().flags().all_chars == m.all_chars
                                &&& d.index().flags().case_sensitive == m.case_sensitive
                                &&& d.index().flags().should_normalize == m.should_normalize
                                &&& Some(opt_string_view(d.index().meta().info))
                                    == metadata_entry_text(content@, dz, m.info)
                                &&& Some(opt_string_view(d.index().meta().short_name))
                                    == metadata_entry_text(content@, dz, m.short_name)
                                &&& Some(opt_string_view(d.index().meta().url))
                                    == metadata_entry_text(content@, dz, m.url)
                            }
                        },
                    },
                }
            }),
    {
        let dict = match Content::from_bytes(content) {
            Ok(c) => c,
            Err(e) => return Err(e),
        };
        let index = match Index::new_full(index, &dict) {
            Ok(ix) => ix,
            Err(e) => return Err(e),
        };
        Ok(Dict { dict, index })
    }

    /// Creates a dictionary from a content reader and an index.
    pub fn from_existing(dict: Content, index: Index) -> (r: Result<Self, DictError>)
        ensures
            r matches Ok(d) && d.content() == dict && d.index() == index,
    {
        Ok(Dict { dict, index })
    }

    /// Looks up `word`, exactly or fuzzily (up to one edit), relaxed (diacritics ignored) or
    /// not, and fetches the definitions of the entries found.
    ///
    /// Each result shows the headword as the index wrote it. A word that is not found gives
    /// `WordNotFound`; a definition that cannot be fetched fails the lookup.
    pub fn lookup(&mut self, word: &str, fuzzy: bool, relaxed: bool) -> (r: Result<
        Vec<LookupResult>,
        DictError,
    >)
        ensures
            final(self).content() == old(self).content(),
            final(self).index().text() == old(self).index().text(),
            final(self).index().flags() == old(self).index().flags(),
            !old(self).index().is_loaded() ==> match prepared_entries(
                old(self).index().text(),
                old(self).index().flags(),
            ) {
                Ok(es) => final(self).index().is_loaded() && final(self).index().entries_view() == es,
                Err(e) => r matches Err(DictError::IndexError(e2)) && e2 == e,
            },
            old(self).index().is_loaded() ==> final(self).index().is_loaded()
                && final(self).index().entries_view() == old(self).index().entries_view(),
            final(self).index().is_loaded() ==> ({
                let es = final(self).index().entries_view();
                let q = query_key(word@, old(self).index().flags());
                match r {
                    Ok(v) => exists|found: Seq<EntryView>|
                        found_ok(es, q, fuzzy, relaxed, found) && #[trigger] results_for(
                            final(self).content(),
                            found,
                            v@,
                        ),
                    Err(DictError::IndexError(IndexError::WordNotFound(w))) => w@ == q
                        && not_found_ok(es, q, fuzzy, relaxed),
                    Err(_) => exists|found: Seq<EntryView>|
                        found_ok(es, q, fuzzy, relaxed, found) && !#[trigger] all_fetched(
                            final(self).content(),
                            found,
                        ),
                }
            }),
    {
        let entries = match self.index.find(word, fuzzy, relaxed) {
            Ok(es) => es,
            Err(e) => return Err(DictError::IndexError(e)),
        };
        let r = self.dict.lookup_results(&entries);
        proof {
            let found = index::entry_views(entries@);
            if r is Ok {
                assert(results_for(self.content(), found, r->Ok_0@));
            } else {
                assert(!all_fetched(self.content(), found));
            }
        }
        r
    }

    /// The metadata of the dictionary.
    pub fn metadata(&self) -> (r: &Metadata)
        ensures
            *r == self.index().meta(),
    {
        self.index.metadata()
    }
}

} // verus!

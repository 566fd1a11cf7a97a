//! Parsing of `.index` files: one entry per line, `headword \t offset \t size [\t original]`.
use vstd::prelude::*;

use super::{entry_views, Entry, EntryView, IndexError, Location, MetadataIndex};
use crate::indexing::{decode_field, field_value};
use crate::text::{
    chars_of, has_infix, has_prefix, slice_equals, slice_has_infix, slice_has_prefix, string_of,
    trim_end, trimmed_end,
};

verus! {

/// Number of characters from `i` on before the next `sep` or the end of `t`.
pub open spec fn run_len(t: Seq<char>, i: int, sep: char) -> nat
    decreases t.len() - i,
{
    if i < 0 || i >= t.len() || t[i] == sep {
        0
    } else {
        1 + run_len(t, i + 1, sep)
    }
}

/// The lines of `t` from position `i` on, without their line feeds. A final line feed does
/// not start another line.
pub open spec fn lines_from(t: Seq<char>, i: int) -> Seq<Seq<char>>
    decreases t.len() - i,
{
    if i < 0 || i >= t.len() {
        seq![]
    } else {
        let e = i + run_len(t, i, '\n');
        if e >= t.len() {
            seq![t.subrange(i, e)]
        } else {
            seq![t.subrange(i, e)] + lines_from(t, e + 1)
        }
    }
}

/// The lines of `t`.
pub open spec fn lines(t: Seq<char>) -> Seq<Seq<char>> {
    lines_from(t, 0)
}

/// The entry that line `l`, numbered `n`, describes, or the error it holds. The columns are
/// taken in order: a missing offset column, a bad offset, a missing size column, a bad size.
pub open spec fn line_entry(l: Seq<char>, n: usize) -> Result<EntryView, IndexError> {
    let e0 = run_len(l, 0, '\t') as int;
    if e0 >= l.len() {
        Err(IndexError::MissingColumnInIndex(n))
    } else {
        let s1 = e0 + 1;
        let e1 = s1 + run_len(l, s1, '\t');
        match field_value(l, s1, e1, n) {
            Err(e) => Err(e),
            Ok(offset) => if e1 >= l.len() {
                Err(IndexError::MissingColumnInIndex(n))
            } else {
                let s2 = e1 + 1;
                let e2 = s2 + run_len(l, s2, '\t');
                match field_value(l, s2, e2, n) {
                    Err(e) => Err(e),
                    Ok(size) => Ok(
                        (
                            l.subrange(0, e0),
                            Location { offset, size },
                            if e2 < l.len() {
                                Some(l.subrange(e2 + 1, e2 + 1 + run_len(l, e2 + 1, '\t')))
                            } else {
                                None
                            },
                        ),
                    ),
                }
            },
        }
    }
}

/// `acc` followed by what `r` holds, or the error of `r`.
pub open spec fn prepend(acc: Seq<EntryView>, r: Result<Seq<EntryView>, IndexError>) -> Result<
    Seq<EntryView>,
    IndexError,
> {
    match r {
        Ok(s) => Ok(acc + s),
        Err(e) => Err(e),
    }
}

/// The entries of the lines `ls`, the first numbered `n`, skipping those whose headword
/// starts with `00`; or the error of the first line that does not parse.
pub open spec fn entries_of_lines(ls: Seq<Seq<char>>, n: int) -> Result<Seq<EntryView>, IndexError>
    decreases ls.len(),
{
    if ls.len() == 0 {
        Ok(seq![])
    } else {
        match line_entry(trim_end(ls[0]), n as usize) {
            Err(e) => Err(e),
            Ok(en) => prepend(
                if has_prefix(en.0, "00"@) {
                    seq![]
                } else {
                    seq![en]
                },
                entries_of_lines(ls.drop_first(), n + 1),
            ),
        }
    }
}

/// The entries of the index text `t`, metadata entries left out, in file order.
pub open spec fn index_entries(t: Seq<char>) -> Result<Seq<EntryView>, IndexError> {
    entries_of_lines(lines(t), 0)
}

/// A result of entries, as views.
pub open spec fn result_views(r: Result<Vec<Entry>, IndexError>) -> Result<Seq<EntryView>, IndexError> {
    match r {
        Ok(v) => Ok(entry_views(v@)),
        Err(e) => Err(e),
    }
}

/// The end of the run that starts at `i` and stops before `sep` or the end.
pub(crate) fn run_end(t: &Vec<char>, i: usize, sep: char) -> (e: usize)
    requires
        i <= t@.len(),
    ensures
        e == i + run_len(t@, i as int, sep),
        e <= t@.len(),
        e < t@.len() ==> t@[e as int] == sep,
{
    let mut e: usize = i;
    while e < t.len() && t[e] != sep
        invariant
            i <= e <= t@.len(),
            i + run_len(t@, i as int, sep) == e + run_len(t@, e as int, sep),
        decreases t@.len() - e,
    {
        e = e + 1;
    }
    e
}

/// `t[lo..hi]` as a vector of its own.
pub(crate) fn sub_vec(t: &Vec<char>, lo: usize, hi: usize) -> (r: Vec<char>)
    requires
        lo <= hi <= t@.len(),
    ensures
        r@ == t@.subrange(lo as int, hi as int),
{
    let mut r: Vec<char> = Vec::new();
    let mut i: usize = lo;
    while i < hi
        invariant
            lo <= i <= hi <= t@.len(),
            r@ == t@.subrange(lo as int, i as int),
        decreases hi - i,
    {
        r.push(t[i]);
        assert(t@.subrange(lo as int, i + 1) =~= t@.subrange(lo as int, i as int).push(t@[i as int]));
        i = i + 1;
    }
    r
}

/// Parses one line of an index, numbered `n`.
pub(crate) fn parse_line(l: &Vec<char>, n: usize) -> (r: Result<Entry, IndexError>)
    ensures
        match r {
            Ok(e) => line_entry(l@, n) == Ok::<EntryView, IndexError>(e@),
            Err(e) => line_entry(l@, n) == Err::<EntryView, IndexError>(e),
        },
{
    let e0 = run_end(l, 0, '\t');
    if e0 >= l.len() {
        return Err(IndexError::MissingColumnInIndex(n));
    }
    let e1 = run_end(l, e0 + 1, '\t');
    let offset = match decode_field(l, e0 + 1, e1, n) {
        Ok(v) => v,
        Err(e) => return Err(e),
    };
    if e1 >= l.len() {
        return Err(IndexError::MissingColumnInIndex(n));
    }
    let e2 = run_end(l, e1 + 1, '\t');
    let size = match decode_field(l, e1 + 1, e2, n) {
        Ok(v) => v,
        Err(e) => return Err(e),
    };
    let original = if e2 < l.len() {
        let e3 = run_end(l, e2 + 1, '\t');
        Some(string_of(l, e2 + 1, e3))
    } else {
        None
    };
    Ok(Entry { headword: string_of(l, 0, e0), location: Location { offset, size }, original })
}

/// The part of a metadata headword after `00-database-` or `00database`, or `None` for an
/// ordinary headword.
pub open spec fn metadata_tail(h: Seq<char>) -> Option<Seq<char>> {
    if has_prefix(h, "00-database-"@) {
        Some(h.subrange("00-database-"@.len() as int, h.len() as int))
    } else if has_prefix(h, "00database"@) {
        Some(h.subrange("00database"@.len() as int, h.len() as int))
    } else {
        None
    }
}

/// `m` updated by the metadata entry named `tail`, located at `loc`.
pub open spec fn classify(m: MetadataIndex, tail: Seq<char>, loc: Location) -> MetadataIndex {
    if tail == "info"@ {
        MetadataIndex { info: Some(loc), ..m }
    } else if tail == "short"@ {
        MetadataIndex { short_name: Some(loc), ..m }
    } else if tail == "url"@ {
        MetadataIndex { url: Some(loc), ..m }
    } else if tail == "allchars"@ {
        MetadataIndex { all_chars: true, ..m }
    } else if has_infix(tail, "case"@) {
        MetadataIndex { case_sensitive: true, ..m }
    } else if has_infix(tail, "dictfmt"@) {
        MetadataIndex { should_normalize: true, ..m }
    } else {
        m
    }
}

/// No metadata at all.
pub open spec fn no_metadata() -> MetadataIndex {
    MetadataIndex {
        info: None,
        short_name: None,
        url: None,
        all_chars: false,
        case_sensitive: false,
        should_normalize: false,
    }
}

/// The metadata read from the lines `ls`, the first numbered `n`, into `m`. Reading stops at
/// the first ordinary entry after a metadata entry (`seen`); every line read must parse.
pub open spec fn scan_metadata(ls: Seq<Seq<char>>, n: int, seen: bool, m: MetadataIndex) -> Result<
    MetadataIndex,
    IndexError,
>
    decreases ls.len(),
{
    if ls.len() == 0 {
        Ok(m)
    } else {
        match line_entry(trim_end(ls[0]), n as usize) {
            Err(e) => Err(e),
            Ok(en) => match metadata_tail(en.0) {
                Some(tail) => scan_metadata(ls.drop_first(), n + 1, true, classify(m, tail, en.1)),
                None => if seen {
                    Ok(m)
                } else {
                    scan_metadata(ls.drop_first(), n + 1, false, m)
                },
            },
        }
    }
}

/// The metadata of the index text `t`.
pub open spec fn index_metadata(t: Seq<char>) -> Result<MetadataIndex, IndexError> {
    scan_metadata(lines(t), 0, false, no_metadata())
}

/// The part of `h` after `00-database-` or `00database`, if it starts with one of them.
fn metadata_tail_of(h: &Vec<char>) -> (r: Option<usize>)
    ensures
        match metadata_tail(h@) {
            Some(tail) => r matches Some(k) && k <= h@.len() && tail == h@.subrange(k as int, h@.len() as int),
            None => r is None,
        },
{
    let long = chars_of("00-database-");
    let short = chars_of("00database");
    proof {
        assert(h@.subrange(0, h@.len() as int) =~= h@);
    }
    if slice_has_prefix(h, 0, h.len(), &long) {
        Some(long.len())
    } else if slice_has_prefix(h, 0, h.len(), &short) {
        Some(short.len())
    } else {
        None
    }
}

/// `m` updated by the metadata entry named `h[k..]`, located at `loc`.
fn classify_entry(m: &mut MetadataIndex, h: &Vec<char>, k: usize, loc: Location)
    requires
        k <= h@.len(),
    ensures
        *final(m) == classify(*old(m), h@.subrange(k as int, h@.len() as int), loc),
{
    let end = h.len();
    if slice_equals(h, k, end, &chars_of("info")) {
        m.info = Some(loc);
    } else if slice_equals(h, k, end, &chars_of("short")) {
        m.short_name = Some(loc);
    } else if slice_equals(h, k, end, &chars_of("url")) {
        m.url = Some(loc);
    } else if slice_equals(h, k, end, &chars_of("allchars")) {
        m.all_chars = true;
    } else if slice_has_infix(h, k, end, &chars_of("case")) {
        m.case_sensitive = true;
    } else if slice_has_infix(h, k, end, &chars_of("dictfmt")) {
        m.should_normalize = true;
    }
}

/// Reads the metadata of an index text: the locations of the `info`, `short` and `url`
/// entries and the flags, from the `00-database-*` (or `00database*`) entries. Lines before
/// the first metadata entry are passed over; reading stops at the first ordinary entry after
/// one. Every line read must parse.
pub fn parse_metadata(text: &str) -> (r: Result<MetadataIndex, IndexError>)
    ensures
        r == index_metadata(text@),
{
    let t = chars_of(text);
    let mut m = MetadataIndex {
        info: None,
        short_name: None,
        url: None,
        all_chars: false,
        case_sensitive: false,
        should_normalize: false,
    };
    let mut seen = false;
    let mut i: usize = 0;
    let mut n: usize = 0;
    while i < t.len()
        invariant
            t@ == text@,
            n <= i <= t@.len(),
            index_metadata(text@) == scan_metadata(lines_from(t@, i as int), n as int, seen, m),
        decreases t@.len() - i,
    {
        let e = run_end(&t, i, '\n');
        let te = trimmed_end(&t, i, e);
        let l = sub_vec(&t, i, te);
        proof {
            lemma_lines_step(t@, i as int, e as int);
        }
        let entry = match parse_line(&l, n) {
            Ok(en) => en,
            Err(err) => return Err(err),
        };
        let h = chars_of(entry.headword.as_str());
        match metadata_tail_of(&h) {
            Some(k) => {
                classify_entry(&mut m, &h, k, entry.location);
                seen = true;
            },
            None => {
                if seen {
                    return Ok(m);
                }
            },
        }
        if e >= t.len() {
            i = e;
        } else {
            i = e + 1;
        }
        n = n + 1;
    }
    Ok(m)
}

proof fn lemma_prepend_prepend(
    a: Seq<EntryView>,
    b: Seq<EntryView>,
    r: Result<Seq<EntryView>, IndexError>,
)
    ensures
        prepend(a, prepend(b, r)) == prepend(a + b, r),
{
    if let Ok(s) = r {
        assert(a + (b + s) =~= (a + b) + s);
    }
}

/// The first line of `lines_from(t, i)` and what follows it.
pub(crate) proof fn lemma_lines_step(t: Seq<char>, i: int, e: int)
    requires
        0 <= i < t.len(),
        e == i + run_len(t, i, '\n'),
        e <= t.len(),
    ensures
        lines_from(t, i).len() > 0,
        lines_from(t, i)[0] == t.subrange(i, e),
        lines_from(t, i).drop_first() == lines_from(t, if e >= t.len() { e } else { e + 1 }),
{
    if e >= t.len() {
        assert(lines_from(t, i).drop_first() =~= lines_from(t, e));
    } else {
        assert(lines_from(t, i).drop_first() =~= lines_from(t, e + 1));
    }
}

/// Parses all entries of an index text, leaving out the metadata entries (those whose
/// headword starts with `00`), in file order.
pub fn parse(text: &str) -> (r: Result<Vec<Entry>, IndexError>)
    ensures
        result_views(r) == index_entries(text@),
{
    let t = chars_of(text);
    let zz = chars_of("00");
    let mut entries: Vec<Entry> = Vec::new();
    let mut i: usize = 0;
    let mut n: usize = 0;
    assert(entry_views(entries@) =~= seq![]);
    proof {
        if let Ok(s) = entries_of_lines(lines_from(t@, 0), 0) {
            assert(Seq::<EntryView>::empty() + s =~= s);
        }
    }
    while i < t.len()
        invariant
            t@ == text@,
            zz@ == "00"@,
            n <= i <= t@.len(),
            index_entries(text@) == prepend(
                entry_views(entries@),
                entries_of_lines(lines_from(t@, i as int), n as int),
            ),
        decreases t@.len() - i,
    {
        let e = run_end(&t, i, '\n');
        let te = trimmed_end(&t, i, e);
        let l = sub_vec(&t, i, te);
        proof {
            lemma_lines_step(t@, i as int, e as int);
        }
        let entry = match parse_line(&l, n) {
            Ok(en) => en,
            Err(err) => return Err(err),
        };
        let h = chars_of(entry.headword.as_str());
        let skip = slice_has_prefix(&h, 0, h.len(), &zz);
        proof {
            assert(h@.subrange(0, h@.len() as int) =~= h@);
        }
        let ghost before = entry_views(entries@);
        let ghost x = if skip {
            seq![]
        } else {
            seq![entry@]
        };
        if !skip {
            entries.push(entry);
        }
        proof {
            assert(entry_views(entries@) =~= before + x);
            lemma_prepend_prepend(
                before,
                x,
                entries_of_lines(lines_from(t@, if e >= t@.len() { e as int } else { e + 1 }), n + 1),
            );
        }
        if e >= t.len() {
            i = e;
        } else {
            i = e + 1;
        }
        n = n + 1;
    }
    assert(entry_views(entries@) + seq![] =~= entry_views(entries@));
    Ok(entries)
}

} // verus!

//! The `.index` file: headwords with the location of their definitions, and lookup.
use vstd::prelude::*;

mod error;
mod metadata;
mod parsing;

pub use error::IndexError;
pub use metadata::{Metadata, MetadataIndex};
pub use parsing::{
    classify, entries_of_lines, index_entries, index_metadata, line_entry, lines, lines_from,
    metadata_tail, no_metadata, parse, parse_metadata, prepend, result_views, run_len,
    scan_metadata,
};
pub(crate) use parsing::{lemma_lines_step, parse_line, run_end, sub_vec};

use crate::text::{
    chars_of, compare, edit_distance, lemma_lex_total, lemma_lex_trans, levenshtein_distance,
    lex_le, lex_lt, normalize_str, normalized, transliterate, transliteration, trim, trim_str,
    trimmed,
};


verus! {

/// Location of a definition in the uncompressed content: `size` bytes from `offset`.
#[derive(Debug, Clone, Copy, PartialEq, Eq, Structural)]
pub struct Location {
    pub offset: u64,
    pub size: u64,
}

/// What an entry is to a contract: its headword, location and original headword.
pub type EntryView = (Seq<char>, Location, Option<Seq<char>>);

/// An index entry: the headword, the location of its definition and, where normalization
/// rewrote the headword, the headword as the index file wrote it.
#[derive(Debug, Clone, PartialEq, Eq)]
pub struct Entry {
    pub headword: String,
    pub location: Location,
    pub original: Option<String>,
}

pub open spec fn opt_view(o: Option<String>) -> Option<Seq<char>> {
    match o {
        Some(s) => Some(s@),
        None => None,
    }
}

impl View for Entry {
    type V = EntryView;

    open spec fn view(&self) -> EntryView {
        (self.headword@, self.location, opt_view(self.original))
    }
}

/// The views of a sequence of entries.
pub open spec fn entry_views(s: Seq<Entry>) -> Seq<EntryView> {
    s.map_values(|e: Entry| e@)
}

impl Location {
    pub fn new(offset: u64, size: u64) -> (r: Self)
        ensures
            r == (Location { offset, size }),
    {
        Self { offset, size }
    }

    /// The byte range `offset..offset + size`.
    pub fn as_range(&self) -> (r: core::ops::Range<u64>)
        requires
            self.offset + self.size <= u64::MAX,
        ensures
            r.start == self.offset,
            r.end == self.offset + self.size,
    {
        self.offset..self.offset + self.size
    }
}

/// A copy of `o` that Verus can follow.
pub(crate) fn copy_opt_string(o: &Option<String>) -> (r: Option<String>)
    ensures
        opt_view(r) == opt_view(*o),
{
    match o {
        Some(s) => Some(s.clone()),
        None => None,
    }
}

impl Entry {
    /// A copy of this entry.
    pub fn duplicate(&self) -> (r: Entry)
        ensures
            r@ == self@,
    {
        Entry {
            headword: self.headword.clone(),
            location: self.location,
            original: copy_opt_string(&self.original),
        }
    }
}

/// `s` with `x` inserted after the last entry whose headword does not come after that of `x`,
/// scanning from the end: inserting into a sorted sequence keeps it sorted, and keeps equal
/// headwords in the order they came.
pub open spec fn insert_sorted(s: Seq<EntryView>, x: EntryView) -> Seq<EntryView>
    decreases s.len(),
{
    if s.len() == 0 || lex_le(s.last().0, x.0) {
        s.push(x)
    } else {
        insert_sorted(s.drop_last(), x).push(s.last())
    }
}

/// `s` sorted by headword, stably.
pub open spec fn sort_entries(s: Seq<EntryView>) -> Seq<EntryView>
    decreases s.len(),
{
    if s.len() == 0 {
        s
    } else {
        insert_sorted(sort_entries(s.drop_last()), s.last())
    }
}

/// The headwords of `s` never decrease.
pub open spec fn sorted(s: Seq<EntryView>) -> bool {
    forall|i: int, j: int| 0 <= i < j < s.len() ==> lex_le(#[trigger] s[i].0, #[trigger] s[j].0)
}

proof fn lemma_le_trans(a: Seq<char>, b: Seq<char>, c: Seq<char>)
    requires
        lex_le(a, b),
        lex_le(b, c),
    ensures
        lex_le(a, c),
{
    lemma_lex_total(a, b);
    lemma_lex_total(b, c);
    lemma_lex_total(a, c);
    if lex_lt(c, a) {
        if lex_lt(a, b) {
            lemma_lex_trans(c, a, b);
        }
    }
}

proof fn lemma_insert_sorted(s: Seq<EntryView>, x: EntryView)
    requires
        sorted(s),
    ensures
        sorted(insert_sorted(s, x)),
        insert_sorted(s, x).len() == s.len() + 1,
        forall|i: int|
            0 <= i < insert_sorted(s, x).len() ==> #[trigger] insert_sorted(s, x)[i] == x
                || s.contains(insert_sorted(s, x)[i]),
    decreases s.len(),
{
    let r = insert_sorted(s, x);
    if s.len() == 0 || lex_le(s.last().0, x.0) {
        assert forall|i: int, j: int| 0 <= i < j < r.len() implies lex_le(
            #[trigger] r[i].0,
            #[trigger] r[j].0,
        ) by {
            if j == s.len() && i < s.len() - 1 {
                lemma_le_trans(s[i].0, s.last().0, x.0);
            }
            if j == s.len() && i == s.len() - 1 {
                assert(r[i] == s.last());
            }
        }
        assert forall|i: int| 0 <= i < r.len() implies #[trigger] r[i] == x || s.contains(r[i]) by {
            if i < s.len() {
                assert(r[i] == s[i]);
            }
        }
    } else {
        let p = s.drop_last();
        let last = s.last();
        assert(sorted(p)) by {
            assert forall|i: int, j: int| 0 <= i < j < p.len() implies lex_le(
                #[trigger] p[i].0,
                #[trigger] p[j].0,
            ) by {
                assert(p[i] == s[i] && p[j] == s[j]);
            }
        }
        lemma_insert_sorted(p, x);
        let q = insert_sorted(p, x);
        lemma_lex_total(x.0, last.0);
        assert forall|i: int| 0 <= i < q.len() implies lex_le(#[trigger] q[i].0, last.0) by {
            if q[i] == x {
            } else {
                assert(p.contains(q[i]));
                let j = choose|j: int| 0 <= j < p.len() && p[j] == q[i];
                assert(s[j] == p[j]);
                assert(lex_le(s[j].0, s[s.len() - 1].0));
            }
        }
        assert forall|i: int, j: int| 0 <= i < j < r.len() implies lex_le(
            #[trigger] r[i].0,
            #[trigger] r[j].0,
        ) by {
            if j == q.len() {
                assert(r[i] == q[i]);
            } else {
                assert(r[i] == q[i] && r[j] == q[j]);
            }
        }
        assert forall|i: int| 0 <= i < r.len() implies #[trigger] r[i] == x || s.contains(r[i]) by {
            if i < q.len() {
                assert(r[i] == q[i]);
                if q[i] != x {
                    assert(p.contains(q[i]));
                    let j = choose|j: int| 0 <= j < p.len() && p[j] == q[i];
                    assert(s[j] == p[j]);
                }
            } else {
                assert(r[i] == s[s.len() - 1]);
            }
        }
    }
}

/// Sorting gives entries whose headwords never decrease, and as many as it was given.
pub proof fn lemma_sort_sorted(s: Seq<EntryView>)
    ensures
        sorted(sort_entries(s)),
        sort_entries(s).len() == s.len(),
    decreases s.len(),
{
    if s.len() > 0 {
        lemma_sort_sorted(s.drop_last());
        lemma_insert_sorted(sort_entries(s.drop_last()), s.last());
    }
}

proof fn lemma_insert_sorted_multiset(s: Seq<EntryView>, x: EntryView)
    ensures
        insert_sorted(s, x).to_multiset() == s.to_multiset().insert(x),
    decreases s.len(),
{
    vstd::seq_lib::to_multiset_build(s, x);
    if !(s.len() == 0 || lex_le(s.last().0, x.0)) {
        let p = s.drop_last();
        lemma_insert_sorted_multiset(p, x);
        vstd::seq_lib::to_multiset_build(insert_sorted(p, x), s.last());
        vstd::seq_lib::to_multiset_build(p, s.last());
        assert(p.push(s.last()) == s);
        assert(p.to_multiset().insert(x).insert(s.last()) =~= p.to_multiset().insert(s.last()).insert(x));
    }
}

/// Sorting neither loses nor adds an entry: the result holds the same entries, as often.
pub proof fn lemma_sort_permutes(s: Seq<EntryView>)
    ensures
        sort_entries(s).to_multiset() == s.to_multiset(),
    decreases s.len(),
{
    if s.len() > 0 {
        lemma_sort_permutes(s.drop_last());
        lemma_insert_sorted_multiset(sort_entries(s.drop_last()), s.last());
        vstd::seq_lib::to_multiset_build(s.drop_last(), s.last());
        assert(s.drop_last().push(s.last()) == s);
    }
}

/// `entries` sorted by headword, stably; already sorted input takes linear time.
fn sort_by_headword(entries: Vec<Entry>) -> (r: Vec<Entry>)
    ensures
        entry_views(r@) == sort_entries(entry_views(entries@)),
{
    let ghost all = entry_views(entries@);
    let mut out: Vec<Entry> = Vec::new();
    let mut i: usize = 0;
    assert(all.subrange(0, 0) =~= seq![]);
    assert(entry_views(out@) =~= seq![]);
    while i < entries.len()
        invariant
            0 <= i <= entries@.len(),
            all == entry_views(entries@),
            entry_views(out@) == sort_entries(all.subrange(0, i as int)),
        decreases entries@.len() - i,
    {
        let e = entries[i].duplicate();
        let key = chars_of(e.headword.as_str());
        let ghost v = entry_views(out@);
        let mut p: usize = out.len();
        assert(v.subrange(0, p as int) =~= v);
        assert(v.subrange(p as int, v.len() as int) =~= seq![]);
        while p > 0 && compare(&chars_of(out[p - 1].headword.as_str()), &key) > 0
            invariant
                0 <= p <= out@.len(),
                v == entry_views(out@),
                key@ == e@.0,
                insert_sorted(v, e@) == insert_sorted(v.subrange(0, p as int), e@) + v.subrange(
                    p as int,
                    v.len() as int,
                ),
            decreases p,
        {
            proof {
                let w = v.subrange(0, p as int);
                assert(w.drop_last() =~= v.subrange(0, p - 1));
                assert(w.last() == v[p - 1]);
                lemma_lex_total(v[p - 1].0, e@.0);
                assert(insert_sorted(v.subrange(0, p - 1), e@).push(v[p - 1]) + v.subrange(
                    p as int,
                    v.len() as int,
                ) =~= insert_sorted(v.subrange(0, p - 1), e@) + v.subrange(p - 1, v.len() as int));
            }
            p = p - 1;
        }
        proof {
            if p > 0 {
                lemma_lex_total(v[p - 1].0, e@.0);
            }
            assert(insert_sorted(v.subrange(0, p as int), e@) == v.subrange(0, p as int).push(e@));
        }
        out.insert(p, e);
        proof {
            assert(entry_views(out@) =~= v.subrange(0, p as int).push(e@) + v.subrange(p as int, v.len() as int));
            assert(all.subrange(0, i + 1).drop_last() =~= all.subrange(0, i as int));
            assert(all.subrange(0, i + 1).last() == entries@[i as int]@);
        }
        i = i + 1;
    }
    assert(all.subrange(0, entries@.len() as int) =~= all);
    out
}

/// An entry after normalization of its headword; the headword as written is kept where
/// normalization changed it.
pub open spec fn normalize_entry(e: EntryView, all_chars: bool, case_sensitive: bool) -> EntryView {
    let h = normalized(e.0, all_chars, case_sensitive);
    (h, e.1, if h != e.0 { Some(e.0) } else { None })
}

/// The entries of an index as lookups see them: parsed, normalized where the metadata asks
/// for it, and sorted by headword.
pub open spec fn prepared_entries(t: Seq<char>, m: MetadataIndex) -> Result<Seq<EntryView>, IndexError> {
    match index_entries(t) {
        Err(e) => Err(e),
        Ok(es) => Ok(
            sort_entries(
                if m.should_normalize {
                    es.map_values(|e: EntryView| normalize_entry(e, m.all_chars, m.case_sensitive))
                } else {
                    es
                },
            ),
        ),
    }
}

/// The key under which a headword is searched: the headword itself, or in relaxed mode its
/// transliteration without surrounding white space.
pub open spec fn search_key(h: Seq<char>, relaxed: bool) -> Seq<char> {
    if relaxed {
        trim(transliteration(h))
    } else {
        h
    }
}

/// The form of a query that is compared with the keys.
pub open spec fn query_key(word: Seq<char>, m: MetadataIndex) -> Seq<char> {
    trim(normalized(word, m.all_chars, m.case_sensitive))
}

/// The entries of `es` whose keys sort in order.
pub open spec fn sorted_by_key(es: Seq<EntryView>, relaxed: bool) -> bool {
    forall|i: int, j: int|
        0 <= i < j < es.len() ==> lex_le(
            search_key(#[trigger] es[i].0, relaxed),
            search_key(#[trigger] es[j].0, relaxed),
        )
}

/// `[lo, hi)` is a maximal run of entries whose key is `q`.
pub open spec fn is_run(es: Seq<EntryView>, lo: int, hi: int, q: Seq<char>, relaxed: bool) -> bool {
    &&& 0 <= lo < hi <= es.len()
    &&& forall|i: int| lo <= i < hi ==> search_key(#[trigger] es[i].0, relaxed) == q
    &&& lo == 0 || search_key(es[lo - 1].0, relaxed) != q
    &&& hi == es.len() || search_key(es[hi].0, relaxed) != q
}

/// The entries within one edit of `q`.
pub open spec fn near(q: Seq<char>, relaxed: bool) -> spec_fn(EntryView) -> bool {
    |e: EntryView| edit_distance(q, search_key(e.0, relaxed)) <= 1
}

/// The search key of an entry.
fn entry_key(e: &Entry, relaxed: bool) -> (r: Vec<char>)
    ensures
        r@ == search_key(e.headword@, relaxed),
{
    if relaxed {
        let t = chars_of(transliterate(e.headword.as_str()).as_str());
        let (b, en) = trimmed(&t, 0, t.len());
        assert(t@.subrange(0, t@.len() as int) =~= t@);
        sub_vec(&t, b, en)
    } else {
        chars_of(e.headword.as_str())
    }
}

/// Normalizes `headword` in place as the metadata asks: punctuation dropped unless all
/// characters are kept, case folded unless the dictionary is case-sensitive.
fn normalize_headword(headword: &mut String, metadata: &Metadata)
    ensures
        final(headword)@ == normalized(old(headword)@, metadata.all_chars, metadata.case_sensitive),
{
    *headword = normalize_str(headword.as_str(), metadata.all_chars, metadata.case_sensitive);
}

/// Normalizes the headwords of `entries`, keeping the headword as written where it changed.
fn normalize(entries: Vec<Entry>, metadata: &Metadata) -> (r: Vec<Entry>)
    ensures
        entry_views(r@) == entry_views(entries@).map_values(
            |e: EntryView| normalize_entry(e, metadata.all_chars, metadata.case_sensitive),
        ),
{
    let mut out: Vec<Entry> = Vec::new();
    let mut i: usize = 0;
    while i < entries.len()
        invariant
            0 <= i <= entries@.len(),
            out@.len() == i,
            entry_views(out@) == entry_views(entries@).subrange(0, i as int).map_values(
                |e: EntryView| normalize_entry(e, metadata.all_chars, metadata.case_sensitive),
            ),
        decreases entries@.len() - i,
    {
        let e = &entries[i];
        let h = normalize_str(e.headword.as_str(), metadata.all_chars, metadata.case_sensitive);
        let same = h == e.headword;
        let original = if same {
            None
        } else {
            Some(e.headword.clone())
        };
        let ghost before = entry_views(out@);
        out.push(Entry { headword: h, location: e.location, original });
        proof {
            assert(out@[i as int]@ == normalize_entry(
                entries@[i as int]@,
                metadata.all_chars,
                metadata.case_sensitive,
            ));
            assert(entry_views(out@) =~= before.push(out@[i as int]@));
            assert(entry_views(out@) =~= entry_views(entries@).subrange(0, i + 1).map_values(
                |e: EntryView| normalize_entry(e, metadata.all_chars, metadata.case_sensitive),
            ));
        }
        i = i + 1;
    }
    assert(entry_views(entries@).subrange(0, entries@.len() as int) =~= entry_views(entries@));
    out
}

/// The entry at which a binary search of `es[lo..hi]` for the key `q` stops on a match, or
/// `None` where it narrows down to nothing: probe the middle, go right of it where its key
/// comes before `q`, left of it where it comes after.
pub open spec fn probe(es: Seq<EntryView>, q: Seq<char>, relaxed: bool, lo: int, hi: int) -> Option<
    int,
>
    decreases hi - lo,
{
    if lo >= hi {
        None
    } else {
        let mid = lo + (hi - lo) / 2;
        let k = search_key(es[mid].0, relaxed);
        if k == q {
            Some(mid)
        } else if lex_lt(k, q) {
            probe(es, q, relaxed, mid + 1, hi)
        } else {
            probe(es, q, relaxed, lo, mid)
        }
    }
}

/// Where the binary search of all of `es` for `q` stops on a match.
pub open spec fn pivot(es: Seq<EntryView>, q: Seq<char>, relaxed: bool) -> Option<int> {
    probe(es, q, relaxed, 0, es.len() as int)
}

/// Whether `found` is what a successful lookup of the query key `q` among `es` gives.
///
/// A fuzzy lookup gives every entry within one edit of `q`, in order, and at least one. An
/// exact lookup gives the maximal run of entries whose key is `q` around the entry where the
/// binary search stops; where the keys are sorted, that run holds every such entry.
pub open spec fn found_ok(es: Seq<EntryView>, q: Seq<char>, fuzzy: bool, relaxed: bool, found: Seq<EntryView>) -> bool {
    if fuzzy {
        found == es.filter(near(q, relaxed)) && found.len() > 0
    } else {
        match pivot(es, q, relaxed) {
            Some(p) => exists|lo: int, hi: int|
                #![trigger es.subrange(lo, hi)]
                is_run(es, lo, hi, q, relaxed) && lo <= p < hi && found == es.subrange(lo, hi) && (
                sorted_by_key(es, relaxed) ==> forall|i: int|
                    0 <= i < es.len() && search_key(#[trigger] es[i].0, relaxed) == q ==> lo <= i
                        < hi),
            None => false,
        }
    }
}

/// Whether finding nothing is right for a lookup of `q` among `es`: no entry is within one
/// edit of it (fuzzy), or the binary search finds no match, which where the keys are sorted
/// means that no key equals it (exact).
pub open spec fn not_found_ok(es: Seq<EntryView>, q: Seq<char>, fuzzy: bool, relaxed: bool) -> bool {
    if fuzzy {
        es.filter(near(q, relaxed)).len() == 0
    } else {
        pivot(es, q, relaxed) is None && (sorted_by_key(es, relaxed) ==> forall|i: int|
            0 <= i < es.len() ==> search_key(#[trigger] es[i].0, relaxed) != q)
    }
}

/// Whether `r` is what a lookup of the query key `q` among `es` gives: the entries that
/// `found_ok` describes, or `WordNotFound` with the query key where `not_found_ok` holds.
pub open spec fn find_outcome(
    es: Seq<EntryView>,
    q: Seq<char>,
    fuzzy: bool,
    relaxed: bool,
    r: Result<Vec<Entry>, IndexError>,
) -> bool {
    match r {
        Ok(v) => found_ok(es, q, fuzzy, relaxed, entry_views(v@)),
        Err(e) => e matches IndexError::WordNotFound(w) && w@ == q && not_found_ok(
            es,
            q,
            fuzzy,
            relaxed,
        ),
    }
}

/// A lookup has one possible answer: what it finds depends on the entries and the query key
/// alone.
pub proof fn lemma_found_unique(
    es: Seq<EntryView>,
    q: Seq<char>,
    fuzzy: bool,
    relaxed: bool,
    f1: Seq<EntryView>,
    f2: Seq<EntryView>,
)
    requires
        found_ok(es, q, fuzzy, relaxed, f1),
        found_ok(es, q, fuzzy, relaxed, f2),
    ensures
        f1 == f2,
{
    if !fuzzy {
        let p = pivot(es, q, relaxed).unwrap();
        let (lo1, hi1) = choose|lo: int, hi: int|
            is_run(es, lo, hi, q, relaxed) && lo <= p < hi && f1 == #[trigger] es.subrange(lo, hi);
        let (lo2, hi2) = choose|lo: int, hi: int|
            is_run(es, lo, hi, q, relaxed) && lo <= p < hi && f2 == #[trigger] es.subrange(lo, hi);
        if lo1 < lo2 {
            assert(search_key(es[lo2 - 1].0, relaxed) == q);
        }
        if lo2 < lo1 {
            assert(search_key(es[lo1 - 1].0, relaxed) == q);
        }
        if hi1 < hi2 {
            assert(search_key(es[hi1].0, relaxed) == q);
        }
        if hi2 < hi1 {
            assert(search_key(es[hi2].0, relaxed) == q);
        }
    }
}

/// Two words whose queries normalize to the same key (`Bar` and `bar` in a dictionary that
/// folds case, where both lower-case to `bar`) find the same entries.
pub proof fn lemma_same_query_same_entries(
    es: Seq<EntryView>,
    m: MetadataIndex,
    w1: Seq<char>,
    w2: Seq<char>,
    fuzzy: bool,
    relaxed: bool,
    f1: Seq<EntryView>,
    f2: Seq<EntryView>,
)
    requires
        query_key(w1, m) == query_key(w2, m),
        found_ok(es, query_key(w1, m), fuzzy, relaxed, f1),
        found_ok(es, query_key(w2, m), fuzzy, relaxed, f2),
    ensures
        f1 == f2,
{
    lemma_found_unique(es, query_key(w1, m), fuzzy, relaxed, f1, f2);
}

proof fn lemma_le_lt(a: Seq<char>, b: Seq<char>, c: Seq<char>)
    requires
        lex_le(a, b),
        lex_lt(b, c),
    ensures
        lex_lt(a, c),
{
    lemma_lex_total(a, b);
    if lex_lt(a, b) {
        lemma_lex_trans(a, b, c);
    }
}

proof fn lemma_lt_le(a: Seq<char>, b: Seq<char>, c: Seq<char>)
    requires
        lex_lt(a, b),
        lex_le(b, c),
    ensures
        lex_lt(a, c),
{
    lemma_lex_total(b, c);
    if lex_lt(b, c) {
        lemma_lex_trans(a, b, c);
    }
}

/// Where the keys are sorted, a maximal run of entries with key `q` holds all of them.
proof fn lemma_run_complete(es: Seq<EntryView>, lo: int, hi: int, q: Seq<char>, relaxed: bool)
    requires
        sorted_by_key(es, relaxed),
        is_run(es, lo, hi, q, relaxed),
    ensures
        forall|i: int|
            0 <= i < es.len() && search_key(#[trigger] es[i].0, relaxed) == q ==> lo <= i < hi,
{
    assert forall|i: int| 0 <= i < es.len() && search_key(#[trigger] es[i].0, relaxed) == q implies lo <= i < hi by {
        lemma_lex_total(q, q);
        if i < lo {
            let b = search_key(es[lo - 1].0, relaxed);
            assert(lex_le(b, search_key(es[lo].0, relaxed)));
            lemma_lex_total(b, q);
            if i < lo - 1 {
                assert(lex_le(search_key(es[i].0, relaxed), b));
                lemma_le_lt(search_key(es[i].0, relaxed), b, q);
            }
        } else if i >= hi {
            let b = search_key(es[hi].0, relaxed);
            assert(lex_le(search_key(es[hi - 1].0, relaxed), b));
            lemma_lex_total(b, q);
            if i > hi {
                assert(lex_le(b, search_key(es[i].0, relaxed)));
                lemma_lt_le(q, b, search_key(es[i].0, relaxed));
            }
        }
    }
}

/// Widens the match at `p` to the maximal run of entries whose key is `q`.
fn extend_run(entries: &Vec<Entry>, q: &Vec<char>, relaxed: bool, p: usize) -> (r: (usize, usize))
    requires
        p < entries.len(),
        search_key(entries@[p as int]@.0, relaxed) == q@,
    ensures
        is_run(entry_views(entries@), r.0 as int, r.1 as int, q@, relaxed),
        r.0 <= p < r.1,
{
    let ghost es = entry_views(entries@);
    let mut lo: usize = p;
    while lo > 0 && compare(&entry_key(&entries[lo - 1], relaxed), q) == 0
        invariant
            lo <= p < entries@.len(),
            es == entry_views(entries@),
            forall|i: int| lo <= i <= p ==> search_key(#[trigger] es[i].0, relaxed) == q@,
        decreases lo,
    {
        lo = lo - 1;
    }
    let mut hi: usize = p + 1;
    while hi < entries.len() && compare(&entry_key(&entries[hi], relaxed), q) == 0
        invariant
            lo <= p < hi <= entries@.len(),
            es == entry_views(entries@),
            forall|i: int| lo <= i < hi ==> search_key(#[trigger] es[i].0, relaxed) == q@,
            lo == 0 || search_key(es[lo - 1].0, relaxed) != q@,
        decreases entries@.len() - hi,
    {
        hi = hi + 1;
    }
    (lo, hi)
}

/// Binary search for an entry with key `q`, widened to its run.
fn find_run(entries: &Vec<Entry>, q: &Vec<char>, relaxed: bool) -> (r: Option<(usize, usize)>)
    ensures
        match pivot(entry_views(entries@), q@, relaxed) {
            Some(p) => r matches Some((lo, hi)) && is_run(
                entry_views(entries@),
                lo as int,
                hi as int,
                q@,
                relaxed,
            ) && lo <= p < hi,
            None => r is None,
        },
        match r {
            Some(_) => true,
            None => sorted_by_key(entry_views(entries@), relaxed) ==> forall|i: int|
                0 <= i < entries@.len() ==> search_key(
                    #[trigger] entry_views(entries@)[i].0,
                    relaxed,
                ) != q@,
        },
{
    let ghost es = entry_views(entries@);
    let mut lo: usize = 0;
    let mut hi: usize = entries.len();
    while lo < hi
        invariant
            0 <= lo <= hi <= entries@.len(),
            es == entry_views(entries@),
            pivot(es, q@, relaxed) == probe(es, q@, relaxed, lo as int, hi as int),
            sorted_by_key(es, relaxed) ==> forall|i: int|
                0 <= i < lo ==> lex_lt(search_key(#[trigger] es[i].0, relaxed), q@),
            sorted_by_key(es, relaxed) ==> forall|i: int|
                hi <= i < es.len() ==> lex_lt(q@, search_key(#[trigger] es[i].0, relaxed)),
        decreases hi - lo,
    {
        let mid = lo + (hi - lo) / 2;
        let k = entry_key(&entries[mid], relaxed);
        let c = compare(&k, q);
        assert(k@ == search_key(es[mid as int].0, relaxed));
        if c == 0 {
            return Some(extend_run(entries, q, relaxed, mid));
        } else if c < 0 {
            proof {
                if sorted_by_key(es, relaxed) {
                    assert forall|i: int| 0 <= i < mid + 1 implies lex_lt(
                        search_key(#[trigger] es[i].0, relaxed),
                        q@,
                    ) by {
                        if i < mid {
                            lemma_le_lt(search_key(es[i].0, relaxed), k@, q@);
                        }
                    }
                }
            }
            lo = mid + 1;
        } else {
            proof {
                if sorted_by_key(es, relaxed) {
                    assert forall|i: int| mid <= i < es.len() implies lex_lt(
                        q@,
                        search_key(#[trigger] es[i].0, relaxed),
                    ) by {
                        if i > mid {
                            lemma_lt_le(q@, k@, search_key(es[i].0, relaxed));
                        }
                    }
                }
            }
            hi = mid;
        }
    }
    proof {
        assert forall|i: int| 0 <= i < entries@.len() implies search_key(
            #[trigger] entry_views(entries@)[i].0,
            relaxed,
        ) != q@ || !sorted_by_key(es, relaxed) by {
            lemma_lex_total(q@, q@);
        }
    }
    None
}

/// The search key of an entry, as a string.
fn entry_key_string(e: &Entry, relaxed: bool) -> (r: String)
    ensures
        r@ == search_key(e.headword@, relaxed),
{
    if relaxed {
        trim_str(transliterate(e.headword.as_str()).as_str())
    } else {
        e.headword.clone()
    }
}

/// The entries within one edit of `q`, in order.
fn find_near(entries: &Vec<Entry>, q: &str, relaxed: bool) -> (r: Vec<Entry>)
    ensures
        entry_views(r@) == entry_views(entries@).filter(near(q@, relaxed)),
{
    let ghost es = entry_views(entries@);
    let mut out: Vec<Entry> = Vec::new();
    let mut i: usize = 0;
    assert(es.subrange(0, 0).filter(near(q@, relaxed)) =~= seq![]) by {
        reveal(Seq::filter);
    }
    assert(entry_views(out@) =~= seq![]);
    while i < entries.len()
        invariant
            0 <= i <= entries@.len(),
            es == entry_views(entries@),
            entry_views(out@) == es.subrange(0, i as int).filter(near(q@, relaxed)),
        decreases entries@.len() - i,
    {
        let key = entry_key_string(&entries[i], relaxed);
        let d = levenshtein_distance(q, key.as_str());
        proof {
            assert(es.subrange(0, i + 1) =~= es.subrange(0, i as int).push(es[i as int]));
            es.subrange(0, i as int).lemma_filter_push(es[i as int], near(q@, relaxed));
        }
        if d <= 1 {
            let ghost before = entry_views(out@);
            out.push(entries[i].duplicate());
            assert(entry_views(out@) =~= before.push(es[i as int]));
        }
        i = i + 1;
    }
    assert(es.subrange(0, es.len() as int) =~= es);
    out
}

/// Copies of `entries[lo..hi]`.
fn copy_entries(entries: &Vec<Entry>, lo: usize, hi: usize) -> (r: Vec<Entry>)
    requires
        lo <= hi <= entries@.len(),
    ensures
        entry_views(r@) == entry_views(entries@).subrange(lo as int, hi as int),
{
    let mut out: Vec<Entry> = Vec::new();
    let mut i: usize = lo;
    while i < hi
        invariant
            lo <= i <= hi <= entries@.len(),
            entry_views(out@) == entry_views(entries@).subrange(lo as int, i as int),
        decreases hi - i,
    {
        let ghost before = entry_views(out@);
        out.push(entries[i].duplicate());
        assert(entry_views(out@) =~= before.push(entry_views(entries@)[i as int]));
        assert(entry_views(entries@).subrange(lo as int, i + 1) =~= entry_views(entries@).subrange(
            lo as int,
            i as int,
        ).push(entry_views(entries@)[i as int]));
        i = i + 1;
    }
    out
}

/// A dictionary index: the text of the `.index` file, its metadata, and its entries, which
/// are read on the first lookup.
pub struct Index {
    text: String,
    entries: Vec<Entry>,
    metadata: Metadata,
    loaded: bool,
}

impl Index {
    /// The text of the index.
    pub closed spec fn text(&self) -> Seq<char> {
        self.text@
    }

    /// The flags of the metadata that decide how headwords are normalized.
    pub closed spec fn flags(&self) -> MetadataIndex {
        MetadataIndex {
            info: None,
            short_name: None,
            url: None,
            all_chars: self.metadata.all_chars,
            case_sensitive: self.metadata.case_sensitive,
            should_normalize: self.metadata.should_normalize,
        }
    }

    /// The metadata.
    pub closed spec fn meta(&self) -> Metadata {
        self.metadata
    }

    /// The entries have been read.
    pub closed spec fn is_loaded(&self) -> bool {
        self.loaded
    }

    /// The entries, once read.
    pub closed spec fn entries_view(&self) -> Seq<EntryView> {
        entry_views(self.entries@)
    }

    /// Once read, the entries are those that the text and the flags give.
    #[verifier::type_invariant]
    spec fn wf(&self) -> bool {
        self.loaded ==> prepared_entries(self.text@, self.flags()) == Ok::<
            Seq<EntryView>,
            IndexError,
        >(entry_views(self.entries@))
    }

    /// Creates an index over the text of a `.index` file and reads its metadata flags. The
    /// entries are read on the first lookup.
    pub fn new(text: &str) -> (r: Result<Self, IndexError>)
        ensures
            match index_metadata(text@) {
                Ok(m) => r matches Ok(ix) && !ix.is_loaded() && ix.entries_view().len() == 0
                    && ix.text() == text@ && ix.flags().all_chars == m.all_chars
                    && ix.flags().case_sensitive == m.case_sensitive && ix.flags().should_normalize
                    == m.should_normalize && ix.meta().info is None && ix.meta().short_name is None
                    && ix.meta().url is None,
                Err(e) => r == Err::<Self, IndexError>(e),
            },
    {
        let m = match parse_metadata(text) {
            Ok(m) => m,
            Err(e) => return Err(e),
        };
        Ok(Self::with_metadata(text, &m, None, None, None))
    }

    /// An index over `text` whose metadata holds the flags of `m` and the given texts.
    pub(crate) fn with_metadata(
        text: &str,
        m: &MetadataIndex,
        info: Option<String>,
        short_name: Option<String>,
        url: Option<String>,
    ) -> (r: Self)
        ensures
            !r.is_loaded(),
            r.entries_view().len() == 0,
            r.text() == text@,
            r.flags().all_chars == m.all_chars,
            r.flags().case_sensitive == m.case_sensitive,
            r.flags().should_normalize == m.should_normalize,
            r.meta().info == info,
            r.meta().short_name == short_name,
            r.meta().url == url,
    {
        Index {
            text: String::from_str(text),
            entries: Vec::new(),
            metadata: Metadata {
                info,
                short_name,
                url,
                all_chars: m.all_chars,
                case_sensitive: m.case_sensitive,
                should_normalize: m.should_normalize,
            },
            loaded: false,
        }
    }

    /// The metadata of the dictionary.
    pub fn metadata(&self) -> (r: &Metadata)
        ensures
            *r == self.meta(),
            r.all_chars == self.flags().all_chars,
            r.case_sensitive == self.flags().case_sensitive,
            r.should_normalize == self.flags().should_normalize,
    {
        &self.metadata
    }

    /// The entries, sorted by headword; empty until the first lookup.
    pub fn entries(&self) -> (r: &Vec<Entry>)
        ensures
            entry_views(r@) == self.entries_view(),
    {
        &self.entries
    }

    /// Looks up `headword`. The query is normalized like the headwords (case folded unless
    /// the dictionary is case-sensitive, punctuation dropped unless it keeps all characters)
    /// and trimmed.
    ///
    /// An exact lookup gives the run of entries whose key equals the query; a fuzzy one every
    /// entry within one edit of it. In relaxed mode the key of an entry is its transliteration
    /// without diacritics. The entries are read on the first lookup; an index line that does
    /// not parse is reported then, and the next lookup tries again.
    pub fn find(&mut self, headword: &str, fuzzy: bool, relaxed: bool) -> (r: Result<
        Vec<Entry>,
        IndexError,
    >)
        ensures
            final(self).text() == old(self).text(),
            final(self).flags() == old(self).flags(),
            final(self).meta() == old(self).meta(),
            old(self).is_loaded() ==> final(self).is_loaded() && final(self).entries_view() == old(
                self,
            ).entries_view(),
            !old(self).is_loaded() ==> match prepared_entries(old(self).text(), old(self).flags()) {
                Ok(es) => final(self).is_loaded() && final(self).entries_view() == es,
                Err(e) => r == Err::<Vec<Entry>, IndexError>(e) && !final(self).is_loaded(),
            },
            final(self).is_loaded() ==> sorted_by_key(final(self).entries_view(), false),
            final(self).is_loaded() ==> find_outcome(
                final(self).entries_view(),
                query_key(headword@, old(self).flags()),
                fuzzy,
                relaxed,
                r,
            ),
    {
        proof {
            use_type_invariant(&*self);
        }
        if !self.loaded {
            match self.load_entries() {
                Ok(()) => {},
                Err(e) => return Err(e),
            }
            self.loaded = true;
        }
        proof {
            let t = self.text@;
            let m = self.flags();
            if let Ok(es) = index_entries(t) {
                lemma_sort_sorted(
                    if m.should_normalize {
                        es.map_values(|e: EntryView| normalize_entry(e, m.all_chars, m.case_sensitive))
                    } else {
                        es
                    },
                );
            }
        }
        let mut normal = String::from_str(headword);
        normalize_headword(&mut normal, &self.metadata);
        let query = trim_str(normal.as_str());
        let ghost es = entry_views(self.entries@);
        if fuzzy {
            let found = find_near(&self.entries, query.as_str(), relaxed);
            if found.len() == 0 {
                return Err(IndexError::WordNotFound(query));
            }
            Ok(found)
        } else {
            let q = chars_of(query.as_str());
            match find_run(&self.entries, &q, relaxed) {
                Some((lo, hi)) => {
                    let found = copy_entries(&self.entries, lo, hi);
                    proof {
                        if sorted_by_key(es, relaxed) {
                            lemma_run_complete(es, lo as int, hi as int, q@, relaxed);
                        }
                        assert(entry_views(found@) == es.subrange(lo as int, hi as int));
                    }
                    Ok(found)
                },
                None => Err(IndexError::WordNotFound(query)),
            }
        }
    }

    /// Reads, normalizes and sorts the entries.
    fn load_entries(&mut self) -> (r: Result<(), IndexError>)
        ensures
            final(self).text() == old(self).text(),
            final(self).flags() == old(self).flags(),
            final(self).metadata == old(self).metadata,
            final(self).loaded == old(self).loaded,
            match prepared_entries(old(self).text(), old(self).flags()) {
                Ok(es) => r is Ok && final(self).entries_view() == es,
                Err(e) => r == Err::<(), IndexError>(e) && final(self).entries == old(self).entries,
            },
    {
        let entries = match parse(self.text.as_str()) {
            Ok(es) => es,
            Err(e) => return Err(e),
        };
        let entries = if self.metadata.should_normalize {
            normalize(entries, &self.metadata)
        } else {
            entries
        };
        self.entries = sort_by_headword(entries);
        Ok(())
    }
}

/// Lookup in an index, and its metadata.
pub trait IndexReader {
    /// Looks up `headword`, fuzzily (up to one edit) or exactly, and relaxed (diacritics
    /// ignored) or not.
    fn find(&mut self, headword: &str, fuzzy: bool, relaxed: bool) -> Result<Vec<Entry>, IndexError>;

    /// The metadata of the dictionary.
    fn metadata(&self) -> &Metadata;
}

impl IndexReader for Index {
    fn find(&mut self, headword: &str, fuzzy: bool, relaxed: bool) -> Result<Vec<Entry>, IndexError> {
        Index::find(self, headword, fuzzy, relaxed)
    }

    fn metadata(&self) -> &Metadata {
        Index::metadata(self)
    }
}

} // verus!

//! Character-level helpers: strings as sequences of characters, trimming, and the
//! normalization of headwords.
use vstd::prelude::*;

verus! {

/// The characters of `s`, in order.
pub fn chars_of(s: &str) -> (r: Vec<char>)
    ensures
        r@ == s@,
{
    let mut r: Vec<char> = Vec::new();
    for c in it: s.chars()
        invariant
            r@ == it.seq().take(it.index() as int),
            it.seq() == s@,
    {
        r.push(c);
    }
    r
}

/// Whether `c` has the Unicode `White_Space` property, the white space of `char::is_whitespace`
/// and `str::trim`.
pub open spec fn white_space(c: char) -> bool {
    ('\u{9}' <= c && c <= '\u{d}') || c == ' ' || c == '\u{85}' || c == '\u{a0}' || c
        == '\u{1680}' || ('\u{2000}' <= c && c <= '\u{200a}') || c == '\u{2028}' || c
        == '\u{2029}' || c == '\u{202f}' || c == '\u{205f}' || c == '\u{3000}'
}

/// Whether `c` is alphabetic or numeric, as `char::is_alphanumeric` says.
pub uninterp spec fn alphanumeric(c: char) -> bool;

/// The lower-case form of a string, as `str::to_lowercase` gives it.
pub uninterp spec fn lowercase(s: Seq<char>) -> Seq<char>;

/// The ASCII transliteration of a string, as `unidecode::unidecode` gives it.
pub uninterp spec fn transliteration(s: Seq<char>) -> Seq<char>;

/// The Levenshtein distance between two strings, counted in characters, as
/// `levenshtein::levenshtein` gives it.
pub uninterp spec fn edit_distance(a: Seq<char>, b: Seq<char>) -> nat;

/// Relies on `unidecode::unidecode`: the ASCII transliteration, which depends on the
/// characters alone.
#[verifier::external_body]
pub(crate) fn transliterate(s: &str) -> (r: String)
    ensures
        r@ == transliteration(s@),
{
    unidecode::unidecode(s)
}

/// Relies on `levenshtein::levenshtein`: the edit distance, which is 0 for equal strings.
#[verifier::external_body]
pub(crate) fn levenshtein_distance(a: &str, b: &str) -> (r: usize)
    ensures
        r == edit_distance(a@, b@),
        a@ == b@ ==> r == 0,
{
    levenshtein::levenshtein(a, b)
}

/// Whether a character is Unicode white space.
pub fn is_white_space(c: char) -> (r: bool)
    ensures
        r == white_space(c),
{
    ('\u{9}' <= c && c <= '\u{d}') || c == ' ' || c == '\u{85}' || c == '\u{a0}' || c
        == '\u{1680}' || ('\u{2000}' <= c && c <= '\u{200a}') || c == '\u{2028}' || c
        == '\u{2029}' || c == '\u{202f}' || c == '\u{205f}' || c == '\u{3000}'
}

/// Relies on `char::is_alphanumeric`: whether a character is alphabetic or numeric.
#[verifier::external_body]
pub(crate) fn is_alphanumeric(c: char) -> (r: bool)
    ensures
        r == alphanumeric(c),
{
    c.is_alphanumeric()
}

/// Relies on `str::to_lowercase`: the lower-case form, a function of the characters alone.
#[verifier::external_body]
pub(crate) fn to_lowercase(s: &str) -> (r: String)
    ensures
        r@ == lowercase(s@),
{
    s.to_lowercase()
}

/// Relies on `String::push`: appends one character at the end.
#[verifier::external_body]
pub(crate) fn push_char(s: &mut String, c: char)
    ensures
        final(s)@ == old(s)@.push(c),
{
    s.push(c)
}

/// The string made of `chars[lo..hi]`.
pub fn string_of(chars: &Vec<char>, lo: usize, hi: usize) -> (r: String)
    requires
        lo <= hi <= chars@.len(),
    ensures
        r@ == chars@.subrange(lo as int, hi as int),
{
    let mut r = String::new();
    let mut i: usize = lo;
    while i < hi
        invariant
            lo <= i <= hi <= chars@.len(),
            r@ == chars@.subrange(lo as int, i as int),
        decreases hi - i,
    {
        push_char(&mut r, chars[i]);
        assert(chars@.subrange(lo as int, i + 1) =~= chars@.subrange(lo as int, i as int).push(
            chars@[i as int],
        ));
        i = i + 1;
    }
    r
}

/// `s` begins with `p`.
pub open spec fn has_prefix(s: Seq<char>, p: Seq<char>) -> bool {
    p.len() <= s.len() && s.subrange(0, p.len() as int) == p
}

/// `p` occurs somewhere in `s`.
pub open spec fn has_infix(s: Seq<char>, p: Seq<char>) -> bool {
    exists|j: int| 0 <= j && j + p.len() <= s.len() && #[trigger] s.subrange(j, j + p.len()) == p
}

/// Whether `chars[lo..hi]` begins with `p`.
pub fn slice_has_prefix(chars: &Vec<char>, lo: usize, hi: usize, p: &Vec<char>) -> (r: bool)
    requires
        lo <= hi <= chars@.len(),
    ensures
        r == has_prefix(chars@.subrange(lo as int, hi as int), p@),
{
    let ghost s = chars@.subrange(lo as int, hi as int);
    if p.len() > hi - lo {
        return false;
    }
    let mut j: usize = 0;
    while j < p.len()
        invariant
            lo <= hi <= chars@.len(),
            s == chars@.subrange(lo as int, hi as int),
            p@.len() <= s.len(),
            j <= p@.len(),
            forall|k: int| 0 <= k < j ==> s[k] == p@[k],
        decreases p@.len() - j,
    {
        if chars[lo + j] != p[j] {
            assert(s.subrange(0, p@.len() as int)[j as int] != p@[j as int]);
            return false;
        }
        j = j + 1;
    }
    assert(s.subrange(0, p@.len() as int) =~= p@);
    true
}

/// Whether `chars[lo..hi]` is exactly `p`.
pub fn slice_equals(chars: &Vec<char>, lo: usize, hi: usize, p: &Vec<char>) -> (r: bool)
    requires
        lo <= hi <= chars@.len(),
    ensures
        r == (chars@.subrange(lo as int, hi as int) == p@),
{
    if p.len() != hi - lo {
        return false;
    }
    let r = slice_has_prefix(chars, lo, hi, p);
    proof {
        let s = chars@.subrange(lo as int, hi as int);
        assert(s.subrange(0, s.len() as int) =~= s);
    }
    r
}

/// Whether `p` occurs in `chars[lo..hi]`.
pub fn slice_has_infix(chars: &Vec<char>, lo: usize, hi: usize, p: &Vec<char>) -> (r: bool)
    requires
        lo <= hi <= chars@.len(),
    ensures
        r == has_infix(chars@.subrange(lo as int, hi as int), p@),
{
    let ghost s = chars@.subrange(lo as int, hi as int);
    if p.len() > hi - lo {
        return false;
    }
    if p.len() == 0 {
        assert(s.subrange(0, 0 + p@.len() as int) =~= p@);
        return true;
    }
    let mut j: usize = lo;
    while p.len() <= hi - j
        invariant
            lo <= j <= hi <= chars@.len(),
            p@.len() > 0,
            s == chars@.subrange(lo as int, hi as int),
            p@.len() <= hi - lo,
            forall|k: int| 0 <= k < j - lo ==> #[trigger] s.subrange(k, k + p@.len()) != p@,
        decreases hi - j,
    {
        if slice_has_prefix(chars, j, hi, p) {
            assert(s.subrange(j - lo, j - lo + p@.len()) =~= chars@.subrange(j as int, hi as int).subrange(0, p@.len() as int));
            return true;
        }
        assert(s.subrange(j - lo, j - lo + p@.len()) =~= chars@.subrange(j as int, hi as int).subrange(0, p@.len() as int));
        j = j + 1;
    }
    false
}

/// `s` without the white space at its end.
pub open spec fn trim_end(s: Seq<char>) -> Seq<char>
    decreases s.len(),
{
    if s.len() > 0 && white_space(s.last()) {
        trim_end(s.drop_last())
    } else {
        s
    }
}

/// `s` without the white space at its start.
pub open spec fn trim_start(s: Seq<char>) -> Seq<char>
    decreases s.len(),
{
    if s.len() > 0 && white_space(s[0]) {
        trim_start(s.drop_first())
    } else {
        s
    }
}

/// `s` without the white space at either end.
pub open spec fn trim(s: Seq<char>) -> Seq<char> {
    trim_start(trim_end(s))
}

/// The end of `chars[lo..hi]` once white space at its end is dropped.
pub fn trimmed_end(chars: &Vec<char>, lo: usize, hi: usize) -> (e: usize)
    requires
        lo <= hi <= chars@.len(),
    ensures
        lo <= e <= hi,
        chars@.subrange(lo as int, e as int) == trim_end(chars@.subrange(lo as int, hi as int)),
{
    let mut e: usize = hi;
    while e > lo && is_white_space(chars[e - 1])
        invariant
            lo <= e <= hi <= chars@.len(),
            trim_end(chars@.subrange(lo as int, e as int)) == trim_end(
                chars@.subrange(lo as int, hi as int),
            ),
        decreases e,
    {
        assert(chars@.subrange(lo as int, e as int).drop_last() =~= chars@.subrange(
            lo as int,
            e - 1,
        ));
        e = e - 1;
    }
    e
}

/// The start of `chars[lo..hi]` once white space at its start is dropped.
pub fn trimmed_start(chars: &Vec<char>, lo: usize, hi: usize) -> (b: usize)
    requires
        lo <= hi <= chars@.len(),
    ensures
        lo <= b <= hi,
        chars@.subrange(b as int, hi as int) == trim_start(chars@.subrange(lo as int, hi as int)),
{
    let mut b: usize = lo;
    while b < hi && is_white_space(chars[b])
        invariant
            lo <= b <= hi <= chars@.len(),
            trim_start(chars@.subrange(b as int, hi as int)) == trim_start(
                chars@.subrange(lo as int, hi as int),
            ),
        decreases hi - b,
    {
        assert(chars@.subrange(b as int, hi as int).drop_first() =~= chars@.subrange(
            b + 1,
            hi as int,
        ));
        b = b + 1;
    }
    b
}

/// The bounds of `chars[lo..hi]` once white space at both ends is dropped.
pub fn trimmed(chars: &Vec<char>, lo: usize, hi: usize) -> (r: (usize, usize))
    requires
        lo <= hi <= chars@.len(),
    ensures
        lo <= r.0 <= r.1 <= hi,
        chars@.subrange(r.0 as int, r.1 as int) == trim(chars@.subrange(lo as int, hi as int)),
{
    let e = trimmed_end(chars, lo, hi);
    let b = trimmed_start(chars, lo, e);
    (b, e)
}

/// `s` with white space dropped at both ends.
pub fn trim_str(s: &str) -> (r: String)
    ensures
        r@ == trim(s@),
{
    let chars = chars_of(s);
    let (b, e) = trimmed(&chars, 0, chars.len());
    assert(chars@.subrange(0, chars@.len() as int) =~= chars@);
    string_of(&chars, b, e)
}

/// The characters that normalization keeps when punctuation is dropped.
pub open spec fn kept(c: char) -> bool {
    alphanumeric(c) || white_space(c)
}

/// `kept`, as a predicate on characters.
pub open spec fn kept_fn() -> spec_fn(char) -> bool {
    |c: char| kept(c)
}

/// The normal form of a headword: without punctuation unless `all_chars`, and in lower case
/// unless `case_sensitive`.
pub open spec fn normalized(s: Seq<char>, all_chars: bool, case_sensitive: bool) -> Seq<char> {
    let f = if all_chars {
        s
    } else {
        s.filter(kept_fn())
    };
    if case_sensitive {
        f
    } else {
        lowercase(f)
    }
}

/// The normal form of `s`, as `normalized` describes it.
pub fn normalize_str(s: &str, all_chars: bool, case_sensitive: bool) -> (r: String)
    ensures
        r@ == normalized(s@, all_chars, case_sensitive),
{
    let mut f = String::new();
    if all_chars {
        f = String::from_str(s);
    } else {
        let chars = chars_of(s);
        let mut i: usize = 0;
        while i < chars.len()
            invariant
                0 <= i <= chars@.len(),
                chars@ == s@,
                f@ == chars@.subrange(0, i as int).filter(kept_fn()),
            decreases chars@.len() - i,
        {
            let c = chars[i];
            proof {
                assert(chars@.subrange(0, i + 1) =~= chars@.subrange(0, i as int).push(c));
                chars@.subrange(0, i as int).lemma_filter_push(c, kept_fn());
            }
            if is_alphanumeric(c) || is_white_space(c) {
                push_char(&mut f, c);
            }
            i = i + 1;
        }
        assert(chars@.subrange(0, chars@.len() as int) =~= s@);
    }
    if case_sensitive {
        f
    } else {
        to_lowercase(f.as_str())
    }
}

/// `a` comes strictly before `b` in the order of code points, a proper prefix first.
pub open spec fn lex_lt(a: Seq<char>, b: Seq<char>) -> bool
    decreases a.len(),
{
    if a.len() == 0 {
        b.len() > 0
    } else if b.len() == 0 {
        false
    } else if a[0] != b[0] {
        a[0] < b[0]
    } else {
        lex_lt(a.drop_first(), b.drop_first())
    }
}

/// `a` does not come after `b`.
pub open spec fn lex_le(a: Seq<char>, b: Seq<char>) -> bool {
    !lex_lt(b, a)
}

/// Two strings are equal or one comes before the other, and not both ways.
pub proof fn lemma_lex_total(a: Seq<char>, b: Seq<char>)
    ensures
        lex_lt(a, b) || a == b || lex_lt(b, a),
        !(lex_lt(a, b) && lex_lt(b, a)),
        !lex_lt(a, a),
    decreases a.len(),
{
    if a.len() > 0 && b.len() > 0 {
        lemma_lex_total(a.drop_first(), b.drop_first());
        lemma_lex_total(a.drop_first(), a.drop_first());
        if a[0] == b[0] && a.drop_first() == b.drop_first() {
            assert(a =~= seq![a[0]] + a.drop_first());
            assert(b =~= seq![b[0]] + b.drop_first());
        }
    } else if a.len() > 0 {
        lemma_lex_total(a.drop_first(), a.drop_first());
    } else if b.len() == 0 {
        assert(a =~= b);
    }
}

/// The order is transitive.
pub proof fn lemma_lex_trans(a: Seq<char>, b: Seq<char>, c: Seq<char>)
    requires
        lex_lt(a, b),
        lex_lt(b, c),
    ensures
        lex_lt(a, c),
    decreases a.len(),
{
    if a.len() > 0 && b.len() > 0 && c.len() > 0 && a[0] == b[0] && b[0] == c[0] {
        lemma_lex_trans(a.drop_first(), b.drop_first(), c.drop_first());
    }
}

/// How `a` compares with `b`: negative when `a` comes first, zero when equal, positive when
/// `b` comes first.
pub fn compare(a: &Vec<char>, b: &Vec<char>) -> (r: i8)
    ensures
        r < 0 <==> lex_lt(a@, b@),
        r == 0 <==> a@ == b@,
        r > 0 <==> lex_lt(b@, a@),
{
    proof {
        lemma_lex_total(a@, b@);
    }
    let mut i: usize = 0;
    assert(a@.subrange(0, a@.len() as int) =~= a@);
    assert(b@.subrange(0, b@.len() as int) =~= b@);
    while i < a.len() && i < b.len()
        invariant
            i <= a@.len(),
            i <= b@.len(),
            a@.subrange(0, i as int) == b@.subrange(0, i as int),
            lex_lt(a@, b@) == lex_lt(a@.subrange(i as int, a@.len() as int), b@.subrange(i as int, b@.len() as int)),
            lex_lt(b@, a@) == lex_lt(b@.subrange(i as int, b@.len() as int), a@.subrange(i as int, a@.len() as int)),
            lex_lt(a@, b@) || a@ == b@ || lex_lt(b@, a@),
            !(lex_lt(a@, b@) && lex_lt(b@, a@)),
        decreases a@.len() - i,
    {
        let x = a[i];
        let y = b[i];
        let ghost ra = a@.subrange(i as int, a@.len() as int);
        let ghost rb = b@.subrange(i as int, b@.len() as int);
        if x != y {
            assert(ra[0] == x && rb[0] == y);
            if x < y {
                return -1;
            } else {
                return 1;
            }
        }
        assert(ra.drop_first() =~= a@.subrange(i + 1, a@.len() as int));
        assert(rb.drop_first() =~= b@.subrange(i + 1, b@.len() as int));
        assert(a@.subrange(0, i + 1) =~= a@.subrange(0, i as int).push(x));
        assert(b@.subrange(0, i + 1) =~= b@.subrange(0, i as int).push(y));
        i = i + 1;
    }
    if i < b.len() {
        assert(a@.subrange(i as int, a@.len() as int).len() == 0);
        -1
    } else if i < a.len() {
        assert(b@.subrange(i as int, b@.len() as int).len() == 0);
        1
    } else {
        assert(a@ =~= a@.subrange(0, i as int));
        assert(b@ =~= b@.subrange(0, i as int));
        0
    }
}

} // verus!

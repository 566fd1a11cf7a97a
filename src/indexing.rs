//! Decoding of the numbers of `.index` files.
//!
//! Offsets and lengths are written in a base-64 notation whose digits are
//! `A..Z a..z 0..9 + /`, standing for `0..63`, most significant digit first.
use vstd::prelude::*;

use crate::index::{line_entry, lines_from, IndexError};
use crate::text::{chars_of, trim_end};

verus! {

/// The value of a digit, or `None` for a character outside the alphabet.
pub open spec fn digit_value(c: char) -> Option<nat> {
    if 'A' <= c && c <= 'Z' {
        Some((c as nat - 65) as nat)
    } else if 'a' <= c && c <= 'z' {
        Some((c as nat - 71) as nat)
    } else if '0' <= c && c <= '9' {
        Some((c as nat + 4) as nat)
    } else if c == '+' {
        Some(62)
    } else if c == '/' {
        Some(63)
    } else {
        None
    }
}

pub open spec fn is_digit(c: char) -> bool {
    digit_value(c) is Some
}

/// Every character of `s` is a digit.
pub open spec fn all_digits(s: Seq<char>) -> bool {
    forall|i: int| 0 <= i < s.len() ==> is_digit(#[trigger] s[i])
}

/// The number that a string of digits stands for; the empty string stands for 0.
pub open spec fn decoded(s: Seq<char>) -> nat
    decreases s.len(),
{
    if s.len() == 0 {
        0
    } else {
        decoded(s.drop_last()) * 64 + digit_value(s.last()).unwrap_or(0)
    }
}

/// The result of decoding the field `l[lo..hi]` of line `line`: its value, or the error for
/// its first character outside the alphabet, or for a value that does not fit in 64 bits.
pub open spec fn field_value(l: Seq<char>, lo: int, hi: int, line: usize) -> Result<u64, IndexError> {
    let f = l.subrange(lo, hi);
    let k = first_non_digit(f, 0);
    if k < f.len() {
        Err(IndexError::InvalidCharacter(f[k], line, (lo + k) as usize))
    } else if decoded(f) > u64::MAX {
        Err(IndexError::NumberTooLarge(line, lo as usize))
    } else {
        Ok(decoded(f) as u64)
    }
}

/// Index of the first character of `s` that is not a digit, at or after `i`.
pub open spec fn first_non_digit(s: Seq<char>, i: int) -> int
    decreases s.len() - i,
{
    if i >= s.len() || i < 0 {
        s.len() as int
    } else if !is_digit(s[i]) {
        i
    } else {
        first_non_digit(s, i + 1)
    }
}

/// The value of a digit, or `None` for a character outside the alphabet.
pub fn get_base(ch: char) -> (r: Option<u64>)
    ensures
        r matches Some(v) ==> digit_value(ch) == Some(v as nat),
        r is None ==> digit_value(ch) is None,
{
    if 'A' <= ch && ch <= 'Z' {
        Some(ch as u64 - 65)
    } else if 'a' <= ch && ch <= 'z' {
        Some(ch as u64 - 71)
    } else if '0' <= ch && ch <= '9' {
        Some(ch as u64 + 4)
    } else if ch == '+' {
        Some(62)
    } else if ch == '/' {
        Some(63)
    } else {
        None
    }
}

/// Every digit string of `s` from `i` on holds a digit where `first_non_digit` stops short of
/// the end: it stops at a character outside the alphabet.
proof fn lemma_first_non_digit_stops(s: Seq<char>, i: int)
    requires
        0 <= i <= s.len(),
    ensures
        i <= first_non_digit(s, i) <= s.len(),
        first_non_digit(s, i) < s.len() ==> !is_digit(s[first_non_digit(s, i)]),
    decreases s.len() - i,
{
    if i < s.len() && is_digit(s[i]) {
        lemma_first_non_digit_stops(s, i + 1);
    }
}

/// Decodes a number written in the index's base-64 digits, most significant digit first.
/// The empty string stands for 0.
///
/// A character outside the alphabet gives `InvalidCharacter` with the first such character
/// and its position (on line 0); a value of 2^64 or more gives `NumberTooLarge`.
pub fn decode_number(word: &str) -> (r: Result<u64, IndexError>)
    ensures
        r is Ok <==> all_digits(word@) && decoded(word@) <= u64::MAX,
        r matches Ok(v) ==> v == decoded(word@),
        !all_digits(word@) ==> r == Err::<u64, IndexError>(
            IndexError::InvalidCharacter(
                word@[first_non_digit(word@, 0)],
                0,
                first_non_digit(word@, 0) as usize,
            ),
        ),
        all_digits(word@) && decoded(word@) > u64::MAX ==> r == Err::<u64, IndexError>(
            IndexError::NumberTooLarge(0, 0),
        ),
{
    let chars = chars_of(word);
    let r = decode_field(&chars, 0, chars.len(), 0);
    proof {
        let s = word@;
        assert(chars@.subrange(0, chars@.len() as int) =~= s);
        lemma_first_non_digit_stops(s, 0);
        if first_non_digit(s, 0) == s.len() {
            assert forall|j: int| 0 <= j < s.len() implies is_digit(#[trigger] s[j]) by {
                lemma_first_non_digit_skips(s, 0, j);
            }
        }
    }
    r
}

/// The digit that stands for `v`, for `v < 64`.
pub open spec fn digit_char(v: nat) -> char {
    if v < 26 {
        (v + 65) as char
    } else if v < 52 {
        (v + 71) as char
    } else if v < 62 {
        (v - 4) as char
    } else if v == 62 {
        '+'
    } else {
        '/'
    }
}

/// The shortest digit string for `n`: no leading `A`, and empty for 0.
pub open spec fn encoded(n: nat) -> Seq<char>
    decreases n,
{
    if n == 0 {
        seq![]
    } else {
        encoded(n / 64).push(digit_char(n % 64))
    }
}

/// `s` without its leading `A`s, the digit for 0.
pub open spec fn strip_leading_zeros(s: Seq<char>) -> Seq<char>
    decreases s.len(),
{
    if s.len() > 0 && s[0] == 'A' {
        strip_leading_zeros(s.drop_first())
    } else {
        s
    }
}

proof fn lemma_digit_char(v: nat)
    requires
        v < 64,
    ensures
        is_digit(digit_char(v)),
        digit_value(digit_char(v)) == Some(v),
{
}

proof fn lemma_digit_value_char(c: char)
    requires
        is_digit(c),
    ensures
        digit_value(c).unwrap() < 64,
        digit_char(digit_value(c).unwrap()) == c,
{
}

proof fn lemma_decoded_push(s: Seq<char>, c: char)
    ensures
        decoded(s.push(c)) == decoded(s) * 64 + digit_value(c).unwrap_or(0),
{
    assert(s.push(c).drop_last() =~= s);
}

/// Decoding undoes encoding: for every `n`, the digits of `encoded(n)` stand for `n`.
pub proof fn lemma_decode_encode(n: nat)
    ensures
        all_digits(encoded(n)),
        decoded(encoded(n)) == n,
    decreases n,
{
    if n > 0 {
        lemma_decode_encode(n / 64);
        lemma_digit_char(n % 64);
        lemma_decoded_push(encoded(n / 64), digit_char(n % 64));
        let e = encoded(n / 64);
        assert forall|i: int| 0 <= i < e.push(digit_char(n % 64)).len() implies is_digit(
            #[trigger] e.push(digit_char(n % 64))[i],
        ) by {
            if i < e.len() {
                assert(is_digit(e[i]));
            }
        }
    }
}

proof fn lemma_strip_push(s: Seq<char>, c: char)
    ensures
        strip_leading_zeros(s.push(c)) == if strip_leading_zeros(s).len() == 0 && c == 'A' {
            seq![]
        } else {
            strip_leading_zeros(s).push(c)
        },
    decreases s.len(),
{
    if s.len() > 0 && s[0] == 'A' {
        assert(s.push(c).drop_first() =~= s.drop_first().push(c));
        lemma_strip_push(s.drop_first(), c);
    } else if s.len() == 0 {
        assert(s.push(c).drop_first() =~= s);
        if c == 'A' {
            assert(strip_leading_zeros(s.push(c)) == strip_leading_zeros(s.push(c).drop_first()));
        }
    }
}

/// Encoding undoes decoding up to leading zeros: a digit string and the shortest encoding of
/// its value differ only by the leading `A`s of the string.
pub proof fn lemma_encode_decode(s: Seq<char>)
    requires
        all_digits(s),
    ensures
        encoded(decoded(s)) == strip_leading_zeros(s),
    decreases s.len(),
{
    if s.len() > 0 {
        let p = s.drop_last();
        let c = s.last();
        assert(s == p.push(c));
        assert(all_digits(p)) by {
            assert forall|i: int| 0 <= i < p.len() implies is_digit(#[trigger] p[i]) by {
                assert(p[i] == s[i]);
            }
        }
        assert(is_digit(s[s.len() - 1]));
        lemma_encode_decode(p);
        lemma_digit_value_char(c);
        lemma_strip_push(p, c);
        let v = digit_value(c).unwrap();
        let d = decoded(s);
        assert(d == decoded(p) * 64 + v);
        assert(d / 64 == decoded(p) && d % 64 == v) by (nonlinear_arith)
            requires
                d == decoded(p) * 64 + v,
                v < 64,
        ;
        if d == 0 {
            assert(decoded(p) == 0 && v == 0) by (nonlinear_arith)
                requires
                    d == decoded(p) * 64 + v,
                    d == 0,
                    v < 64,
            ;
        } else if decoded(p) == 0 {
            assert(v > 0);
            assert(c != 'A');
        }
    } else {
        assert(strip_leading_zeros(s) == s);
    }
}

/// `decoded` grows with each digit appended: a prefix never stands for more than the whole.
proof fn lemma_prefix_le(s: Seq<char>, i: int)
    requires
        0 <= i <= s.len(),
    ensures
        decoded(s.subrange(0, i)) <= decoded(s),
    decreases s.len() - i,
{
    if i < s.len() {
        lemma_prefix_le(s, i + 1);
        lemma_decoded_step(s, i);
    } else {
        assert(s.subrange(0, i) =~= s);
    }
}

/// One step of the most-significant-first evaluation.
proof fn lemma_decoded_step(s: Seq<char>, i: int)
    requires
        0 <= i < s.len(),
    ensures
        decoded(s.subrange(0, i + 1)) == decoded(s.subrange(0, i)) * 64 + digit_value(
            s[i],
        ).unwrap_or(0),
{
    assert(s.subrange(0, i + 1).drop_last() =~= s.subrange(0, i));
}

/// Decodes the digits `chars[lo..hi]`, a field of line `line` of an index.
///
/// A character outside the alphabet is reported with its column; a value that does not fit
/// in 64 bits is reported with the column where the field starts.
pub(crate) fn decode_field(chars: &Vec<char>, lo: usize, hi: usize, line: usize) -> (r: Result<
    u64,
    IndexError,
>)
    requires
        lo <= hi <= chars@.len(),
    ensures
        r == field_value(chars@, lo as int, hi as int, line),
{
    let ghost f = chars@.subrange(lo as int, hi as int);
    let mut i: usize = lo;
    while i < hi
        invariant
            lo <= i <= hi <= chars@.len(),
            f == chars@.subrange(lo as int, hi as int),
            first_non_digit(f, 0) == first_non_digit(f, i - lo),
        decreases hi - i,
    {
        if get_base(chars[i]).is_none() {
            return Err(IndexError::InvalidCharacter(chars[i], line, i));
        }
        i = i + 1;
    }
    assert(all_digits(f)) by {
        assert forall|j: int| 0 <= j < f.len() implies is_digit(#[trigger] f[j]) by {
            lemma_first_non_digit_skips(f, 0, j);
        }
    }
    let mut acc: u64 = 0;
    let mut i: usize = lo;
    while i < hi
        invariant
            lo <= i <= hi <= chars@.len(),
            f == chars@.subrange(lo as int, hi as int),
            all_digits(f),
            first_non_digit(f, 0) == f.len(),
            acc as nat == decoded(f.subrange(0, i - lo)),
        decreases hi - i,
    {
        let v = match get_base(chars[i]) {
            Some(v) => v,
            None => 0,
        };
        proof {
            assert(f[i - lo] == chars@[i as int]);
            lemma_decoded_step(f, i - lo);
        }
        if acc > (u64::MAX - v) / 64 {
            proof {
                lemma_prefix_le(f, i - lo + 1);
            }
            return Err(IndexError::NumberTooLarge(line, lo));
        }
        acc = acc * 64 + v;
        i = i + 1;
    }
    assert(f.subrange(0, f.len() as int) =~= f);
    Ok(acc)
}

/// Every index that `first_non_digit` passes over on its way holds a digit.
proof fn lemma_first_non_digit_skips(s: Seq<char>, i: int, j: int)
    requires
        0 <= i <= j < s.len(),
        first_non_digit(s, i) == s.len(),
    ensures
        is_digit(s[j]),
    decreases j - i,
{
    if i < j {
        lemma_first_non_digit_skips(s, i + 1, j);
    }
}

/// A word with the offset and size of its definition.
pub type WordLocation = (Seq<char>, (u64, u64));

/// The words of the index lines `ls`, the first numbered `n`, with offsets and sizes, in file
/// order; or the error of the first line that does not parse.
pub open spec fn words_of_lines(ls: Seq<Seq<char>>, n: int) -> Result<Seq<WordLocation>, IndexError>
    decreases ls.len(),
{
    if ls.len() == 0 {
        Ok(seq![])
    } else {
        match line_entry(trim_end(ls[0]), n as usize) {
            Err(e) => Err(e),
            Ok(en) => match words_of_lines(ls.drop_first(), n + 1) {
                Err(e) => Err(e),
                Ok(rest) => Ok(seq![(en.0, (en.1.offset, en.1.size))] + rest),
            },
        }
    }
}

/// The position of the first word of `s` at or after `i` equal to `w`, or `s.len()`.
pub open spec fn first_with_word(s: Seq<WordLocation>, w: Seq<char>, i: int) -> int
    decreases s.len() - i,
{
    if i < 0 || i >= s.len() {
        s.len() as int
    } else if s[i].0 == w {
        i
    } else {
        first_with_word(s, w, i + 1)
    }
}

/// Words of an index with the offset and size of their definitions. Where a word occurs more
/// than once, its first occurrence counts.
pub struct Index {
    entries: Vec<(String, (u64, u64))>,
}

impl View for Index {
    type V = Seq<WordLocation>;

    closed spec fn view(&self) -> Seq<WordLocation> {
        self.entries@.map_values(|e: (String, (u64, u64))| (e.0@, e.1))
    }
}

impl Index {
    /// The offset and size of the first occurrence of `word`, if there is one.
    pub fn get(&self, word: &str) -> (r: Option<&(u64, u64)>)
        ensures
            ({
                let k = first_with_word(self@, word@, 0);
                if k < self@.len() {
                    r matches Some(v) && *v == self@[k].1
                } else {
                    r is None
                }
            }),
    {
        let w = String::from_str(word);
        let mut i: usize = 0;
        while i < self.entries.len()
            invariant
                0 <= i <= self.entries@.len(),
                w@ == word@,
                first_with_word(self@, word@, 0) == first_with_word(self@, word@, i as int),
            decreases self.entries@.len() - i,
        {
            if self.entries[i].0 == w {
                return Some(&self.entries[i].1);
            }
            i = i + 1;
        }
        None
    }

    /// Number of lines that were read into the index.
    pub fn len(&self) -> (r: usize)
        ensures
            r == self@.len(),
    {
        self.entries.len()
    }
}

/// Reads every line of an index text into a word table. Each line must parse; metadata
/// entries are kept like any other.
pub fn parse_index(text: &str) -> (r: Result<Index, IndexError>)
    ensures
        match r {
            Ok(index) => words_of_lines(lines_from(text@, 0), 0) == Ok::<Seq<WordLocation>, IndexError>(index@),
            Err(e) => words_of_lines(lines_from(text@, 0), 0) == Err::<Seq<WordLocation>, IndexError>(e),
        },
{
    let t = chars_of(text);
    let mut entries: Vec<(String, (u64, u64))> = Vec::new();
    let mut i: usize = 0;
    let mut n: usize = 0;
    let ghost acc: Seq<WordLocation> = seq![];
    proof {
        if let Ok(s) = words_of_lines(lines_from(t@, 0), 0) {
            assert(Seq::<WordLocation>::empty() + s =~= s);
        }
    }
    while i < t.len()
        invariant
            t@ == text@,
            n <= i <= t@.len(),
            acc == entries@.map_values(|e: (String, (u64, u64))| (e.0@, e.1)),
            words_of_lines(lines_from(t@, 0), 0) == (match words_of_lines(lines_from(t@, i as int), n as int) {
                Ok(s) => Ok(acc + s),
                Err(e) => Err(e),
            }),
        decreases t@.len() - i,
    {
        let e = crate::index::run_end(&t, i, '\n');
        let te = crate::text::trimmed_end(&t, i, e);
        let l = crate::index::sub_vec(&t, i, te);
        proof {
            crate::index::lemma_lines_step(t@, i as int, e as int);
        }
        let entry = match crate::index::parse_line(&l, n) {
            Ok(en) => en,
            Err(err) => return Err(err),
        };
        let item = (entry.headword, (entry.location.offset, entry.location.size));
        proof {
            let next = if e >= t@.len() { e as int } else { e + 1 };
            if let Ok(rest) = words_of_lines(lines_from(t@, next), n + 1) {
                assert(acc + (seq![(item.0@, item.1)] + rest) =~= acc.push((item.0@, item.1)) + rest);
            }
            acc = acc.push((item.0@, item.1));
        }
        entries.push(item);
        assert(acc =~= entries@.map_values(|e: (String, (u64, u64))| (e.0@, e.1)));
        if e >= t.len() {
            i = e;
        } else {
            i = e + 1;
        }
        n = n + 1;
    }
    assert(acc + seq![] =~= acc);
    Ok(Index { entries })
}

} // verus!

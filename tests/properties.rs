use dict::index::{parse, parse_metadata, Entry, Index, IndexError, Location};
use dict::indexing::decode_number;
use dict::{Compressed, Content, Dict, DictError, LookupResult, Uncompressed, MAX_BYTES_FOR_BUFFER};

const DIGITS: &[u8] = b"ABCDEFGHIJKLMNOPQRSTUVWXYZabcdefghijklmnopqrstuvwxyz0123456789+/";

/// The shortest digit string for `n` (empty for 0).
fn encode(mut n: u64) -> String {
    let mut out = Vec::new();
    while n > 0 {
        out.push(DIGITS[(n % 64) as usize]);
        n /= 64;
    }
    out.reverse();
    String::from_utf8(out).unwrap()
}

/// A digit string that is never empty.
fn b64(n: u64) -> String {
    if n == 0 {
        "A".to_string()
    } else {
        encode(n)
    }
}

fn raw_deflate(data: &[u8]) -> Vec<u8> {
    let mut c = flate2::Compress::new(flate2::Compression::default(), false);
    let mut out = Vec::with_capacity(data.len() + 128);
    c.compress_vec(data, &mut out, flate2::FlushCompress::Finish).unwrap();
    out
}

/// A dictzip file holding `content` in chunks of `chunk` bytes.
fn dictzip(content: &[u8], chunk: usize, name: Option<&[u8]>, comment: Option<&[u8]>) -> Vec<u8> {
    let chunks: Vec<Vec<u8>> = content.chunks(chunk).map(raw_deflate).collect();
    let n = chunks.len();
    let xlen = 10 + 2 * n;
    let mut flags = 0x04u8;
    if name.is_some() {
        flags |= 0x08;
    }
    if comment.is_some() {
        flags |= 0x10;
    }
    let mut d = vec![0x1F, 0x8B, 8, flags, 0, 0, 0, 0, 0, 3];
    d.extend_from_slice(&(xlen as u16).to_le_bytes());
    d.extend_from_slice(b"RA");
    d.extend_from_slice(&((xlen - 4) as u16).to_le_bytes());
    d.extend_from_slice(&1u16.to_le_bytes());
    d.extend_from_slice(&(chunk as u16).to_le_bytes());
    d.extend_from_slice(&(n as u16).to_le_bytes());
    for c in &chunks {
        d.extend_from_slice(&(c.len() as u16).to_le_bytes());
    }
    if let Some(s) = name {
        d.extend_from_slice(s);
        d.push(0);
    }
    if let Some(s) = comment {
        d.extend_from_slice(s);
        d.push(0);
    }
    for c in &chunks {
        d.extend_from_slice(c);
    }
    d.extend_from_slice(&(content.len() as u32).to_le_bytes());
    d.extend_from_slice(&[0, 0, 0, 0]);
    d
}

const TEXT: &[u8] = b"0123456789abcdefghijklmnopqrstuvwxyzABCDEFGHIJKLMNOPQRSTUVWXYZ";

fn at(offset: u64, size: u64) -> Location {
    Location::new(offset, size)
}

// Base-64 digits

#[test]
fn decode_round_trip_of_encoded_numbers() {
    let mut samples = vec![0u64, 1, 25, 26, 63, 64, 65, 4095, 4096, 226751, 14546358];
    let mut x: u64 = 12345;
    for _ in 0..200 {
        x = x.wrapping_mul(6364136223846793005).wrapping_add(1442695040888963407);
        samples.push(x % (1u64 << 40));
    }
    samples.push((1u64 << 40) - 1);
    for n in samples {
        assert_eq!(decode_number(&encode(n)).unwrap(), n);
    }
}

#[test]
fn encode_of_decode_strips_leading_zero_digits() {
    for s in ["AAc", "A", "3W/", "AA3fW2", "B", "zA"] {
        let stripped = s.trim_start_matches('A');
        assert_eq!(encode(decode_number(s).unwrap()), stripped);
    }
    assert_eq!(decode_number("").unwrap(), 0);
}

#[test]
fn digit_alphabet_values() {
    let cases = [
        ("A", 0), ("Z", 25), ("a", 26), ("z", 51), ("0", 52), ("9", 61), ("+", 62), ("/", 63),
        ("c", 28), ("3fW2", 14546358),
    ];
    for (s, v) in cases {
        assert_eq!(decode_number(s).unwrap(), v);
    }
}

#[test]
fn base64_corner_value() {
    assert_eq!(decode_number("3W/").unwrap(), 226751);
}

#[test]
fn decode_limits_to_sixty_four_bits() {
    assert_eq!(decode_number("P//////////").unwrap(), u64::MAX);
    assert_eq!(decode_number("Q//////////").unwrap_err(), IndexError::NumberTooLarge(0, 0));
    assert_eq!(decode_number("AAAAP//////////").unwrap(), u64::MAX);
}

#[test]
fn decode_reports_first_bad_character() {
    assert_eq!(decode_number("AB*C-").unwrap_err(), IndexError::InvalidCharacter('*', 0, 2));
}

// Index lines

#[test]
fn well_formed_index_line() {
    let entries = parse("word\toffset\tlength").unwrap();
    assert_eq!(
        entries,
        vec![Entry { headword: "word".into(), location: at(43478075309, 40242121569), original: None }]
    );
}

#[test]
fn two_line_index_in_file_order() {
    let entries = parse("word\toffset\tlength\nanother\ta0b\tc").unwrap();
    assert_eq!(entries.len(), 2);
    assert_eq!(entries[0].headword, "word");
    assert_eq!(entries[0].location, at(43478075309, 40242121569));
    assert_eq!(entries[1].headword, "another");
    assert_eq!(entries[1].location, at(109851, 28));
}

#[test]
fn bad_digit_in_index_line() {
    let err = parse("valid word\tinvalid_offset\tDA").unwrap_err();
    assert_eq!(err, IndexError::InvalidCharacter('_', 0, 18));
}

#[test]
fn missing_column_reports_line() {
    assert_eq!(parse("a\tA\tA\nb\tA").unwrap_err(), IndexError::MissingColumnInIndex(1));
    assert_eq!(parse("a\tA\tA\n\nb\tA\tB").unwrap_err(), IndexError::MissingColumnInIndex(1));
}

#[test]
fn parse_keeps_fourth_column_skips_metadata_and_tolerates_crlf() {
    let text = "00-database-info\tA\tB\r\nfoo bar\tB\tC\tFoo-Bar\r\nbaz\tC\tD\r\n";
    let entries = parse(text).unwrap();
    assert_eq!(
        entries,
        vec![
            Entry { headword: "foo bar".into(), location: at(1, 2), original: Some("Foo-Bar".into()) },
            Entry { headword: "baz".into(), location: at(2, 3), original: None },
        ]
    );
}

#[test]
fn metadata_flags_and_locations() {
    let text = "junk\tA\tA\n00-database-info\tB\tC\n00databaseshort\tD\tE\n00-database-url\tF\tG\n\
                00-database-allchars\tA\tA\n00-database-case-sensitive\tA\tA\n\
                00-database-dictfmt-1.12\tA\tA\nword\tA\tB\n00-database-x-case\tA\tA\n";
    let m = parse_metadata(text).unwrap();
    assert_eq!(m.info, Some(at(1, 2)));
    assert_eq!(m.short_name, Some(at(3, 4)));
    assert_eq!(m.url, Some(at(5, 6)));
    assert!(m.all_chars && m.case_sensitive && m.should_normalize);

    let m = parse_metadata("00-database-short\tA\tB\nword\tA\tB\n00-database-allchars\tA\tA\n").unwrap();
    assert_eq!(m.short_name, Some(at(0, 1)));
    assert!(!m.all_chars && !m.case_sensitive && !m.should_normalize);
    assert_eq!(m.info, None);
}

// Content readers

#[test]
fn uncompressed_size_and_range_checks() {
    let mut text = vec![b'u'; MAX_BYTES_FOR_BUFFER as usize + 10];
    text[0] = b'x';
    let u = Uncompressed::new(text).unwrap();
    assert!(matches!(u.fetch_definition(at(0, MAX_BYTES_FOR_BUFFER + 1)), Err(DictError::MemoryError)));
    assert_eq!(u.fetch_definition(at(0, MAX_BYTES_FOR_BUFFER)).unwrap().len(), MAX_BYTES_FOR_BUFFER as usize);
    assert!(matches!(u.fetch_definition(at(15, MAX_BYTES_FOR_BUFFER)), Err(DictError::IoError(_))));
    assert!(matches!(u.fetch_definition(at(u64::MAX, 1)), Err(DictError::IoError(_))));
    assert_eq!(u.fetch_definition(at(MAX_BYTES_FOR_BUFFER + 10, 0)).unwrap(), "");
}

#[test]
fn invalid_utf8_is_reported() {
    let u = Uncompressed::new(vec![b'a', 0xFF, b'b']).unwrap();
    assert!(matches!(u.fetch_definition(at(0, 3)), Err(DictError::Utf8Error(_))));
    assert_eq!(u.fetch_bytes(at(0, 3)).unwrap(), vec![b'a', 0xFF, b'b']);
}

#[test]
fn dictzip_fetch_equals_slice_of_content() {
    let file = dictzip(TEXT, 16, Some(b"name.dict"), None);
    let c = Compressed::new(file).unwrap();
    assert_eq!(c.chunk_count(), 4);
    assert_eq!(c.uchunk_length(), 16);
    assert_eq!(c.ufile_length(), TEXT.len() as u64);
    for offset in 0..=TEXT.len() as u64 {
        for size in 0..=(TEXT.len() as u64 - offset) {
            let got = c.fetch_bytes(at(offset, size)).unwrap();
            assert_eq!(got, &TEXT[offset as usize..(offset + size) as usize], "{} {}", offset, size);
        }
    }
    assert_eq!(c.fetch_definition(at(10, 22)).unwrap(), "abcdefghijklmnopqrstuv");
    assert_eq!(c.fetch_definition(at(16, 16)).unwrap(), "ghijklmnopqrstuv");
}

#[test]
fn dictzip_size_and_range_checks() {
    let c = Compressed::new(dictzip(TEXT, 16, None, None)).unwrap();
    assert!(matches!(c.fetch_bytes(at(0, MAX_BYTES_FOR_BUFFER + 1)), Err(DictError::MemoryError)));
    assert!(matches!(c.fetch_bytes(at(60, 3)), Err(DictError::IoError(_))));
    assert!(matches!(c.fetch_bytes(at(9999999999, 888)), Err(DictError::IoError(_))));
}

#[test]
fn dictzip_with_comment_and_without_name() {
    let c = Compressed::new(dictzip(TEXT, 20, None, Some(b"hi there"))).unwrap();
    assert_eq!(c.fetch_definition(at(18, 5)).unwrap(), "ijklm");
    let c = Compressed::new(dictzip(TEXT, 20, Some(b"x"), Some(b"hi there"))).unwrap();
    assert_eq!(c.fetch_definition(at(0, 62)).unwrap().as_bytes(), TEXT);
}

#[test]
fn dictzip_header_checks() {
    let good = dictzip(TEXT, 16, Some(b"name"), None);
    let bad = |i: usize, v: u8| {
        let mut d = good.clone();
        d[i] = v;
        Compressed::new(d)
    };
    assert!(matches!(Compressed::new(vec![0x1F, 0x8C]), Err(DictError::InvalidFileFormat(_))));
    assert!(matches!(Compressed::new(vec![0x1F]), Err(DictError::IoError(_))));
    assert!(matches!(Compressed::new(vec![0x1F, 0x8B, 8]), Err(DictError::IoError(_))));
    assert!(matches!(bad(1, 0x8C), Err(DictError::InvalidFileFormat(_))));
    assert!(matches!(bad(3, 0), Err(DictError::InvalidFileFormat(_))));
    assert!(matches!(bad(12, 0), Err(DictError::InvalidFileFormat(_))));
    assert!(matches!(bad(14, 8), Err(DictError::InvalidFileFormat(_))));
    assert!(matches!(bad(16, 0), Err(DictError::InvalidFileFormat(_))));
    assert!(matches!(bad(20, 0), Err(DictError::InvalidFileFormat(_))));
    assert!(matches!(bad(20, 9), Err(DictError::InvalidFileFormat(_))));
    let empty_chunks = bad(18, 0).unwrap();
    assert_eq!(empty_chunks.uchunk_length(), 0);
    assert_eq!(empty_chunks.fetch_bytes(at(5, 0)).unwrap(), Vec::<u8>::new());
    assert!(matches!(empty_chunks.fetch_bytes(at(5, 1)), Err(DictError::IoError(_))));
    assert!(matches!(Compressed::new(good[..30].to_vec()), Err(DictError::IoError(_))));
    assert!(matches!(Compressed::new(good[..good.len() - 9].to_vec()), Err(DictError::IoError(_))));
    assert!(Compressed::new(good).is_ok());
}

#[test]
fn dictzip_chunk_that_does_not_inflate() {
    let mut file = dictzip(TEXT, 16, None, None);
    let first_chunk = 12 + 18;
    file[first_chunk] = 0xFF;
    file[first_chunk + 1] = 0xFF;
    let c = Compressed::new(file).unwrap();
    assert!(matches!(c.fetch_bytes(at(2, 3)), Err(DictError::Deflate(_))));
    assert_eq!(c.fetch_bytes(at(20, 3)).unwrap(), b"klm".to_vec());
}

#[test]
fn content_reader_chosen_by_magic() {
    assert!(matches!(Content::from_bytes(dictzip(TEXT, 16, None, None)), Ok(Content::Dz(_))));
    assert!(matches!(Content::from_bytes(TEXT.to_vec()), Ok(Content::Raw(_))));
    assert!(matches!(Content::from_bytes(vec![0x1F, 0x8B, 0]), Err(DictError::IoError(_))));
}

// Dictionaries

fn index_line(word: &str, offset: usize, size: usize) -> String {
    format!("{}\t{}\t{}\n", word, b64(offset as u64), b64(size as u64))
}

/// Content and index for the given (headword, definition) pairs, plus extra index lines
/// placed first.
fn build(pairs: &[(&str, &str)], extra: &[(&str, &str)]) -> (Vec<u8>, String) {
    let mut content = String::new();
    let mut index = String::new();
    for (word, def) in extra.iter().chain(pairs.iter()) {
        index.push_str(&index_line(word, content.len(), def.len()));
        content.push_str(def);
    }
    (content.into_bytes(), index)
}

#[test]
fn chunk_split_definition() {
    let defs = [
        ("amo", "amo\nlieben\n"),
        ("circumfero", "circumfero\nherumtragen, herumtreiben\n"),
        ("vultus", "vultus\nGesicht\n"),
    ];
    let (content, index) = build(&defs, &[]);
    let boundary = 16;
    assert!(content.len() > 2 * boundary);
    let mut dict = Dict::from_bytes(dictzip(&content, boundary, Some(b"lat-deu.dict"), None), &index).unwrap();
    let res = dict.lookup("circumfero", false, false).unwrap();
    assert_eq!(res.len(), 1);
    assert!(res[0].headword.starts_with("circumfero"));
    assert!(res[0].definition.starts_with("circumfero"));
    assert!(res[0].definition.ends_with("herumtreiben\n"));
    assert_eq!(dict.lookup("vultus", false, false).unwrap()[0].definition, "vultus\nGesicht\n");
    assert!(matches!(
        dict.lookup("testtesttest", false, false),
        Err(DictError::IndexError(IndexError::WordNotFound(_)))
    ));
}

fn case_insensitive_dict() -> Dict {
    let defs = [
        ("bar", "Bar\ntest for case-sensitivity\n"),
        ("straße", "straße\ntest for non-latin case-sensitivity\n"),
    ];
    let (content, index) = build(&defs, &[("00-database-short", "00-database-short\n  Test dictionary \n")]);
    Dict::from_bytes(content, &index).unwrap()
}

#[test]
fn fuzzy_lookup_within_one_edit() {
    let mut dict = case_insensitive_dict();
    let res = dict.lookup("ba", true, false).unwrap();
    assert_eq!(res.len(), 1);
    assert_eq!(res[0].headword, "bar");
    assert_eq!(dict.lookup("bas", true, false).unwrap()[0].headword, "bar");
    assert!(dict.lookup("b", true, false).is_err());
    assert_eq!(dict.lookup("strase", true, true).unwrap()[0].headword, "straße");
}

#[test]
fn metadata_text_drops_first_line_and_trims() {
    let dict = case_insensitive_dict();
    assert_eq!(dict.metadata().short_name, Some("Test dictionary".to_string()));
    assert_eq!(dict.metadata().info, None);
    assert!(!dict.metadata().case_sensitive);
}

#[test]
fn normalized_headwords_keep_their_original() {
    let defs = [("Foo-Bar", "first\n"), ("apple", "second\n")];
    let (content, index) = build(&defs, &[("00-database-dictfmt-1.12.1", "x")]);
    let mut ix = Index::new(&index).unwrap();
    let found = ix.find("FOOBAR!", false, false).unwrap();
    assert_eq!(found.len(), 1);
    assert_eq!(found[0].headword, "foobar");
    assert_eq!(found[0].original, Some("Foo-Bar".to_string()));
    assert_eq!(ix.entries()[0].headword, "apple");
    let mut dict = Dict::from_bytes(content, &index).unwrap();
    let res = dict.lookup("foo bar", false, false);
    assert!(res.is_err());
    let res = dict.lookup("foobar", false, false).unwrap();
    assert_eq!(res[0].headword, "Foo-Bar");
    assert_eq!(res[0].definition, "first\n");
}

#[test]
fn equal_headwords_come_back_as_one_run_in_index_order() {
    let text = "pear\tA\tB\napple\tB\tB\nzebra\tC\tB\napple\tD\tB\nmango\tE\tB\napple\tF\tB\n";
    let mut ix = Index::new(text).unwrap();
    let found = ix.find("apple", false, false).unwrap();
    let offsets: Vec<u64> = found.iter().map(|e| e.location.offset).collect();
    assert_eq!(offsets, vec![1, 3, 5]);
    let words: Vec<String> = ix.entries().iter().map(|e| e.headword.clone()).collect();
    assert_eq!(words, vec!["apple", "apple", "apple", "mango", "pear", "zebra"]);
    assert!(matches!(ix.find("kiwi", false, false), Err(IndexError::WordNotFound(w)) if w == "kiwi"));
}

#[test]
fn lookup_reports_bad_index_lines() {
    let mut ix = Index::new("00-database-short\tA\tA\na\tA\tA\nb\tA\n").unwrap();
    assert_eq!(ix.find("a", false, false).unwrap_err(), IndexError::MissingColumnInIndex(2));
    assert_eq!(ix.find("a", false, false).unwrap_err(), IndexError::MissingColumnInIndex(2));
    assert_eq!(Index::new("a\tA\tA\nb\tA\n").err(), Some(IndexError::MissingColumnInIndex(1)));
    assert_eq!(Location::new(5, 7).as_range(), 5..12);
}

#[test]
fn error_descriptions() {
    assert_eq!(DictError::MemoryError.description(), "not enough memory available");
    assert_eq!(
        DictError::IndexError(IndexError::MissingColumnInIndex(3)).description(),
        "not enough <tab>-separated columns given"
    );
}

#[test]
fn white_space_list_agrees_with_std() {
    for u in 0..=0x10FFFFu32 {
        if let Some(c) = char::from_u32(u) {
            assert_eq!(dict::text::is_white_space(c), c.is_whitespace(), "{:x}", u);
        }
    }
}

use dict::index::{Entry, Index, Location};

fn loc(offset: u64, size: u64) -> Location {
    Location { offset, size }
}

// Index parsing

#[test]
#[should_panic]
fn invalid_line() {
    let reader = "blabla\nblublbub yo";
    Index::new(reader).unwrap();
}

#[test]
#[should_panic]
fn invalid_column() {
    let reader = "only one\t(tab) character";
    Index::new(reader).unwrap();
}

#[test]
fn good_line() {
    let reader = "word\toffset\tlength";
    let mut index = Index::new(reader).unwrap();

    assert_eq!(
        index.find("word", false, false).unwrap(),
        vec![Entry {
            headword: "word".into(),
            location: loc(43478075309, 40242121569),
            original: None
        }]
    );
}

#[test]
fn two_entries_parsed() {
    let reader = "another\ta0b\tc\nword\toffset\tlength";
    let mut index = Index::new(reader).unwrap();

    assert_eq!(
        index.find("word", false, false).unwrap(),
        vec![Entry {
            headword: "word".into(),
            location: loc(43478075309, 40242121569),
            original: None
        }]
    );
    assert_eq!(
        index.find("another", false, false).unwrap(),
        vec![Entry {
            headword: "another".into(),
            location: loc(109851, 28),
            original: None
        }]
    );
}

#[test]
#[should_panic]
fn number_parsing_fails() {
    let reader = "valid word\tinvalid_offset\tDA";
    Index::new(reader).unwrap();
}

// Test indexes

/// The index of a small case-insensitive dictionary, whose entry "bar" is at 443, 30 bytes.
fn case_insensitive_index() -> String {
    "apfel\tA\to\nbar\tG7\te\nstraße\tHZ\ts\n".to_string()
}

#[test]
fn test_index_find() {
    let index = case_insensitive_index();
    let mut index = Index::new(&index).unwrap();

    // Nonexistant word
    assert!(index.find("apples", false, false).is_err());

    // Without fuzzy
    let results = index.find("bar", false, false).unwrap();
    let expected = vec![
        Entry{
            headword: "bar".into(),
            location: loc(443, 30),
            original: None,
        }
    ];
    assert_eq!(results, expected);

    // With fuzzy
    let results = index.find("bas", true, false).unwrap();
    let expected = vec![
        Entry{
            headword: "bar".into(),
            location: loc(443, 30),
            original: None,
        }
    ];
    assert_eq!(results, expected);
}

use dict::index::{Index, Location};
use dict::{Compressed, Content, Dict, DictError, Uncompressed, MAX_BYTES_FOR_BUFFER};

fn str2file(input: &str) -> Vec<u8> {
    input.as_bytes().to_vec()
}

fn mk_dict(x: Vec<u8>) -> Uncompressed {
    Uncompressed::new(x).unwrap()
}

fn at(offset: u64, size: u64) -> Location {
    Location::new(offset, size)
}

#[test]
fn test_that_dictreader_does_to_correct_position() {
    let text = str2file("Ignore me: important");
    assert_eq!(mk_dict(text).fetch_definition(at(11, 9)).unwrap(), "important");
}

#[test]
fn test_that_seeking_to_beginning_works() {
    let text = str2file("abcdefg");
    assert_eq!(mk_dict(text).fetch_definition(at(0, 3)).unwrap(), "abc");
}

#[test]
#[should_panic]
fn test_that_seeking_beyond_file_is_caught() {
    let text = str2file("xyz is too short ;)");
    mk_dict(text).fetch_definition(at(66642, 18)).unwrap();
}

#[test]
#[should_panic]
fn test_that_reading_beyond_file_boundary_is_caught() {
    let text = str2file("blablablup");
    mk_dict(text).fetch_definition(at(0, 424242)).unwrap();
}

#[test]
#[should_panic]
fn test_error_if_length_is_too_large() {
    let mut longfile = String::with_capacity(MAX_BYTES_FOR_BUFFER as usize + 10);
    for _ in 0..(MAX_BYTES_FOR_BUFFER + 10) {
        longfile.push('u');
    }
    let text = str2file(&longfile);
    mk_dict(text).fetch_definition(at(0, MAX_BYTES_FOR_BUFFER + 1)).unwrap();
}

#[test]
#[should_panic]
fn test_files_with_incorrect_file_id_are_detected() {
    let data = vec![0x1F, 0x8C];
    Compressed::new(data).unwrap();
}

// A small Latin-German test dictionary in the layout of a typical dictzip file: seven
// dictzip chunks, a 13-byte file name right after the 36-byte header, "amo" in the first
// chunk, "vultus" in the last, and "circumfero" across a chunk boundary.

const CHUNK: usize = 64;

fn raw_deflate(data: &[u8]) -> Vec<u8> {
    let mut c = flate2::Compress::new(flate2::Compression::default(), false);
    let mut out = Vec::with_capacity(data.len() + 128);
    c.compress_vec(data, &mut out, flate2::FlushCompress::Finish).unwrap();
    out
}

fn dictzip(content: &[u8], chunk: usize, name: &[u8]) -> Vec<u8> {
    let chunks: Vec<Vec<u8>> = content.chunks(chunk).map(raw_deflate).collect();
    let n = chunks.len();
    let xlen = 10 + 2 * n;
    let mut d = vec![0x1F, 0x8B, 8, 0x04 | 0x08, 0, 0, 0, 0, 0, 3];
    d.extend_from_slice(&(xlen as u16).to_le_bytes());
    d.extend_from_slice(b"RA");
    d.extend_from_slice(&((xlen - 4) as u16).to_le_bytes());
    d.extend_from_slice(&1u16.to_le_bytes());
    d.extend_from_slice(&(chunk as u16).to_le_bytes());
    d.extend_from_slice(&(n as u16).to_le_bytes());
    for c in &chunks {
        d.extend_from_slice(&(c.len() as u16).to_le_bytes());
    }
    d.extend_from_slice(name);
    d.push(0);
    for c in &chunks {
        d.extend_from_slice(c);
    }
    d.extend_from_slice(&(content.len() as u32).to_le_bytes());
    d.extend_from_slice(&[0, 0, 0, 0]);
    d
}

fn digits(mut n: usize) -> String {
    const DIGITS: &[u8] = b"ABCDEFGHIJKLMNOPQRSTUVWXYZabcdefghijklmnopqrstuvwxyz0123456789+/";
    let mut out = vec![DIGITS[n % 64]];
    n /= 64;
    while n > 0 {
        out.push(DIGITS[n % 64]);
        n /= 64;
    }
    out.reverse();
    String::from_utf8(out).unwrap()
}

/// The content and the index of the test dictionary.
fn lat_deu() -> (Vec<u8>, String) {
    let mut content = String::new();
    let mut index = String::new();
    let mut add = |content: &mut String, word: &str, def: &str| {
        index.push_str(&format!("{}\t{}\t{}\n", word, digits(content.len()), digits(def.len())));
        content.push_str(def);
    };
    let pad = |content: &mut String, word: &str, to: usize| {
        let fill = to - content.len() - word.len() - 2;
        format!("{}\n{}\n", word, "-".repeat(fill))
    };
    add(&mut content, "00-database-short", "00-database-short\nLatin - German FreeDict dictionary ver. 0.4\n");
    add(&mut content, "amo", "amo\nlieben\n");
    let def = pad(&mut content, "ferrum", 2 * CHUNK - 10);
    add(&mut content, "ferrum", &def);
    add(&mut content, "circumfero", "circumfero\nherumtragen, herumtreiben\n");
    let def = pad(&mut content, "lapis", 200);
    add(&mut content, "lapis", &def);
    add(&mut content, "mater", "mater\nMutter\n");
    let def = pad(&mut content, "terra", 400);
    add(&mut content, "terra", &def);
    add(&mut content, "vultus", "vultus\nGesicht, Miene\n");
    (content.into_bytes(), index)
}

fn load_resource(name: &str) -> Vec<u8> {
    match name {
        "lat-deu.dict.dz" => dictzip(&lat_deu().0, CHUNK, b"lat-deu.dict"),
        "lat-deu.index" => lat_deu().1.into_bytes(),
        _ => panic!("no such resource: {}", name),
    }
}

fn example_dictionary() -> Result<Dict, DictError> {
    let index = String::from_utf8(load_resource("lat-deu.index")).unwrap();
    Dict::from_bytes(load_resource("lat-deu.dict.dz"), &index)
}

#[test]
fn test_files_with_correct_file_id_work() {
    let file = load_resource("lat-deu.dict.dz");
    Compressed::new(file).unwrap();
}

#[test]
#[should_panic]
fn test_gzip_files_without_fextra_panic() {
    let mut data = load_resource("lat-deu.dict.dz");
    data[3] = 0; // reset flags field to 0
    Compressed::new(data).unwrap();
}

#[test]
#[should_panic]
fn test_that_file_with_invalid_si_bytes_is_reported() {
    // SI1 SI2 are the identification of the dictzip extension
    let mut data = load_resource("lat-deu.dict.dz");
    data[12] = 0;
    data[13] = 0;
    Compressed::new(data).unwrap();
}

#[test]
#[should_panic]
fn test_gzip_with_invalid_version_num_are_reported() {
    // the dictzip format specifies a field called "VER"
    let mut data = load_resource("lat-deu.dict.dz");
    data[16] = 0;
    data[17] = 0;
    Compressed::new(data).unwrap();
}

#[test]
#[should_panic]
fn test_mismatching_subfield_length_and_fextra_length_is_reported() {
    let mut data = load_resource("lat-deu.dict.dz");
    data[14] = 8;
    data[15] = 9;
    Compressed::new(data).unwrap();
}

#[test]
#[should_panic]
fn test_chunk_count_may_not_be_0() {
    let mut data = load_resource("lat-deu.dict.dz");
    data[20] = 0;
    data[21] = 0;
    Compressed::new(data).unwrap();
}

#[test]
#[should_panic]
fn test_chunk_count_and_xlen_must_match() {
    let mut data = load_resource("lat-deu.dict.dz");
    data[20] = 8;
    data[21] = 9;
    Compressed::new(data).unwrap();
}

#[test]
fn test_retrieval_of_a_word_which_doesnt_exist_yields_error() {
    let mut dict = example_dictionary().unwrap();
    assert!(dict.lookup("testtesttest", false, false).is_err());
}

#[test]
fn test_retrieval_of_a_word_which_exists_works() {
    let mut dict = example_dictionary().unwrap();
    let word = dict.lookup("mater", false, false).unwrap();
    assert!(word[0].definition.starts_with("mater"));
}

#[test]
fn test_that_word_from_first_chunk_works() {
    let mut dict = example_dictionary().unwrap();
    let word = dict.lookup("amo", false, false).unwrap();
    assert!(word[0].definition.starts_with("amo"));
}

#[test]
fn test_lookup_into_last_chunk_works() {
    let mut dict = example_dictionary().unwrap();
    let word = dict.lookup("vultus", false, false).unwrap();
    assert!(word[0].definition.starts_with("vultus"));
}

#[test]
fn test_that_definitions_wrapping_around_chunk_border_are_extracted_correctly() {
    let mut dict = example_dictionary().unwrap();
    // the definition of circumfero is split into two chunks
    let word = dict.lookup("circumfero", false, false).unwrap();
    assert!(word[0].definition.starts_with("circumfero"));
    // last word from definition must be present, too
    assert!(word[0].definition.ends_with("herumtreiben\n"));
}

#[test]
fn test_files_with_comment_is_parsed_correctly() {
    let mut data = load_resource("lat-deu.dict.dz");
    // set comment bit to 1
    data[3] |= dict::compressed::GZ_COMMENT;
    // add comment _after_ file name: the header is 36 bytes + 13 bytes file name
    let mut newdata: Vec<u8> = Vec::with_capacity(data.len() - 13);
    newdata.extend(&data[0..49]);
    // "h", "i", " ", "t", "h", "e", "r", "e"
    newdata.extend(vec![104u8, 105u8, 32u8, 116u8, 104u8, 101u8, 114u8, 101u8, 0u8]);
    newdata.extend(&data[49..]);

    let data = Compressed::new(newdata).unwrap();
    let index = Index::new(&String::from_utf8(load_resource("lat-deu.index")).unwrap()).unwrap();
    let mut dict = Dict::from_existing(Content::Dz(data), index).unwrap();
    let word = dict.lookup("mater", false, false).unwrap();
    assert!(word[0].definition.starts_with("mater"));
}

#[test]
fn test_file_without_file_name_is_parsed_correctly() {
    let mut data = load_resource("lat-deu.dict.dz");
    // reset fname bit to 0
    data[3] &= !dict::compressed::GZ_FNAME;
    // remove the 13-byte file name, which starts at position 36
    let mut newdata: Vec<u8> = Vec::with_capacity(data.len() - 13);
    newdata.extend(&data[0..36]);
    newdata.extend(&data[49..]);

    let data = Compressed::new(newdata).unwrap();
    let index = Index::new(&String::from_utf8(load_resource("lat-deu.index")).unwrap()).unwrap();
    let mut dict = Dict::from_existing(Content::Dz(data), index).unwrap();
    let word = dict.lookup("mater", false, false).unwrap();
    assert!(word[0].definition.starts_with("mater"));
}

#[test]
#[should_panic]
fn test_that_seek_beyond_end_of_file_is_detected() {
    let dict = Content::from_bytes(load_resource("lat-deu.dict.dz")).unwrap();
    dict.fetch_definition(at(9999999999u64, 888u64)).unwrap();
}

#[test]
fn dictreader_test_number_of_parsed_chunks_is_correct() {
    let rsrc = load_resource("lat-deu.dict.dz");
    let d = Compressed::new(rsrc).unwrap();
    assert_eq!(d.chunk_count(), 7);
}

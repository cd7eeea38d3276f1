use whar::error::ArchiveError;
use whar::header::{chars_code, code_chars, Header};
use whar::table::CodeTable;

fn bits(text: &str) -> Vec<bool> {
    text.chars().map(|c| c == '1').collect()
}

fn chars(text: &str) -> Vec<char> {
    text.chars().collect()
}

fn small_header() -> Header {
    Header::new(
        "0.0.1".to_string(),
        vec!["a".to_string()],
        vec![2],
        CodeTable { entries: vec![('3', bits("0"))] },
    )
}

const SMALL_BYTES: [u8; 64] = [
    5, 0, 0, 0, 0, 0, 0, 0, 48, 46, 48, 46, 49, 1, 0, 0, 0, 0, 0, 0, 0, 1, 0, 0, 0, 0, 0, 0, 0, 97,
    1, 0, 0, 0, 0, 0, 0, 0, 2, 0, 0, 0, 0, 0, 0, 0, 1, 0, 0, 0, 0, 0, 0, 0, 51, 1, 0, 0, 0, 0, 0,
    0, 0, 48,
];

#[test]
fn new_keeps_the_fields() {
    let header = Header::new(
        "0.0.1".to_string(),
        vec!["a.txt".to_string(), "b.txt".to_string()],
        vec![6, 6],
        CodeTable { entries: vec![('x', bits("01"))] },
    );
    assert_eq!(header.version, "0.0.1");
    assert_eq!(header.file_names, vec!["a.txt".to_string(), "b.txt".to_string()]);
    assert_eq!(header.file_sizes, vec![6, 6]);
    assert_eq!(header.code_table.entries, vec![('x', bits("01"))]);
}

#[test]
fn serialized_header_carries_every_length() {
    assert_eq!(small_header().get_serialized().unwrap(), SMALL_BYTES.to_vec());
}

#[test]
fn serialized_header_ends_with_the_last_code() {
    let header = Header::new(
        "0.0.1".to_string(),
        vec!["n".to_string()],
        vec![3],
        CodeTable { entries: vec![('a', bits("0")), ('b', bits("11")), ('c', bits("10"))] },
    );
    let bytes = header.get_serialized().unwrap();
    assert_eq!(&bytes[bytes.len() - 2..], b"10");
}

#[test]
fn deserialized_header_is_the_one_written() {
    let header = Header::get_deserialized(&SMALL_BYTES).unwrap();
    assert_eq!(header.version, "0.0.1");
    assert_eq!(header.file_names, vec!["a".to_string()]);
    assert_eq!(header.file_sizes, vec![2]);
    assert_eq!(header.code_table.entries, vec![('3', bits("0"))]);
}

#[test]
fn header_round_trips_through_bytes() {
    let header = Header::new(
        "0.0.1".to_string(),
        vec!["dir/a.txt".to_string(), "b".to_string(), "".to_string()],
        vec![6, 0, 1234567],
        CodeTable {
            entries: vec![('a', bits("0")), ('\u{e9}', bits("100")), ('c', bits("101")), ('$', bits("11"))],
        },
    );
    let bytes = header.get_serialized().unwrap();
    let back = Header::get_deserialized(&bytes).unwrap();
    assert_eq!(back.version, header.version);
    assert_eq!(back.file_names, header.file_names);
    assert_eq!(back.file_sizes, header.file_sizes);
    assert_eq!(back.code_table.entries, header.code_table.entries);
}

#[test]
fn truncated_header_is_a_format_error() {
    for cut in [0, 1, 7, 12, 20, 40, 63] {
        assert_eq!(Header::get_deserialized(&SMALL_BYTES[..cut]).err(), Some(ArchiveError::Format));
    }
}

#[test]
fn malformed_header_is_a_format_error() {
    let mut bytes = SMALL_BYTES.to_vec();
    // a string length far beyond the bytes
    bytes[0] = 200;
    assert_eq!(Header::get_deserialized(&bytes).err(), Some(ArchiveError::Format));
    let mut bytes = SMALL_BYTES.to_vec();
    // a symbol that is no character
    bytes[54] = 0xff;
    assert_eq!(Header::get_deserialized(&bytes).err(), Some(ArchiveError::Format));
}

#[test]
fn other_version_is_a_format_error() {
    let mut bytes = SMALL_BYTES.to_vec();
    bytes[12] = b'2';
    assert_eq!(Header::get_deserialized(&bytes).err(), Some(ArchiveError::Format));
}

#[test]
fn code_of_other_characters_is_a_format_error() {
    let mut bytes = SMALL_BYTES.to_vec();
    bytes[63] = b'2';
    assert_eq!(Header::get_deserialized(&bytes).err(), Some(ArchiveError::Format));
}

#[test]
fn from_fields_checks_the_header() {
    let version = || "0.0.1".to_string();
    let names = || vec!["a".to_string(), "b".to_string()];
    let table = || vec![('x', chars("0")), ('y', chars("1"))];
    let ok = Header::from_fields(version(), names(), vec![1, 2], table()).unwrap();
    assert_eq!(ok.file_sizes, vec![1, 2]);
    assert_eq!(ok.code_table.entries, vec![('x', bits("0")), ('y', bits("1"))]);
    // one size for two names
    assert_eq!(
        Header::from_fields(version(), names(), vec![1], table()).err(),
        Some(ArchiveError::Format)
    );
    // another version
    assert_eq!(
        Header::from_fields("0.0.2".to_string(), names(), vec![1, 2], table()).err(),
        Some(ArchiveError::Format)
    );
    // an empty code
    assert_eq!(
        Header::from_fields(version(), names(), vec![1, 2], vec![('x', chars(""))]).err(),
        Some(ArchiveError::Format)
    );
    // a code that begins another
    assert_eq!(
        Header::from_fields(
            version(),
            names(),
            vec![1, 2],
            vec![('x', chars("0")), ('y', chars("01"))]
        )
        .err(),
        Some(ArchiveError::Format)
    );
    // a symbol twice
    assert_eq!(
        Header::from_fields(
            version(),
            names(),
            vec![1, 2],
            vec![('x', chars("0")), ('x', chars("1"))]
        )
        .err(),
        Some(ArchiveError::Format)
    );
    // another character than 0 and 1
    assert_eq!(
        Header::from_fields(version(), names(), vec![1, 2], vec![('x', chars("0a"))]).err(),
        Some(ArchiveError::Format)
    );
}

#[test]
fn empty_table_and_no_files_make_a_header() {
    let header = Header::from_fields("0.0.1".to_string(), vec![], vec![], vec![]).unwrap();
    assert_eq!(header.file_names.len(), 0);
    assert_eq!(header.code_table.len(), 0);
}

#[test]
fn codes_are_written_as_zeros_and_ones() {
    assert_eq!(code_chars(&bits("0110")), chars("0110"));
    assert_eq!(code_chars(&vec![]), chars(""));
    assert_eq!(chars_code(&chars("0110")), Some(bits("0110")));
    assert_eq!(chars_code(&chars("")), Some(vec![]));
    assert_eq!(chars_code(&chars("01x0")), None);
}

#[test]
fn serialization_outcome_is_mapped() {
    assert_eq!(Header::serialized(Ok(vec![1, 2, 3])), Ok(vec![1, 2, 3]));
    let failure: Box<bincode::ErrorKind> = Box::new(bincode::ErrorKind::SizeLimit);
    assert_eq!(Header::serialized(Err(failure)), Err(ArchiveError::Format));
}

#[test]
fn every_header_cut_short_is_a_format_error() {
    let headers = vec![
        small_header(),
        Header::new("0.0.1".to_string(), vec![], vec![], CodeTable::new()),
        Header::new(
            "0.0.1".to_string(),
            vec!["dir/a.txt".to_string(), "".to_string(), "caf\u{e9}".to_string()],
            vec![6, 0, 1234567],
            CodeTable {
                entries: vec![
                    ('a', bits("0")),
                    ('\u{e9}', bits("100")),
                    ('\u{1f600}', bits("101")),
                    ('$', bits("11")),
                ],
            },
        ),
    ];
    for header in headers {
        let bytes = header.get_serialized().unwrap();
        assert!(Header::get_deserialized(&bytes).is_ok());
        for cut in 0..bytes.len() {
            assert_eq!(Header::get_deserialized(&bytes[..cut]).err(), Some(ArchiveError::Format));
        }
    }
}

#[test]
fn header_of_another_version_is_written_and_not_read() {
    let header = Header::new(
        "9.9.9".to_string(),
        vec!["a".to_string()],
        vec![2],
        CodeTable { entries: vec![('3', bits("0"))] },
    );
    let bytes = header.get_serialized().unwrap();
    assert_eq!(&bytes[8..13], b"9.9.9");
    assert_eq!(Header::get_deserialized(&bytes).err(), Some(ArchiveError::Format));
}

#[test]
fn header_that_is_not_well_formed_is_written_and_not_read() {
    // two names, one size
    let header = Header::new(
        "0.0.1".to_string(),
        vec!["a".to_string(), "b".to_string()],
        vec![2],
        CodeTable { entries: vec![('3', bits("0"))] },
    );
    let bytes = header.get_serialized().unwrap();
    assert_eq!(Header::get_deserialized(&bytes).err(), Some(ArchiveError::Format));
    // a table in which one code begins another
    let header = Header::new(
        "0.0.1".to_string(),
        vec!["a".to_string()],
        vec![2],
        CodeTable { entries: vec![('x', bits("0")), ('y', bits("01"))] },
    );
    let bytes = header.get_serialized().unwrap();
    assert_eq!(Header::get_deserialized(&bytes).err(), Some(ArchiveError::Format));
}

#[test]
fn writing_a_header_twice_gives_the_same_bytes() {
    let header = small_header();
    assert_eq!(header.get_serialized(), header.get_serialized());
    assert_eq!(header.file_names, vec!["a".to_string()]);
}

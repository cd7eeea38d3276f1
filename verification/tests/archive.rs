use whar::archive::{archive, assemble, extract, split_archive, split_files};
use whar::error::ArchiveError;
use whar::header::Header;
use whar::pack::huffe;
use whar::transcode::{decoded, from_text};
use whar::unpack::huffd;

fn chars(text: &str) -> Vec<char> {
    text.chars().collect()
}

fn file(name: &str, bytes: &[u8]) -> (String, Vec<u8>) {
    (name.to_string(), bytes.to_vec())
}

#[test]
fn two_text_files_go_in_and_come_out() {
    let files = vec![file("a.txt", b"AAAB"), file("b.txt", b"BBBC")];
    let bytes = archive(&files).unwrap();
    let (header_bytes, payload) = split_archive(&bytes).unwrap();
    let header = Header::get_deserialized(header_bytes).unwrap();
    assert_eq!(header.version, "0.0.1");
    assert_eq!(header.file_names, vec!["a.txt".to_string(), "b.txt".to_string()]);
    assert_eq!(header.file_sizes, vec![6, 6]);
    assert_eq!(header_bytes.len(), 190);
    assert_eq!(payload, &[135, 100, 101, 251, 48]);
    assert_eq!(extract(&bytes).unwrap(), files);
}

#[test]
fn archive_is_header_marks_payload() {
    let files = vec![file("a", b"A")];
    let bytes = archive(&files).unwrap();
    let header = Header::new(
        "0.0.1".to_string(),
        vec!["a".to_string()],
        vec![2],
        huffe(&chars("33")).unwrap().1,
    );
    let mut expected = header.get_serialized().unwrap();
    expected.extend_from_slice(b"$$");
    expected.push(0);
    assert_eq!(bytes, expected);
}

#[test]
fn payload_decodes_to_the_transcoded_text() {
    let bytes = archive(&[file("a.txt", b"AAAB")]).unwrap();
    let (header_bytes, payload) = split_archive(&bytes).unwrap();
    let header = Header::get_deserialized(header_bytes).unwrap();
    let text = huffd(payload, &header.code_table);
    assert_eq!(&text[..6], &chars("38&\"3J")[..]);
}

#[test]
fn sizes_sum_to_the_length_of_the_text() {
    let files = vec![file("a", b"hello"), file("b", b""), file("c", b"\x00"), file("d", b"AAAB")];
    let bytes = archive(&files).unwrap();
    let (header_bytes, payload) = split_archive(&bytes).unwrap();
    let header = Header::get_deserialized(header_bytes).unwrap();
    assert_eq!(header.file_sizes, vec![7, 0, 2, 6]);
    let text = huffd(payload, &header.code_table);
    let total: usize = header.file_sizes.iter().sum();
    assert!(text.len() >= total);
    assert_eq!(&text[..total], &chars("D'9XE'm!!38&\"3J")[..]);
}

#[test]
fn empty_file_among_others() {
    let files = vec![file("empty.bin", b""), file("other.bin", b"\x01\x02\x03")];
    let bytes = archive(&files).unwrap();
    let back = extract(&bytes).unwrap();
    assert_eq!(back, files);
    assert_eq!(back[0].1.len(), 0);
}

#[test]
fn only_empty_files_leave_no_tree() {
    assert_eq!(archive(&[file("empty", b"")]).err(), Some(ArchiveError::Tree));
    assert_eq!(archive(&[]).err(), Some(ArchiveError::Tree));
}

#[test]
fn archive_cut_in_the_header_is_a_format_error() {
    let bytes = archive(&[file("a.txt", b"AAAB"), file("b.txt", b"BBBC")]).unwrap();
    for cut in [0, 1, 10, 50, 100, 150, 189] {
        assert_eq!(extract(&bytes[..cut]).err(), Some(ArchiveError::Format));
    }
}

#[test]
fn header_cut_short_before_the_marks_is_a_format_error() {
    let bytes = archive(&[file("a.txt", b"AAAB")]).unwrap();
    let (header_bytes, payload) = split_archive(&bytes).unwrap();
    // the header loses its middle but keeps a last byte `0` or `1`
    let mut broken = header_bytes[..40].to_vec();
    broken.push(b'1');
    let broken = assemble(broken, payload.to_vec());
    assert_eq!(extract(&broken).err(), Some(ArchiveError::Format));
}

#[test]
fn round_trip_of_binary_files() {
    let all: Vec<u8> = (0..=255).collect();
    let files = vec![
        file("dir/all.bin", &all),
        file("one", b"x"),
        file("dir/sub/zeros", &[0; 100]),
        file("text.txt", b"The quick brown fox jumps over the lazy dog"),
    ];
    let bytes = archive(&files).unwrap();
    assert_eq!(extract(&bytes).unwrap(), files);
}

#[test]
fn round_trip_of_a_single_symbol_text() {
    // three zero bytes are the text "!!!!"
    let files = vec![file("z", &[0, 0, 0])];
    let bytes = archive(&files).unwrap();
    let (header_bytes, _) = split_archive(&bytes).unwrap();
    let header = Header::get_deserialized(header_bytes).unwrap();
    assert_eq!(header.code_table.entries, vec![('!', vec![false])]);
    assert_eq!(extract(&bytes).unwrap(), files);
}

#[test]
fn name_with_a_boundary_in_it_breaks_the_archive() {
    let files = vec![file("x0$$y", b"AAAB")];
    let bytes = archive(&files).unwrap();
    assert_eq!(extract(&bytes).err(), Some(ArchiveError::Format));
}

#[test]
fn split_finds_the_first_boundary() {
    let (header, payload) = split_archive(b"ab1$$xy0$$z").unwrap();
    assert_eq!(header, b"ab1");
    assert_eq!(payload, b"xy0$$z");
    let (header, payload) = split_archive(b"0$$").unwrap();
    assert_eq!(header, b"0");
    assert_eq!(payload, b"");
}

#[test]
fn split_wants_a_bit_character_before_the_marks() {
    assert_eq!(split_archive(b"ab$$xy").err(), Some(ArchiveError::Format));
    assert_eq!(split_archive(b"$$").err(), Some(ArchiveError::Format));
    assert_eq!(split_archive(b"").err(), Some(ArchiveError::Format));
    assert_eq!(split_archive(b"1$").err(), Some(ArchiveError::Format));
    assert_eq!(split_archive(b"2$$abc").err(), Some(ArchiveError::Format));
    let (header, payload) = split_archive(b"a$$b1$$c").unwrap();
    assert_eq!(header, b"a$$b1");
    assert_eq!(payload, b"c");
}

#[test]
fn assemble_puts_two_marks_between() {
    assert_eq!(assemble(b"h1".to_vec(), vec![7, 8]), b"h1$$\x07\x08".to_vec());
    assert_eq!(assemble(vec![], vec![]), b"$$".to_vec());
}

#[test]
fn split_then_assemble_is_the_archive() {
    let bytes = archive(&[file("a.txt", b"AAAB"), file("b.txt", b"BBBC")]).unwrap();
    let (header, payload) = split_archive(&bytes).unwrap();
    assert_eq!(assemble(header.to_vec(), payload.to_vec()), bytes);
}

#[test]
fn split_files_cuts_by_sizes() {
    let text = chars("abcdefgh");
    assert_eq!(
        split_files(&text, &[3, 0, 2]).unwrap(),
        vec![chars("abc"), chars(""), chars("de")]
    );
    assert_eq!(split_files(&text, &[8]).unwrap(), vec![chars("abcdefgh")]);
    assert_eq!(split_files(&text, &[]).unwrap(), Vec::<Vec<char>>::new());
}

#[test]
fn split_files_beyond_the_text_is_a_format_error() {
    let text = chars("abcdefgh");
    assert_eq!(split_files(&text, &[3, 6]).err(), Some(ArchiveError::Format));
    assert_eq!(split_files(&text, &[9]).err(), Some(ArchiveError::Format));
    assert_eq!(split_files(&text, &[usize::MAX, 2]).err(), Some(ArchiveError::Format));
    assert_eq!(split_files(&[], &[1]).err(), Some(ArchiveError::Format));
}

#[test]
fn sizes_beyond_the_payload_are_a_format_error() {
    let text = chars("38&\"3J");
    let (payload, table) = huffe(&text).unwrap();
    let header = Header::new("0.0.1".to_string(), vec!["a".to_string()], vec![600], table);
    let bytes = assemble(header.get_serialized().unwrap(), payload);
    assert_eq!(extract(&bytes).err(), Some(ArchiveError::Format));
}

#[test]
fn text_that_is_no_transcoding_is_a_decode_error() {
    // `7` and `O` are not in the alphabet
    let text = chars("7O7O");
    let (payload, table) = huffe(&text).unwrap();
    let header = Header::new("0.0.1".to_string(), vec!["a".to_string()], vec![4], table);
    let bytes = assemble(header.get_serialized().unwrap(), payload);
    assert_eq!(extract(&bytes).err(), Some(ArchiveError::Decode));
}

#[test]
fn from_text_reads_the_alphabet() {
    assert_eq!(from_text(&chars("38&\"3J")), Ok(b"AAAB".to_vec()));
    assert_eq!(from_text(&chars("3N*#3`")), Ok(b"BBBC".to_vec()));
    assert_eq!(from_text(&chars("")), Ok(vec![]));
    assert_eq!(from_text(&chars("!!")), Ok(vec![0]));
    assert_eq!(from_text(&chars("7")), Err(ArchiveError::Decode));
    assert_eq!(from_text(&chars("3")), Err(ArchiveError::Decode));
    assert_eq!(from_text(&chars("38&\"3J==")), Err(ArchiveError::Decode));
    assert_eq!(from_text(&chars("\u{e9}\u{e9}")), Err(ArchiveError::Decode));
}

#[test]
fn decoding_outcome_is_mapped() {
    assert_eq!(decoded(Ok(vec![1, 2])), Ok(vec![1, 2]));
    assert_eq!(decoded(Err(base64::DecodeError::InvalidLength(1))), Err(ArchiveError::Decode));
}

#[test]
fn text_takes_four_characters_for_three_bytes() {
    let files: Vec<(String, Vec<u8>)> =
        (0..12usize).map(|n| (format!("f{}", n), vec![b'x'; n])).collect();
    let bytes = archive(&files).unwrap();
    let (header_bytes, _) = split_archive(&bytes).unwrap();
    let header = Header::get_deserialized(header_bytes).unwrap();
    assert_eq!(header.file_sizes, vec![0, 2, 3, 4, 6, 7, 8, 10, 11, 12, 14, 15]);
    assert_eq!(extract(&bytes).unwrap(), files);
}

#[test]
fn round_trip_of_a_long_file() {
    let long: Vec<u8> = (0..5000u32).map(|k| (k * 7 % 251) as u8).collect();
    let files = vec![file("long.bin", &long), file("short", b"!")];
    let bytes = archive(&files).unwrap();
    let (header_bytes, _) = split_archive(&bytes).unwrap();
    let header = Header::get_deserialized(header_bytes).unwrap();
    assert_eq!(header.file_sizes, vec![6667, 2]);
    assert_eq!(extract(&bytes).unwrap(), files);
}

#[test]
fn same_files_give_the_same_archive() {
    let files = vec![file("a.txt", b"AAAB"), file("b.txt", b"BBBC")];
    assert_eq!(archive(&files).unwrap(), archive(&files).unwrap());
}

#[test]
fn archive_cut_anywhere_in_the_header_is_a_format_error() {
    let bytes = archive(&[file("a.txt", b"AAAB"), file("b.txt", b"BBBC")]).unwrap();
    let (header_bytes, _) = split_archive(&bytes).unwrap();
    for cut in 0..=header_bytes.len() {
        assert_eq!(extract(&bytes[..cut]).err(), Some(ArchiveError::Format));
    }
}

#[test]
fn files_with_bytes_always_have_an_archive() {
    assert!(archive(&[file("", b"\x00")]).is_ok());
    assert!(archive(&[file("x0$$y", b"A"), file("x0$$y", b"")]).is_ok());
    assert!(archive(&[file("empty", b""), file("caf\u{e9}", &[255; 3])]).is_ok());
}

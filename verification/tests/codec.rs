use whar::error::ArchiveError;
use whar::pack::{huffe, pack};
use whar::table::CodeTable;
use whar::unpack::huffd;

fn chars(text: &str) -> Vec<char> {
    text.chars().collect()
}

fn bits(text: &str) -> Vec<bool> {
    text.chars().map(|c| c == '1').collect()
}

fn table(entries: &[(char, &str)]) -> CodeTable {
    CodeTable { entries: entries.iter().map(|e| (e.0, bits(e.1))).collect() }
}

#[test]
fn pack_fills_bytes_from_the_highest_bit() {
    let t = table(&[('B', "0"), ('A', "1")]);
    // 1 1 1 0, then four padding bits
    assert_eq!(pack(&chars("AAAB"), &t), vec![0b1110_0000]);
}

#[test]
fn pack_emits_a_byte_every_eight_bits() {
    let t = table(&[('a', "0"), ('c', "100"), ('d', "101"), ('b', "110"), ('r', "111")]);
    assert_eq!(pack(&chars("abracadabra"), &t), vec![110, 138, 220]);
}

#[test]
fn pack_of_exactly_eight_bits_has_no_padding_byte() {
    let t = table(&[('x', "01")]);
    assert_eq!(pack(&chars("xxxx"), &t), vec![0b0101_0101]);
}

#[test]
fn pack_of_nothing_is_empty() {
    let t = table(&[('x', "01")]);
    assert_eq!(pack(&[], &t), Vec::<u8>::new());
}

#[test]
fn pack_skips_symbols_without_a_code() {
    let t = table(&[('x', "1")]);
    assert_eq!(pack(&chars("x?x"), &t), vec![0b1100_0000]);
}

#[test]
fn huffd_reads_symbols_back() {
    let t = table(&[('a', "0"), ('c', "100"), ('d', "101"), ('b', "110"), ('r', "111")]);
    let text = huffd(&[110, 138, 220], &t);
    // the two padding bits read as one more `a`
    assert_eq!(text, chars("abracadabraa"));
}

#[test]
fn huffd_stops_where_no_code_matches() {
    let t = table(&[('a', "10"), ('b', "11")]);
    // 10 11 10 then 00: nothing begins with 0
    assert_eq!(huffd(&[0b1011_1000], &t), chars("aba"));
}

#[test]
fn huffd_of_nothing_is_empty() {
    let t = table(&[('a', "0")]);
    assert_eq!(huffd(&[], &t), Vec::<char>::new());
}

#[test]
fn huffd_with_empty_table_reads_nothing() {
    assert_eq!(huffd(&[1, 2, 3], &CodeTable::new()), Vec::<char>::new());
}

#[test]
fn huffd_reads_codes_across_byte_borders() {
    let t = table(&[('x', "10101"), ('y', "0")]);
    // 10101 10101 0 10101 : 16 bits
    assert_eq!(huffd(&[0b1010_1101, 0b0101_0101], &t), chars("xxyx"));
}

#[test]
fn unpack_inverts_pack_without_padding_match() {
    // no code is made of zeros alone, so the padding reads as nothing
    let t = table(&[('a', "10"), ('b', "11"), ('c', "01"), ('d', "001")]);
    for text in ["a", "abcd", "ddd", "abcabcabcd", "cccccccc", "badcab"] {
        let symbols = chars(text);
        assert_eq!(huffd(&pack(&symbols, &t), &t), symbols);
    }
}

#[test]
fn unpack_gives_the_text_first_whatever_the_padding() {
    let t = table(&[('A', "0"), ('B', "1")]);
    let symbols = chars("AB");
    let back = huffd(&pack(&symbols, &t), &t);
    assert_eq!(back, chars("ABAAAAAA"));
    assert_eq!(&back[..2], &symbols[..]);
}

#[test]
fn huffe_builds_table_and_payload() {
    let (payload, table) = huffe(&chars("38&\"3J3N*#3`")).unwrap();
    assert_eq!(payload, vec![135, 100, 101, 251, 48]);
    assert_eq!(table.get('3'), Some(&bits("10")));
    assert_eq!(table.get('8'), Some(&bits("000")));
    assert_eq!(table.get('*'), Some(&bits("1111")));
    assert_eq!(table.len(), 9);
    assert!(table.is_valid());
}

#[test]
fn huffe_of_no_symbols_is_a_tree_error() {
    assert_eq!(huffe(&[]).err(), Some(ArchiveError::Tree));
}

#[test]
fn single_symbol_text_gets_a_usable_code() {
    let symbols = chars("AAAA");
    let (payload, table) = huffe(&symbols).unwrap();
    assert_eq!(table.get('A'), Some(&bits("0")));
    assert_eq!(payload, vec![0]);
    let back = huffd(&payload, &table);
    assert_eq!(&back[..4], &symbols[..]);
}

#[test]
fn huffe_then_huffd_gives_the_text_first() {
    for text in ["AB", "abracadabra", "hello world", "38&\"3J3N*#3`", "zzzzzzzzz", "q"] {
        let symbols = chars(text);
        let (payload, table) = huffe(&symbols).unwrap();
        let back = huffd(&payload, &table);
        assert!(back.len() >= symbols.len());
        assert_eq!(&back[..symbols.len()], &symbols[..]);
    }
}

#[test]
fn full_bytes_read_back_as_the_text_alone() {
    // eight one-bit codes fill one byte: there is no padding to read
    let symbols = chars("ABABABAB");
    let (payload, table) = huffe(&symbols).unwrap();
    assert_eq!(payload, vec![0b0101_0101]);
    assert_eq!(huffd(&payload, &table), symbols);
}

#[test]
fn first_entry_wins_where_two_codes_match() {
    let t = table(&[('a', "1"), ('b', "10")]);
    assert_eq!(huffd(&[0b1010_0000], &t), chars("a"));
    let t = table(&[('b', "10"), ('a', "1")]);
    assert_eq!(huffd(&[0b1010_0000], &t), chars("bb"));
}

#[test]
fn empty_codes_are_never_read() {
    let t = table(&[('e', ""), ('a', "1")]);
    assert_eq!(huffd(&[0b1100_0000], &t), chars("aa"));
}

fn bits_under(text: &[char], t: &CodeTable) -> usize {
    text.iter().map(|c| t.get(*c).unwrap().len()).sum()
}

#[test]
fn rarer_symbols_have_no_shorter_codes() {
    for text in ["abracadabra", "hello world", "38&\"3J3N*#3`", "aaaaaaaabbbbccd", "AB"] {
        let symbols = chars(text);
        let (_, t) = huffe(&symbols).unwrap();
        let counts = whar::frequency::count_frequencies(&symbols);
        for a in &counts {
            for b in &counts {
                if a.1 < b.1 {
                    assert!(t.get(a.0).unwrap().len() >= t.get(b.0).unwrap().len());
                }
            }
        }
    }
}

#[test]
fn no_prefix_free_table_takes_fewer_bits() {
    let symbols = chars("abracadabra");
    let (_, ours) = huffe(&symbols).unwrap();
    assert_eq!(bits_under(&symbols, &ours), 23);
    let others = [
        table(&[('a', "000"), ('b', "001"), ('c', "010"), ('d', "011"), ('r', "100")]),
        table(&[('a', "1"), ('b', "01"), ('r', "001"), ('c', "0001"), ('d', "0000")]),
        table(&[('a', "00"), ('b', "01"), ('r', "10"), ('c', "110"), ('d', "111")]),
        table(&[('d', "0"), ('c', "10"), ('r', "110"), ('b', "1110"), ('a', "1111")]),
    ];
    for other in &others {
        assert!(other.is_valid());
        assert!(bits_under(&symbols, &ours) <= bits_under(&symbols, other));
        assert!(pack(&symbols, &ours).len() <= pack(&symbols, other).len());
    }
}

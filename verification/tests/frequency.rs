use whar::frequency::count_frequencies;

fn chars(text: &str) -> Vec<char> {
    text.chars().collect()
}

#[test]
fn empty_text_has_empty_table() {
    assert_eq!(count_frequencies(&[]), vec![]);
}

#[test]
fn counts_each_occurrence_once() {
    let table = count_frequencies(&chars("abracadabra"));
    assert_eq!(table, vec![('a', 5), ('b', 2), ('c', 1), ('d', 1), ('r', 2)]);
}

#[test]
fn table_is_in_ascending_order_of_symbols() {
    let table = count_frequencies(&chars("zyxzyz"));
    assert_eq!(table, vec![('x', 1), ('y', 2), ('z', 3)]);
}

#[test]
fn counts_add_up_to_the_length() {
    let text = chars("38&\"3J3N*#3`");
    let table = count_frequencies(&text);
    let total: usize = table.iter().map(|e| e.1).sum();
    assert_eq!(total, text.len());
    assert_eq!(table[4], ('3', 4));
}

#[test]
fn one_symbol_gives_one_entry() {
    assert_eq!(count_frequencies(&chars("AAAA")), vec![('A', 4)]);
}

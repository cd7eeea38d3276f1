use whar::table::CodeTable;
use whar::tree::{build_huff_tree, get_huffe, Node};

fn bits(text: &str) -> Vec<bool> {
    text.chars().map(|c| c == '1').collect()
}

fn entries(table: &CodeTable) -> Vec<(char, String)> {
    table
        .entries
        .iter()
        .map(|e| (e.0, e.1.iter().map(|b| if *b { '1' } else { '0' }).collect()))
        .collect()
}

fn leaf(value: char, frequency: usize) -> Node {
    Node { value, frequency, left: None, right: None }
}

#[test]
fn no_symbols_no_tree() {
    assert!(build_huff_tree(vec![]).is_none());
}

#[test]
fn one_symbol_gives_a_single_leaf() {
    let root = build_huff_tree(vec![('A', 4)]).unwrap();
    assert_eq!(root.value, 'A');
    assert_eq!(root.frequency, 4);
    assert!(root.left.is_none() && root.right.is_none());
}

#[test]
fn root_carries_the_total_frequency() {
    let root = build_huff_tree(vec![('a', 5), ('b', 2), ('c', 1), ('d', 1), ('r', 2)]).unwrap();
    assert_eq!(root.frequency, 11);
}

#[test]
fn two_lowest_are_joined_first() {
    let root = build_huff_tree(vec![('A', 3), ('B', 1), ('C', 2)]).unwrap();
    // B and C are joined, then A (3) and the joined node (3): A entered first.
    let left = root.left.as_ref().unwrap();
    let right = root.right.as_ref().unwrap();
    assert_eq!((left.value, left.frequency), ('A', 3));
    assert_eq!(right.frequency, 3);
    assert_eq!(right.left.as_ref().unwrap().value, 'B');
    assert_eq!(right.right.as_ref().unwrap().value, 'C');
}

#[test]
fn equal_frequencies_leave_in_order_of_entry() {
    let root = build_huff_tree(vec![('A', 1), ('B', 1)]).unwrap();
    assert_eq!(root.left.as_ref().unwrap().value, 'A');
    assert_eq!(root.right.as_ref().unwrap().value, 'B');
    assert_eq!(root.frequency, 2);
}

#[test]
fn inner_nodes_carry_the_sum_of_their_subtrees() {
    fn check(node: &Node) {
        match (&node.left, &node.right) {
            (Some(l), Some(r)) => {
                assert_eq!(node.frequency, l.frequency + r.frequency);
                check(l);
                check(r);
            }
            (None, None) => {}
            _ => panic!("a node with one subtree"),
        }
    }
    let root = build_huff_tree(vec![('a', 5), ('b', 2), ('c', 1), ('d', 1), ('r', 2)]).unwrap();
    check(&root);
}

fn weighted_length(node: &Node, depth: usize) -> usize {
    match (&node.left, &node.right) {
        (Some(l), Some(r)) => weighted_length(l, depth + 1) + weighted_length(r, depth + 1),
        _ => node.frequency * depth,
    }
}

fn all_trees(leaves: &[usize]) -> Vec<Node> {
    // every tree over the leaves, by splitting them into two groups
    if leaves.len() == 1 {
        return vec![leaf('?', leaves[0])];
    }
    let mut trees = Vec::new();
    for mask in 1..(1usize << leaves.len()) - 1 {
        let left: Vec<usize> =
            (0..leaves.len()).filter(|k| mask >> k & 1 == 1).map(|k| leaves[k]).collect();
        let right: Vec<usize> =
            (0..leaves.len()).filter(|k| mask >> k & 1 == 0).map(|k| leaves[k]).collect();
        for l in all_trees(&left) {
            for r in all_trees(&right) {
                let (l, r) = (copy(&l), copy(&r));
                trees.push(Node {
                    value: '\0',
                    frequency: l.frequency + r.frequency,
                    left: Some(Box::new(l)),
                    right: Some(Box::new(r)),
                });
            }
        }
    }
    trees
}

fn copy(node: &Node) -> Node {
    Node {
        value: node.value,
        frequency: node.frequency,
        left: node.left.as_ref().map(|n| Box::new(copy(n))),
        right: node.right.as_ref().map(|n| Box::new(copy(n))),
    }
}

#[test]
fn weighted_length_of_a_known_tree() {
    let root = build_huff_tree(vec![('a', 5), ('b', 2), ('c', 1), ('d', 1), ('r', 2)]).unwrap();
    assert_eq!(weighted_length(&root, 0), 23);
}

#[test]
fn text_takes_as_many_bits_as_the_tree_weighs() {
    for text in ["abracadabra", "AB", "38&\"3J3N*#3`", "hello world"] {
        let symbols: Vec<char> = text.chars().collect();
        let table = whar::frequency::count_frequencies(&symbols);
        let root = build_huff_tree(table).unwrap();
        let codes = get_huffe(&root);
        let bits: usize = symbols.iter().map(|c| codes.get(*c).unwrap().len()).sum();
        assert_eq!(bits, weighted_length(&root, 0));
        let packed = whar::pack::pack(&symbols, &codes);
        assert_eq!(packed.len(), (bits + 7) / 8);
    }
}

#[test]
fn no_tree_is_lighter() {
    for counts in [vec![1, 1, 1, 1], vec![5, 2, 1, 1, 2], vec![1, 2, 4, 8, 16], vec![3, 3, 3], vec![7]] {
        let table: Vec<(char, usize)> =
            counts.iter().enumerate().map(|(k, c)| ((b'a' + k as u8) as char, *c)).collect();
        let root = build_huff_tree(table).unwrap();
        let ours = weighted_length(&root, 0);
        let best = all_trees(&counts).iter().map(|t| weighted_length(t, 0)).min().unwrap();
        assert_eq!(ours, best);
    }
}

#[test]
fn single_leaf_gets_a_one_bit_code() {
    let table = get_huffe(&leaf('A', 4));
    assert_eq!(entries(&table), vec![('A', "0".to_string())]);
}

#[test]
fn codes_follow_the_paths() {
    let root = build_huff_tree(vec![('a', 5), ('b', 2), ('c', 1), ('d', 1), ('r', 2)]).unwrap();
    let table = get_huffe(&root);
    assert_eq!(
        entries(&table),
        vec![
            ('a', "0".to_string()),
            ('c', "100".to_string()),
            ('d', "101".to_string()),
            ('b', "110".to_string()),
            ('r', "111".to_string()),
        ]
    );
}

#[test]
fn left_is_zero_and_right_is_one() {
    let root = Node {
        value: '\0',
        frequency: 2,
        left: Some(Box::new(leaf('x', 1))),
        right: Some(Box::new(leaf('y', 1))),
    };
    let table = get_huffe(&root);
    assert_eq!(table.get('x'), Some(&bits("0")));
    assert_eq!(table.get('y'), Some(&bits("1")));
    assert_eq!(table.get('z'), None);
}

#[test]
fn rightmost_leaf_of_a_symbol_gives_its_code() {
    let root = Node {
        value: '\0',
        frequency: 3,
        left: Some(Box::new(leaf('x', 1))),
        right: Some(Box::new(Node {
            value: '\0',
            frequency: 2,
            left: Some(Box::new(leaf('y', 1))),
            right: Some(Box::new(leaf('x', 1))),
        })),
    };
    let table = get_huffe(&root);
    assert_eq!(entries(&table), vec![('x', "11".to_string()), ('y', "10".to_string())]);
}

#[test]
fn codes_of_a_tree_are_prefix_free() {
    let root = build_huff_tree(vec![
        ('"', 1),
        ('#', 1),
        ('&', 1),
        ('*', 1),
        ('3', 4),
        ('8', 1),
        ('J', 1),
        ('N', 1),
        ('`', 1),
    ])
    .unwrap();
    let table = get_huffe(&root);
    assert!(table.is_valid());
    assert_eq!(table.len(), 9);
    for (i, a) in table.entries.iter().enumerate() {
        for (j, b) in table.entries.iter().enumerate() {
            if i != j {
                assert!(!b.1.starts_with(&a.1));
            }
        }
    }
}

#[test]
fn table_validity_is_checked() {
    let good = CodeTable { entries: vec![('a', bits("0")), ('b', bits("10")), ('c', bits("11"))] };
    assert!(good.is_valid());
    let prefix = CodeTable { entries: vec![('a', bits("0")), ('b', bits("01"))] };
    assert!(!prefix.is_valid());
    let twice = CodeTable { entries: vec![('a', bits("0")), ('a', bits("1"))] };
    assert!(!twice.is_valid());
    let empty_code = CodeTable { entries: vec![('a', bits(""))] };
    assert!(!empty_code.is_valid());
    let same_code = CodeTable { entries: vec![('a', bits("01")), ('b', bits("01"))] };
    assert!(!same_code.is_valid());
}

#[test]
fn insert_replaces_or_appends() {
    let mut table = CodeTable::new();
    assert_eq!(table.len(), 0);
    table.insert('a', bits("0"));
    table.insert('b', bits("10"));
    table.insert('a', bits("11"));
    assert_eq!(entries(&table), vec![('a', "11".to_string()), ('b', "10".to_string())]);
    assert_eq!(table.position('b'), 1);
    assert_eq!(table.position('c'), 2);
}

//! How many bits a text takes under the code table of its Huffman tree: as
//! many as the weighted length of the tree.

use crate::frequency::{frequencies_of, lemma_frequencies_of, occurrences};
use crate::optimal::{
    lemma_huffman_carries, lemma_leaves_cost, lemma_lighter_deeper, lemma_merge_all_cost,
    shape_of, weighted_length, weights_of, Shape,
};
use crate::pack::{encode, symbol_bits, text_table};
use crate::table::{
    absorb, code_of, distinct_symbols, index_of, is_prefix, lemma_index_of, lemma_prefix_push,
    upsert,
};
use crate::tree::{
    codes_below, leaf_codes, leaves_of, lemma_leaf_codes, lemma_leaves_of, lemma_lowest_in_range,
    lemma_merge_all, lowest, merge_all, merge_step, Node,
};
use vstd::prelude::*;

verus! {

/// The leaves below `node` from left to right, each with its symbol and
/// its frequency.
pub open spec fn leaf_list(node: Node) -> Seq<(char, usize)>
    decreases node,
{
    if node.is_leaf() {
        seq![(node.value, node.frequency)]
    } else {
        let left = match node.left {
            Some(l) => leaf_list(*l),
            None => Seq::empty(),
        };
        let right = match node.right {
            Some(r) => leaf_list(*r),
            None => Seq::empty(),
        };
        left + right
    }
}

/// The leaves below a subtree that may be absent.
pub open spec fn list_below(child: Option<Box<Node>>) -> Seq<(char, usize)> {
    match child {
        Some(node) => leaf_list(*node),
        None => Seq::empty(),
    }
}

/// Sum over the leaves of frequency times length of the bit string.
pub open spec fn dot(leaves: Seq<(char, usize)>, codes: Seq<(char, Seq<bool>)>) -> nat
    decreases leaves.len(),
{
    if leaves.len() == 0 {
        0
    } else {
        dot(leaves.drop_last(), codes.drop_last()) + leaves.last().1 as nat
            * codes.last().1.len()
    }
}

/// Sum over the entries of a table of the number of occurrences of the
/// symbol in `text` times the length of its bit string.
pub open spec fn bill(table: Seq<(char, Seq<bool>)>, text: Seq<char>) -> nat
    decreases table.len(),
{
    if table.len() == 0 {
        0
    } else {
        bill(table.drop_last(), text) + occurrences(text, table.last().0) * table.last().1.len()
    }
}

/// The sum over two lists, one behind the other, is the sum of the sums.
pub proof fn lemma_dot_concat(
    a: Seq<(char, usize)>,
    c: Seq<(char, Seq<bool>)>,
    b: Seq<(char, usize)>,
    d: Seq<(char, Seq<bool>)>,
)
    requires
        a.len() == c.len(),
        b.len() == d.len(),
    ensures
        dot(a + b, c + d) == dot(a, c) + dot(b, d),
    decreases b.len(),
{
    if b.len() == 0 {
        assert(a + b =~= a);
        assert(c + d =~= c);
    } else {
        lemma_dot_concat(a, c, b.drop_last(), d.drop_last());
        assert((a + b).drop_last() =~= a + b.drop_last());
        assert((c + d).drop_last() =~= c + d.drop_last());
        assert((a + b).last() == b.last());
        assert((c + d).last() == d.last());
    }
}

/// The two lists of the leaves of a subtree that may be absent go together,
/// as `lemma_leaf_list` says of a node.
proof fn lemma_list_below(child: Option<Box<Node>>, path: Seq<bool>)
    requires
        child matches Some(node) ==> node.wf(),
    ensures
        list_below(child).len() == codes_below(child, path).len(),
        forall|k: int|
            0 <= k < list_below(child).len() ==> (#[trigger] list_below(child)[k]).0
                == codes_below(child, path)[k].0,
        child matches Some(node) ==> weighted_length(*node, path.len()) == dot(
            list_below(child),
            codes_below(child, path),
        ),
    decreases child,
{
    match child {
        Some(node) => lemma_leaf_list(*node, path),
        None => {},
    }
}

/// The leaves of a well-formed node with their frequencies and with their
/// bit strings are the same leaves in the same order, and the weighted
/// length of the node is the sum over them of frequency times length.
pub proof fn lemma_leaf_list(node: Node, path: Seq<bool>)
    requires
        node.wf(),
    ensures
        leaf_list(node).len() == leaf_codes(node, path).len(),
        forall|k: int|
            0 <= k < leaf_list(node).len() ==> (#[trigger] leaf_list(node)[k]).0 == leaf_codes(
                node,
                path,
            )[k].0,
        weighted_length(node, path.len()) == dot(leaf_list(node), leaf_codes(node, path)),
    decreases node,
{
    let list = leaf_list(node);
    let codes = leaf_codes(node, path);
    if node.is_leaf() {
        assert(list.drop_last() =~= Seq::empty());
        assert(dot(list.drop_last(), codes.drop_last()) == 0);
    } else {
        let a = list_below(node.left);
        let b = list_below(node.right);
        let c = codes_below(node.left, path.push(false));
        let d = codes_below(node.right, path.push(true));
        lemma_list_below(node.left, path.push(false));
        lemma_list_below(node.right, path.push(true));
        lemma_dot_concat(a, c, b, d);
        assert(list == a + b);
        assert(codes == c + d);
    }
}

/// The symbol has no bits under a table without an entry for it.
pub proof fn lemma_bill_empty(table: Seq<(char, Seq<bool>)>)
    ensures
        bill(table, Seq::empty()) == 0,
    decreases table.len(),
{
    if table.len() > 0 {
        lemma_bill_empty(table.drop_last());
        assert(occurrences(Seq::empty(), table.last().0) == 0);
        assert(0 * table.last().1.len() == 0) by (nonlinear_arith);
    }
}

/// One more symbol adds the length of its bit string to the bill.
pub proof fn lemma_bill_push(table: Seq<(char, Seq<bool>)>, text: Seq<char>, symbol: char)
    requires
        distinct_symbols(table),
    ensures
        bill(table, text.push(symbol)) == bill(table, text) + symbol_bits(table, symbol).len(),
    decreases table.len(),
{
    let longer = text.push(symbol);
    assert(longer.drop_last() =~= text);
    if table.len() > 0 {
        let front = table.drop_last();
        let last = table.last();
        assert forall|i: int, j: int| 0 <= i < j < front.len() implies front[i].0 != front[j].0 by {
            assert(front[i] == table[i] && front[j] == table[j]);
        }
        lemma_bill_push(front, text, symbol);
        lemma_index_of(front, symbol);
        lemma_index_of(table, symbol);
        let n = last.1.len();
        let count = occurrences(text, last.0);
        let found = index_of(front, symbol);
        if found < front.len() {
            assert(front[found] == table[found]);
        }
        if last.0 == symbol {
            assert(found == front.len());
            assert((count + 1) * n == count * n + n) by (nonlinear_arith);
        }
    }
}

/// Under a table with one entry for each symbol the bits of a text are as
/// many as the bill says.
pub proof fn lemma_encode_bill(table: Seq<(char, Seq<bool>)>, text: Seq<char>)
    requires
        distinct_symbols(table),
    ensures
        encode(text, table).len() == bill(table, text),
    decreases text.len(),
{
    if text.len() == 0 {
        assert(text =~= Seq::empty());
        lemma_bill_empty(table);
    } else {
        lemma_encode_bill(table, text.drop_last());
        lemma_bill_push(table, text.drop_last(), text.last());
        assert(text.drop_last().push(text.last()) =~= text);
    }
}

/// Where each leaf carries the number of occurrences of its symbol, the sum
/// over the leaves is the bill.
pub proof fn lemma_dot_bill(
    leaves: Seq<(char, usize)>,
    codes: Seq<(char, Seq<bool>)>,
    text: Seq<char>,
)
    requires
        leaves.len() == codes.len(),
        forall|k: int|
            0 <= k < leaves.len() ==> (#[trigger] leaves[k]).0 == codes[k].0 && leaves[k].1
                == occurrences(text, leaves[k].0),
    ensures
        dot(leaves, codes) == bill(codes, text),
    decreases leaves.len(),
{
    if leaves.len() > 0 {
        assert forall|k: int| 0 <= k < leaves.drop_last().len() implies (
        #[trigger] leaves.drop_last()[k]).0 == codes.drop_last()[k].0 && leaves.drop_last()[k].1
            == occurrences(text, leaves.drop_last()[k].0) by {
            assert(leaves.drop_last()[k] == leaves[k]);
        }
        lemma_dot_bill(leaves.drop_last(), codes.drop_last(), text);
        assert(leaves.last() == leaves[leaves.len() - 1]);
    }
}

/// A list of leaves with one entry for each symbol is its own code table.
pub proof fn lemma_absorb_distinct(entries: Seq<(char, Seq<bool>)>)
    requires
        distinct_symbols(entries),
    ensures
        absorb(Seq::empty(), entries) == entries,
    decreases entries.len(),
{
    if entries.len() > 0 {
        let front = entries.drop_last();
        assert forall|i: int, j: int| 0 <= i < j < front.len() implies front[i].0 != front[j].0 by {
            assert(front[i] == entries[i] && front[j] == entries[j]);
        }
        lemma_absorb_distinct(front);
        lemma_index_of(front, entries.last().0);
        if index_of(front, entries.last().0) < front.len() {
            assert(front[index_of(front, entries.last().0)] == entries[index_of(
                front,
                entries.last().0,
            )]);
        }
        assert(upsert(front, entries.last()) =~= entries);
    } else {
        assert(entries =~= Seq::empty());
    }
}

/// How many entries of `list` carry `symbol`.
pub open spec fn count_symbol(list: Seq<(char, usize)>, symbol: char) -> nat
    decreases list.len(),
{
    if list.len() == 0 {
        0
    } else {
        count_symbol(list.drop_last(), symbol) + if list.last().0 == symbol {
            1nat
        } else {
            0nat
        }
    }
}

/// How many leaves of the nodes of `queue` carry `symbol`.
pub open spec fn queue_tally(queue: Seq<Node>, symbol: char) -> nat
    decreases queue.len(),
{
    if queue.len() == 0 {
        0
    } else {
        queue_tally(queue.drop_last(), symbol) + count_symbol(leaf_list(queue.last()), symbol)
    }
}

/// Every leaf of every node of `queue` is an entry of `table`.
pub open spec fn grown_from(queue: Seq<Node>, table: Seq<(char, usize)>) -> bool {
    forall|k: int, m: int|
        0 <= k < queue.len() && 0 <= m < leaf_list(queue[k]).len() ==> table.contains(
            #[trigger] leaf_list(queue[k])[m],
        )
}

/// A symbol is counted in two lists, one behind the other, as often as in
/// both.
pub proof fn lemma_count_concat(a: Seq<(char, usize)>, b: Seq<(char, usize)>, symbol: char)
    ensures
        count_symbol(a + b, symbol) == count_symbol(a, symbol) + count_symbol(b, symbol),
    decreases b.len(),
{
    if b.len() == 0 {
        assert(a + b =~= a);
    } else {
        lemma_count_concat(a, b.drop_last(), symbol);
        assert((a + b).drop_last() =~= a + b.drop_last());
        assert((a + b).last() == b.last());
    }
}

/// Taking a node out of a queue takes its leaves out of the tally.
pub proof fn lemma_tally_remove(queue: Seq<Node>, i: int, symbol: char)
    requires
        0 <= i < queue.len(),
    ensures
        queue_tally(queue, symbol) == queue_tally(queue.remove(i), symbol) + count_symbol(
            leaf_list(queue[i]),
            symbol,
        ),
    decreases queue.len(),
{
    if i == queue.len() - 1 {
        assert(queue.remove(i) =~= queue.drop_last());
    } else {
        lemma_tally_remove(queue.drop_last(), i, symbol);
        assert(queue.remove(i).drop_last() =~= queue.drop_last().remove(i));
        assert(queue.remove(i).last() == queue.last());
    }
}

/// One round keeps where the leaves come from and how often each symbol
/// stands at a leaf.
pub proof fn lemma_merge_step_leaves(queue: Seq<Node>, table: Seq<(char, usize)>)
    requires
        queue.len() > 1,
        grown_from(queue, table),
    ensures
        grown_from(merge_step(queue), table),
        forall|c: char| #[trigger] queue_tally(merge_step(queue), c) == queue_tally(queue, c),
{
    let i = lowest(queue, queue.len() as int);
    lemma_lowest_in_range(queue, queue.len() as int);
    let rest = queue.remove(i);
    let j = lowest(rest, rest.len() as int);
    lemma_lowest_in_range(rest, rest.len() as int);
    let joined = Node::join(queue[i], rest[j]);
    let next = merge_step(queue);
    let second = if j < i {
        j
    } else {
        j + 1
    };
    assert(rest[j] == queue[second]);
    assert(leaf_list(joined) == leaf_list(queue[i]) + leaf_list(rest[j]));
    assert forall|k: int, m: int|
        0 <= k < next.len() && 0 <= m < leaf_list(next[k]).len() implies table.contains(
        #[trigger] leaf_list(next[k])[m],
    ) by {
        if k < next.len() - 1 {
            let k1 = if k < j {
                k
            } else {
                k + 1
            };
            let k2 = if k1 < i {
                k1
            } else {
                k1 + 1
            };
            assert(next[k] == rest[k1]);
            assert(rest[k1] == queue[k2]);
            assert(table.contains(leaf_list(queue[k2])[m]));
        } else {
            let a = leaf_list(queue[i]);
            if m < a.len() {
                assert(leaf_list(next[k])[m] == a[m]);
                assert(table.contains(leaf_list(queue[i])[m]));
            } else {
                assert(leaf_list(next[k])[m] == leaf_list(queue[second])[m - a.len()]);
                assert(table.contains(leaf_list(queue[second])[m - a.len()]));
            }
        }
    }
    assert forall|c: char| #[trigger] queue_tally(next, c) == queue_tally(queue, c) by {
        lemma_tally_remove(queue, i, c);
        lemma_tally_remove(rest, j, c);
        lemma_count_concat(leaf_list(queue[i]), leaf_list(rest[j]), c);
        assert(next.drop_last() =~= rest.remove(j));
        assert(next.last() == joined);
    }
}

/// The tree that the construction builds from a queue of at least two nodes
/// is no leaf.
pub proof fn lemma_merge_all_inner(queue: Seq<Node>)
    requires
        queue.len() > 1,
    ensures
        !merge_all(queue).is_leaf(),
    decreases queue.len(),
{
    let i = lowest(queue, queue.len() as int);
    lemma_lowest_in_range(queue, queue.len() as int);
    let rest = queue.remove(i);
    lemma_lowest_in_range(rest, rest.len() as int);
    let next = merge_step(queue);
    if queue.len() == 2 {
        assert(next.len() == 1);
        assert(merge_all(next) == next[0]);
    } else {
        lemma_merge_all_inner(next);
    }
}

/// The leaves of the tree that the construction builds come from where the
/// leaves of the queue come from, and each symbol stands at as many of
/// them.
pub proof fn lemma_merge_all_leaves(queue: Seq<Node>, table: Seq<(char, usize)>)
    requires
        queue.len() > 0,
        grown_from(queue, table),
    ensures
        forall|m: int|
            0 <= m < leaf_list(merge_all(queue)).len() ==> table.contains(
                #[trigger] leaf_list(merge_all(queue))[m],
            ),
        forall|c: char| #[trigger]
            count_symbol(leaf_list(merge_all(queue)), c) == queue_tally(queue, c),
    decreases queue.len(),
{
    if queue.len() == 1 {
        assert(queue.drop_last() =~= Seq::empty());
        assert(queue.last() == queue[0]);
        assert forall|c: char| #[trigger]
            count_symbol(leaf_list(merge_all(queue)), c) == queue_tally(queue, c) by {
            assert(queue_tally(queue.drop_last(), c) == 0);
        }
    } else {
        let i = lowest(queue, queue.len() as int);
        lemma_lowest_in_range(queue, queue.len() as int);
        let rest = queue.remove(i);
        lemma_lowest_in_range(rest, rest.len() as int);
        lemma_merge_step_leaves(queue, table);
        lemma_merge_all_leaves(merge_step(queue), table);
    }
}

/// A list in which no symbol is counted twice holds each symbol once.
pub proof fn lemma_count_distinct(list: Seq<(char, usize)>, i: int, j: int)
    requires
        0 <= i < j < list.len(),
        list[i].0 == list[j].0,
    ensures
        count_symbol(list, list[i].0) >= 2,
    decreases list.len(),
{
    let front = list.drop_last();
    if j == list.len() - 1 {
        lemma_count_positive(front, i);
    } else {
        lemma_count_distinct(front, i, j);
    }
}

/// A symbol that stands in a list is counted.
pub proof fn lemma_count_positive(list: Seq<(char, usize)>, i: int)
    requires
        0 <= i < list.len(),
    ensures
        count_symbol(list, list[i].0) >= 1,
    decreases list.len(),
{
    if i < list.len() - 1 {
        lemma_count_positive(list.drop_last(), i);
    }
}

/// The leaves of a table come from the table.
pub proof fn lemma_leaves_grown(table: Seq<(char, usize)>)
    ensures
        grown_from(leaves_of(table), table),
{
    let leaves = leaves_of(table);
    assert forall|k: int, m: int|
        0 <= k < leaves.len() && 0 <= m < leaf_list(leaves[k]).len() implies table.contains(
        #[trigger] leaf_list(leaves[k])[m],
    ) by {
        assert(leaf_list(leaves[k]) =~= seq![table[k]]);
        assert(table[k] == leaf_list(leaves[k])[m]);
    }
}

/// In a table in ascending order of symbols no symbol is counted twice,
/// and its leaves are counted as the table is.
pub proof fn lemma_leaves_tally(table: Seq<(char, usize)>, symbol: char)
    requires
        forall|i: int, j: int| 0 <= i < j < table.len() ==> table[i].0 < table[j].0,
    ensures
        queue_tally(leaves_of(table), symbol) == count_symbol(table, symbol),
        count_symbol(table, symbol) <= 1,
    decreases table.len(),
{
    let leaves = leaves_of(table);
    if table.len() > 0 {
        let front = table.drop_last();
        lemma_leaves_tally(front, symbol);
        assert(leaves.drop_last() =~= leaves_of(front));
        let last = leaf_list(leaves.last());
        assert(last =~= seq![table.last()]);
        assert(last.drop_last() =~= Seq::empty());
        assert(count_symbol(last.drop_last(), symbol) == 0);
        if table.last().0 == symbol && count_symbol(front, symbol) > 0 {
            lemma_count_found(front, symbol);
        }
    }
}

/// A symbol that is counted in a list stands in it.
pub proof fn lemma_count_found(list: Seq<(char, usize)>, symbol: char)
    requires
        count_symbol(list, symbol) > 0,
    ensures
        exists|k: int| 0 <= k < list.len() && list[k].0 == symbol,
    decreases list.len(),
{
    if list.last().0 == symbol {
        assert(list[list.len() - 1].0 == symbol);
    } else {
        lemma_count_found(list.drop_last(), symbol);
        let k = choose|k: int| 0 <= k < list.drop_last().len() && list.drop_last()[k].0 == symbol;
        assert(list[k].0 == symbol);
    }
}

/// The bit string of each leaf of a well-formed node, behind the path to
/// the node, is the path from the node to the leaf: there the leaf stands
/// in the shape of the node, with its frequency.
pub proof fn lemma_leaf_at(node: Node, path: Seq<bool>)
    requires
        node.wf(),
    ensures
        leaf_list(node).len() == leaf_codes(node, path).len(),
        forall|k: int|
            0 <= k < leaf_list(node).len() ==> is_prefix(path, leaf_codes(node, path)[k].1)
                && shape_of(node).at(
                (#[trigger] leaf_codes(node, path)[k]).1.skip(path.len() as int),
            ) == Some(Shape::Leaf(leaf_list(node)[k].1 as nat)),
    decreases node,
{
    let list = leaf_list(node);
    let codes = leaf_codes(node, path);
    lemma_leaf_list(node, path);
    lemma_leaf_codes(node, path);
    if node.is_leaf() {
        assert(codes[0].1.skip(path.len() as int) =~= Seq::<bool>::empty());
    } else {
        let l = *node.left->Some_0;
        let r = *node.right->Some_0;
        let a = leaf_list(l);
        let c = leaf_codes(l, path.push(false));
        let d = leaf_codes(r, path.push(true));
        lemma_leaf_at(l, path.push(false));
        lemma_leaf_at(r, path.push(true));
        assert(list == a + leaf_list(r));
        assert(codes == c + d);
        assert forall|k: int| 0 <= k < list.len() implies shape_of(node).at(
            (#[trigger] codes[k]).1.skip(path.len() as int),
        ) == Some(Shape::Leaf(list[k].1 as nat)) by {
            let code = codes[k].1;
            let step = k >= a.len();
            let below = code.skip(path.len() as int + 1);
            let from_here = code.skip(path.len() as int);
            if k < a.len() {
                assert(codes[k] == c[k]);
                assert(list[k] == a[k]);
                assert(c[k].1.skip(path.push(false).len() as int) == below);
            } else {
                assert(codes[k] == d[k - a.len()]);
                assert(list[k] == leaf_list(r)[k - a.len()]);
                assert(d[k - a.len()].1.skip(path.push(true).len() as int) == below);
            }
            lemma_prefix_push(path, step, code);
            assert(from_here[0] == step);
            assert(from_here.drop_first() =~= below);
        }
    }
}

/// The code table of a text of at least two different symbols is the list
/// of the leaves of its Huffman tree with their paths, and each leaf
/// carries the number of occurrences of its symbol.
pub proof fn lemma_text_leaves(text: Seq<char>)
    requires
        text.len() <= usize::MAX,
        frequencies_of(text).len() >= 2,
    ensures
        text_table(text) == leaf_codes(merge_all(leaves_of(frequencies_of(text))), Seq::empty()),
        distinct_symbols(text_table(text)),
        merge_all(leaves_of(frequencies_of(text))).wf(),
        leaf_list(merge_all(leaves_of(frequencies_of(text)))).len() == text_table(text).len(),
        forall|k: int|
            0 <= k < text_table(text).len() ==> (#[trigger] leaf_list(
                merge_all(leaves_of(frequencies_of(text))),
            )[k]).0 == text_table(text)[k].0 && leaf_list(
                merge_all(leaves_of(frequencies_of(text))),
            )[k].1 == occurrences(text, text_table(text)[k].0),
{
    let table = frequencies_of(text);
    let leaves = leaves_of(table);
    let root = merge_all(leaves);
    let list = leaf_list(root);
    let codes = leaf_codes(root, Seq::empty());
    lemma_frequencies_of(text);
    lemma_leaves_of(table);
    lemma_merge_all(leaves);
    lemma_merge_all_inner(leaves);
    lemma_leaf_list(root, Seq::empty());
    lemma_leaves_grown(table);
    lemma_merge_all_leaves(leaves, table);
    assert forall|c: char| count_symbol(list, c) <= 1 by {
        lemma_leaves_tally(table, c);
    }
    assert forall|i: int, j: int| 0 <= i < j < codes.len() implies codes[i].0 != codes[j].0 by {
        if codes[i].0 == codes[j].0 {
            assert(list[i].0 == list[j].0);
            lemma_count_distinct(list, i, j);
        }
    }
    lemma_absorb_distinct(codes);
    assert(text_table(text) == codes);
    assert forall|k: int| 0 <= k < list.len() implies (#[trigger] list[k]).0 == codes[k].0
        && list[k].1 == occurrences(text, codes[k].0) by {
        assert(table.contains(list[k]));
        let m = choose|m: int| 0 <= m < table.len() && table[m] == list[k];
        assert(table[m].1 == occurrences(text, table[m].0));
    }
}

/// Bits of a text: under the code table of its Huffman tree a text of at
/// least two different symbols takes as many bits as the weighted length
/// of the tree.
pub proof fn lemma_text_bits(text: Seq<char>)
    requires
        text.len() <= usize::MAX,
        frequencies_of(text).len() >= 2,
    ensures
        encode(text, text_table(text)).len() == weighted_length(
            merge_all(leaves_of(frequencies_of(text))),
            0,
        ),
{
    let root = merge_all(leaves_of(frequencies_of(text)));
    let codes = text_table(text);
    lemma_text_leaves(text);
    lemma_leaf_list(root, Seq::empty());
    lemma_dot_bill(leaf_list(root), codes, text);
    lemma_encode_bill(codes, text);
}

/// Rarer is longer: in the code table of a text, a symbol that occurs less
/// often than another has no shorter bit string than the other.
pub proof fn lemma_rarer_longer(text: Seq<char>, rare: char, common: char)
    requires
        text.len() <= usize::MAX,
        0 < occurrences(text, rare) < occurrences(text, common),
    ensures
        code_of(text_table(text), rare) matches Some(long) && code_of(
            text_table(text),
            common,
        ) matches Some(short) && long.len() >= short.len(),
{
    let table = frequencies_of(text);
    let leaves = leaves_of(table);
    let root = merge_all(leaves);
    let codes = text_table(text);
    lemma_frequencies_of(text);
    let i = choose|i: int| 0 <= i < table.len() && table[i].0 == rare;
    let j = choose|j: int| 0 <= j < table.len() && table[j].0 == common;
    assert(i != j);
    lemma_text_leaves(text);
    crate::pack::lemma_text_table(text);
    lemma_leaf_at(root, Seq::empty());
    lemma_index_of(codes, rare);
    lemma_index_of(codes, common);
    crate::frequency::lemma_occurs_somewhere(text, rare);
    crate::frequency::lemma_occurs_somewhere(text, common);
    let a = index_of(codes, rare);
    let b = index_of(codes, common);
    assert(codes[a].1.skip(0) =~= codes[a].1);
    assert(codes[b].1.skip(0) =~= codes[b].1);
    lemma_leaves_of(table);
    lemma_leaves_cost(table);
    lemma_merge_all_cost(leaves);
    lemma_huffman_carries(table);
    lemma_lighter_deeper(weights_of(leaves), shape_of(root), codes[a].1, codes[b].1);
}

} // verus!

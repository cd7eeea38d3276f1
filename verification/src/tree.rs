//! Huffman trees: their construction from a frequency table, and the code
//! table that is read off a tree.

use crate::frequency::table_total;
use crate::optimal::{
    carries, lemma_huffman_carries, lemma_huffman_optimal, lightest, weighted_length,
};
use crate::table::{
    absorb, copy_bits, index_of, is_prefix, lemma_absorb, lemma_absorb_concat, lemma_absorb_one,
    lemma_diverge, lemma_index_of, lemma_index_of_concat, lemma_index_of_found, lemma_prefix_push,
    prefix_free, valid_table, CodeTable,
};
use vstd::prelude::*;

verus! {

/// A node of a Huffman tree: a leaf that carries a symbol, or an inner node
/// that owns two subtrees and carries the sum of their frequencies.
#[derive(Debug)]
pub struct Node {
    pub value: char,
    pub frequency: usize,
    pub left: Option<Box<Node>>,
    pub right: Option<Box<Node>>,
}

impl Node {
    /// A node without subtrees.
    pub open spec fn is_leaf(self) -> bool {
        self.left is None && self.right is None
    }

    /// Leaves have no subtree, inner nodes have two, and every inner node
    /// carries the sum of the frequencies of its subtrees.
    pub open spec fn wf(self) -> bool
        decreases self,
    {
        match (self.left, self.right) {
            (None, None) => true,
            (Some(l), Some(r)) => l.wf() && r.wf() && self.frequency == l.frequency + r.frequency,
            _ => false,
        }
    }

    /// The symbols at the leaves.
    pub open spec fn symbols(self) -> Set<char>
        decreases self,
    {
        match (self.left, self.right) {
            (None, None) => set![self.value],
            (Some(l), None) => l.symbols(),
            (None, Some(r)) => r.symbols(),
            (Some(l), Some(r)) => l.symbols().union(r.symbols()),
        }
    }

    /// The leaf for one entry of a frequency table.
    pub open spec fn leaf_of(entry: (char, usize)) -> Node {
        Node { value: entry.0, frequency: entry.1, left: None, right: None }
    }

    /// The inner node above `left` and `right`.
    pub open spec fn join(left: Node, right: Node) -> Node {
        Node {
            value: '\0',
            frequency: (left.frequency + right.frequency) as usize,
            left: Some(Box::new(left)),
            right: Some(Box::new(right)),
        }
    }
}

/// Index of the first node of lowest frequency among `queue[..n]`.
pub open spec fn lowest(queue: Seq<Node>, n: int) -> int
    decreases n,
{
    if n <= 1 {
        0
    } else {
        let best = lowest(queue, n - 1);
        if queue[n - 1].frequency < queue[best].frequency {
            n - 1
        } else {
            best
        }
    }
}

/// One round of the construction: the first node of lowest frequency leaves
/// the queue, then the first of lowest frequency among the rest, and the
/// node that joins them is appended.
pub open spec fn merge_step(queue: Seq<Node>) -> Seq<Node> {
    let i = lowest(queue, queue.len() as int);
    let rest = queue.remove(i);
    let j = lowest(rest, rest.len() as int);
    rest.remove(j).push(Node::join(queue[i], rest[j]))
}

/// The tree that remains when `merge_step` has been repeated until one node
/// is left.
pub open spec fn merge_all(queue: Seq<Node>) -> Node
    recommends
        queue.len() > 0,
    decreases queue.len(),
    via merge_all_terminates
{
    if queue.len() <= 1 {
        queue[0]
    } else {
        merge_all(merge_step(queue))
    }
}

#[via_fn]
proof fn merge_all_terminates(queue: Seq<Node>) {
    if queue.len() > 1 {
        lemma_lowest_in_range(queue, queue.len() as int);
        let rest = queue.remove(lowest(queue, queue.len() as int));
        lemma_lowest_in_range(rest, rest.len() as int);
    }
}

/// `lowest` picks a position below `n`, and no node before `n` is lighter,
/// nor an earlier one as light.
pub proof fn lemma_lowest_in_range(queue: Seq<Node>, n: int)
    requires
        0 < n <= queue.len(),
    ensures
        0 <= lowest(queue, n) < n,
        forall|k: int|
            0 <= k < n ==> queue[lowest(queue, n)].frequency <= (#[trigger] queue[k]).frequency,
        forall|k: int|
            0 <= k < lowest(queue, n) ==> queue[lowest(queue, n)].frequency < (
            #[trigger] queue[k]).frequency,
    decreases n,
{
    if n > 1 {
        lemma_lowest_in_range(queue, n - 1);
    }
}

/// Sum of the frequencies of the nodes of `queue`.
pub open spec fn total_frequency(queue: Seq<Node>) -> nat
    decreases queue.len(),
{
    if queue.len() == 0 {
        0
    } else {
        total_frequency(queue.drop_last()) + queue.last().frequency as nat
    }
}

/// The leaves for the entries of a frequency table, in its order.
pub open spec fn leaves_of(frequencies: Seq<(char, usize)>) -> Seq<Node> {
    Seq::new(frequencies.len(), |k: int| Node::leaf_of(frequencies[k]))
}

/// The Huffman tree of a frequency table; none for an empty table.
pub open spec fn huffman_tree(frequencies: Seq<(char, usize)>) -> Option<Node> {
    if frequencies.len() == 0 {
        None
    } else {
        Some(merge_all(leaves_of(frequencies)))
    }
}

/// The symbols at the leaves of the nodes of `queue`.
pub open spec fn queue_symbols(queue: Seq<Node>) -> Set<char>
    decreases queue.len(),
{
    if queue.len() == 0 {
        Set::empty()
    } else {
        queue_symbols(queue.drop_last()).union(queue.last().symbols())
    }
}

/// Every node of `queue` is well formed.
pub open spec fn queue_wf(queue: Seq<Node>) -> bool {
    forall|k: int| 0 <= k < queue.len() ==> (#[trigger] queue[k]).wf()
}

/// Taking a node out of a queue takes its frequency out of the total and
/// leaves the symbols of the others.
pub proof fn lemma_remove(queue: Seq<Node>, i: int)
    requires
        0 <= i < queue.len(),
    ensures
        total_frequency(queue) == total_frequency(queue.remove(i)) + queue[i].frequency,
        queue_symbols(queue) == queue_symbols(queue.remove(i)).union(queue[i].symbols()),
    decreases queue.len(),
{
    if i == queue.len() - 1 {
        assert(queue.remove(i) =~= queue.drop_last());
    } else {
        lemma_remove(queue.drop_last(), i);
        assert(queue.remove(i).drop_last() =~= queue.drop_last().remove(i));
        assert(queue.remove(i).last() == queue.last());
        assert(queue_symbols(queue) =~= queue_symbols(queue.remove(i)).union(
            queue[i].symbols(),
        ));
    }
}

/// Appending a node adds its frequency and its symbols.
pub proof fn lemma_push(queue: Seq<Node>, node: Node)
    ensures
        total_frequency(queue.push(node)) == total_frequency(queue) + node.frequency,
        queue_symbols(queue.push(node)) == queue_symbols(queue).union(node.symbols()),
{
    assert(queue.push(node).drop_last() =~= queue);
}

/// One round keeps the total frequency, the symbols and the well-formedness
/// of a queue, and shortens it by one.
pub proof fn lemma_merge_step(queue: Seq<Node>)
    requires
        queue.len() > 1,
        total_frequency(queue) <= usize::MAX,
    ensures
        merge_step(queue).len() == queue.len() - 1,
        total_frequency(merge_step(queue)) == total_frequency(queue),
        queue_symbols(merge_step(queue)) == queue_symbols(queue),
        queue_wf(queue) ==> queue_wf(merge_step(queue)),
{
    let i = lowest(queue, queue.len() as int);
    lemma_lowest_in_range(queue, queue.len() as int);
    let rest = queue.remove(i);
    let j = lowest(rest, rest.len() as int);
    lemma_lowest_in_range(rest, rest.len() as int);
    let joined = Node::join(queue[i], rest[j]);
    lemma_remove(queue, i);
    lemma_remove(rest, j);
    lemma_push(rest.remove(j), joined);
    assert(joined.symbols() == queue[i].symbols().union(rest[j].symbols()));
    assert(queue_symbols(merge_step(queue)) =~= queue_symbols(queue));
    if queue_wf(queue) {
        assert(queue[i].wf());
        assert(rest[j] == queue[if j < i { j } else { j + 1 }]);
        assert(rest[j].wf());
        assert(joined.wf());
        assert forall|k: int| 0 <= k < merge_step(queue).len() implies (
        #[trigger] merge_step(queue)[k]).wf() by {
            if k < rest.remove(j).len() {
                let k1 = if k < j { k } else { k + 1 };
                assert(rest.remove(j)[k] == rest[k1]);
                assert(rest[k1] == queue[if k1 < i { k1 } else { k1 + 1 }]);
            }
        }
    }
}

/// The tree built from a queue carries the queue's total frequency, holds
/// exactly its symbols, and is well formed where the queue's nodes are.
pub proof fn lemma_merge_all(queue: Seq<Node>)
    requires
        queue.len() > 0,
        total_frequency(queue) <= usize::MAX,
    ensures
        merge_all(queue).frequency == total_frequency(queue),
        merge_all(queue).symbols() == queue_symbols(queue),
        queue_wf(queue) ==> merge_all(queue).wf(),
    decreases queue.len(),
{
    if queue.len() == 1 {
        assert(queue.drop_last().len() == 0);
        assert(total_frequency(queue.drop_last()) == 0);
        assert(queue_symbols(queue.drop_last()) =~= Set::empty());
        assert(queue.last() == queue[0]);
        assert(queue_symbols(queue) =~= queue[0].symbols());
    } else {
        lemma_merge_step(queue);
        lemma_merge_all(merge_step(queue));
    }
}

/// The symbols of a frequency table.
pub open spec fn table_symbols(frequencies: Seq<(char, usize)>) -> Set<char> {
    Set::new(|c: char| exists|k: int| 0 <= k < frequencies.len() && frequencies[k].0 == c)
}

/// The leaves of a frequency table are well formed, and carry its counts and
/// its symbols.
pub proof fn lemma_leaves_of(frequencies: Seq<(char, usize)>)
    ensures
        queue_wf(leaves_of(frequencies)),
        total_frequency(leaves_of(frequencies)) == table_total(frequencies),
        queue_symbols(leaves_of(frequencies)) == table_symbols(frequencies),
    decreases frequencies.len(),
{
    let leaves = leaves_of(frequencies);
    if frequencies.len() == 0 {
        assert(queue_symbols(leaves) =~= table_symbols(frequencies));
    } else {
        let front = frequencies.drop_last();
        lemma_leaves_of(front);
        assert(leaves.drop_last() =~= leaves_of(front));
        assert forall|c: char| queue_symbols(leaves).contains(c) <==> table_symbols(
            frequencies,
        ).contains(c) by {
            if table_symbols(front).contains(c) {
                let k = choose|k: int| 0 <= k < front.len() && front[k].0 == c;
                assert(frequencies[k].0 == c);
            }
            if table_symbols(frequencies).contains(c) {
                let k = choose|k: int| 0 <= k < frequencies.len() && frequencies[k].0 == c;
                if k < front.len() {
                    assert(front[k].0 == c);
                }
            }
            if frequencies.last().0 == c {
                assert(frequencies[frequencies.len() - 1].0 == c);
            }
        }
        assert(queue_symbols(leaves) =~= table_symbols(frequencies));
    }
}

/// Position of the first node of lowest frequency.
fn lowest_index(queue: &Vec<Node>) -> (best: usize)
    requires
        queue.len() > 0,
    ensures
        best == lowest(queue@, queue.len() as int),
        best < queue.len(),
{
    let mut best: usize = 0;
    let mut k: usize = 1;
    while k < queue.len()
        invariant
            1 <= k <= queue.len(),
            best < k,
            best == lowest(queue@, k as int),
        decreases queue.len() - k,
    {
        if queue[k].frequency < queue[best].frequency {
            best = k;
        }
        k += 1;
    }
    best
}

/// Builds the Huffman tree of a frequency table: one leaf per entry, then
/// the two nodes of lowest frequency are joined until one node is left.
/// Among nodes of equal frequency the one that entered the queue first
/// leaves it first. An empty table has no tree. The tree carries the counts
/// of the table at its leaves, and no tree that does has a lower weighted
/// length.
pub fn build_huff_tree(frequencies: Vec<(char, usize)>) -> (root: Option<Box<Node>>)
    requires
        table_total(frequencies@) <= usize::MAX,
    ensures
        match root {
            Some(node) => huffman_tree(frequencies@) == Some(*node),
            None => huffman_tree(frequencies@) is None,
        },
        root matches Some(node) ==> node.wf() && node.frequency == table_total(frequencies@)
            && node.symbols() == table_symbols(frequencies@) && carries(*node, frequencies@)
            && lightest(*node, frequencies@),
{
    proof {
        if frequencies.len() > 0 {
            lemma_huffman_carries(frequencies@);
            assert forall|other: Node| carries(other, frequencies@) implies weighted_length(
                merge_all(leaves_of(frequencies@)),
                0,
            ) <= #[trigger] weighted_length(other, 0) by {
                lemma_huffman_optimal(frequencies@, other);
            }
        }
    }
    let mut queue: Vec<Node> = Vec::new();
    let mut k: usize = 0;
    while k < frequencies.len()
        invariant
            k <= frequencies.len(),
            queue@ == leaves_of(frequencies@.take(k as int)),
        decreases frequencies.len() - k,
    {
        let entry = frequencies[k];
        let ghost before = queue@;
        queue.push(Node { value: entry.0, frequency: entry.1, left: None, right: None });
        proof {
            let next = leaves_of(frequencies@.take(k + 1));
            assert(next.len() == k + 1);
            assert(before.len() == k);
            assert(queue@.len() == k + 1);
            assert(queue@[k as int] == Node::leaf_of(entry));
            assert(next[k as int] == Node::leaf_of(entry));
            assert forall|i: int| 0 <= i < k implies queue@[i] == next[i] by {
                assert(before[i] == Node::leaf_of(frequencies@.take(k as int)[i]));
            }
            assert(queue@ =~= next);
        }
        k += 1;
    }
    proof {
        assert(frequencies@.take(k as int) =~= frequencies@);
        lemma_leaves_of(frequencies@);
        if frequencies.len() > 0 {
            lemma_merge_all(queue@);
        }
    }
    while queue.len() > 1
        invariant
            queue.len() > 0 || frequencies.len() == 0,
            frequencies.len() == 0 ==> queue.len() == 0,
            total_frequency(queue@) <= usize::MAX,
            queue.len() > 0 ==> merge_all(queue@) == merge_all(leaves_of(frequencies@)),
        decreases queue.len(),
    {
        let ghost before = queue@;
        let i: usize = lowest_index(&queue);
        let left = queue.remove(i);
        let j: usize = lowest_index(&queue);
        let right = queue.remove(j);
        proof {
            lemma_remove(before, i as int);
            lemma_remove(before.remove(i as int), j as int);
        }
        let frequency: usize = left.frequency + right.frequency;
        queue.push(
            Node { value: '\0', frequency, left: Some(Box::new(left)), right: Some(Box::new(right)) },
        );
        proof {
            assert(queue@ == merge_step(before));
            lemma_merge_step(before);
        }
    }
    match queue.pop() {
        Some(node) => Some(Box::new(node)),
        None => None,
    }
}

/// The leaves below `node` from left to right, each with the path that
/// leads to it from a node reached by `path`: `false` for a step to the
/// left, `true` for a step to the right.
pub open spec fn leaf_codes(node: Node, path: Seq<bool>) -> Seq<(char, Seq<bool>)>
    decreases node,
{
    if node.is_leaf() {
        seq![(node.value, path)]
    } else {
        let left = match node.left {
            Some(l) => leaf_codes(*l, path.push(false)),
            None => Seq::empty(),
        };
        let right = match node.right {
            Some(r) => leaf_codes(*r, path.push(true)),
            None => Seq::empty(),
        };
        left + right
    }
}

/// The leaves below a subtree that may be absent.
pub open spec fn codes_below(child: Option<Box<Node>>, path: Seq<bool>) -> Seq<(char, Seq<bool>)> {
    match child {
        Some(node) => leaf_codes(*node, path),
        None => Seq::empty(),
    }
}

/// The leaves of a tree with their bit strings. A tree that is one leaf
/// gives its symbol the bit string of one `false`.
pub open spec fn root_codes(root: Node) -> Seq<(char, Seq<bool>)> {
    if root.is_leaf() {
        seq![(root.value, seq![false])]
    } else {
        leaf_codes(root, Seq::empty())
    }
}

/// The code table of a tree: its leaves entered from left to right.
pub open spec fn code_table(root: Node) -> Seq<(char, Seq<bool>)> {
    absorb(Seq::empty(), root_codes(root))
}

/// Of the leaves below a subtree that may be absent: what `lemma_leaf_codes`
/// says of the leaves below a node.
proof fn lemma_codes_below(child: Option<Box<Node>>, path: Seq<bool>)
    ensures
        forall|k: int|
            0 <= k < codes_below(child, path).len() ==> is_prefix(
                path,
                (#[trigger] codes_below(child, path)[k]).1,
            ),
        forall|i: int, j: int|
            0 <= i < codes_below(child, path).len() && 0 <= j < codes_below(child, path).len() && i
                != j ==> !is_prefix(
                (#[trigger] codes_below(child, path)[i]).1,
                (#[trigger] codes_below(child, path)[j]).1,
            ),
        forall|c: char|
            (child matches Some(node) && node.symbols().contains(c)) <==> #[trigger] index_of(
                codes_below(child, path),
                c,
            ) < codes_below(child, path).len(),
    decreases child,
{
    match child {
        Some(node) => lemma_leaf_codes(*node, path),
        None => {},
    }
}

/// The bit string of every leaf below `node` begins with `path`, no leaf's
/// bit string begins another leaf's, and the symbols found among the leaves
/// are the symbols of `node`.
pub proof fn lemma_leaf_codes(node: Node, path: Seq<bool>)
    ensures
        forall|k: int|
            0 <= k < leaf_codes(node, path).len() ==> is_prefix(
                path,
                (#[trigger] leaf_codes(node, path)[k]).1,
            ),
        forall|i: int, j: int|
            0 <= i < leaf_codes(node, path).len() && 0 <= j < leaf_codes(node, path).len() && i
                != j ==> !is_prefix(
                (#[trigger] leaf_codes(node, path)[i]).1,
                (#[trigger] leaf_codes(node, path)[j]).1,
            ),
        forall|c: char|
            node.symbols().contains(c) <==> #[trigger] index_of(leaf_codes(node, path), c)
                < leaf_codes(node, path).len(),
    decreases node,
{
    let all = leaf_codes(node, path);
    if node.is_leaf() {
        assert(path.take(path.len() as int) =~= path);
        assert forall|c: char| node.symbols().contains(c) <==> #[trigger] index_of(all, c)
            < all.len() by {
            lemma_index_of(all, c);
            if node.value == c {
                lemma_index_of_found(all, c, 0);
            }
        }
    } else {
        let a = codes_below(node.left, path.push(false));
        let b = codes_below(node.right, path.push(true));
        lemma_codes_below(node.left, path.push(false));
        lemma_codes_below(node.right, path.push(true));
        assert(all == a + b);
        assert forall|k: int| 0 <= k < all.len() implies is_prefix(path, (#[trigger] all[k]).1) by {
            if k < a.len() {
                assert(all[k] == a[k]);
                lemma_prefix_push(path, false, a[k].1);
            } else {
                assert(all[k] == b[k - a.len()]);
                lemma_prefix_push(path, true, b[k - a.len()].1);
            }
        }
        assert forall|i: int, j: int|
            0 <= i < all.len() && 0 <= j < all.len() && i != j implies !is_prefix(
            (#[trigger] all[i]).1,
            (#[trigger] all[j]).1,
        ) by {
            if i < a.len() && j < a.len() {
                assert(all[i] == a[i] && all[j] == a[j]);
            } else if i >= a.len() && j >= a.len() {
                assert(all[i] == b[i - a.len()] && all[j] == b[j - a.len()]);
            } else if i < a.len() {
                assert(all[i] == a[i] && all[j] == b[j - a.len()]);
                lemma_prefix_push(path, false, a[i].1);
                lemma_prefix_push(path, true, b[j - a.len()].1);
                lemma_diverge(all[i].1, all[j].1, path.len() as int);
            } else {
                assert(all[j] == a[j] && all[i] == b[i - a.len()]);
                lemma_prefix_push(path, false, a[j].1);
                lemma_prefix_push(path, true, b[i - a.len()].1);
                lemma_diverge(all[i].1, all[j].1, path.len() as int);
            }
        }
        assert forall|c: char| node.symbols().contains(c) <==> #[trigger] index_of(all, c)
            < all.len() by {
            lemma_index_of_concat(a, b, c);
        }
    }
}

/// A code table read off a tree has one entry for each symbol of the tree,
/// no empty bit string, and no bit string that begins another.
pub proof fn lemma_code_table(root: Node)
    ensures
        valid_table(code_table(root)),
        forall|c: char|
            root.symbols().contains(c) <==> #[trigger] index_of(code_table(root), c) < code_table(
                root,
            ).len(),
{
    let leaves = root_codes(root);
    let table = code_table(root);
    lemma_absorb(leaves);
    if root.is_leaf() {
        lemma_absorb_one(Seq::empty(), (root.value, seq![false]));
        assert(table =~= seq![(root.value, seq![false])]);
        assert forall|c: char| root.symbols().contains(c) <==> #[trigger] index_of(table, c)
            < table.len() by {
            lemma_index_of(table, c);
            if root.value == c {
                lemma_index_of_found(table, c, 0);
            }
        }
    } else {
        lemma_leaf_codes(root, Seq::empty());
        assert forall|k: int| 0 <= k < table.len() implies (#[trigger] table[k]).1.len() > 0 by {
            let m = choose|m: int| 0 <= m < leaves.len() && leaves[m] == table[k];
            let a = codes_below(root.left, Seq::<bool>::empty().push(false));
            let b = codes_below(root.right, Seq::<bool>::empty().push(true));
            lemma_codes_below(root.left, Seq::<bool>::empty().push(false));
            lemma_codes_below(root.right, Seq::<bool>::empty().push(true));
            if m < a.len() {
                assert(leaves[m] == a[m]);
                lemma_prefix_push(Seq::empty(), false, a[m].1);
            } else {
                assert(leaves[m] == b[m - a.len()]);
                lemma_prefix_push(Seq::empty(), true, b[m - a.len()].1);
            }
        }
        assert forall|i: int, j: int|
            0 <= i < table.len() && 0 <= j < table.len() && i != j implies !is_prefix(
            table[i].1,
            table[j].1,
        ) by {
            let m = choose|m: int| 0 <= m < leaves.len() && leaves[m] == table[i];
            let n = choose|n: int| 0 <= n < leaves.len() && leaves[n] == table[j];
            assert(table[i].0 != table[j].0);
        }
        assert forall|c: char| root.symbols().contains(c) <==> #[trigger] index_of(table, c)
            < table.len() by {
            lemma_index_of(table, c);
            lemma_index_of(leaves, c);
            if index_of(table, c) < table.len() {
                let k = index_of(table, c);
                let m = choose|m: int| 0 <= m < leaves.len() && leaves[m] == table[k];
                lemma_index_of_found(leaves, c, m);
            }
            if index_of(leaves, c) < leaves.len() {
                let m = index_of(leaves, c);
                assert(leaves[m].0 == c);
            }
        }
    }
}

/// Prefix freedom: in the code table of the Huffman tree of a frequency
/// table no bit string begins another, whatever the table holds.
pub proof fn lemma_prefix_free(frequencies: Seq<(char, usize)>)
    requires
        frequencies.len() > 0,
    ensures
        huffman_tree(frequencies) matches Some(root) && prefix_free(code_table(root)),
{
    lemma_code_table(merge_all(leaves_of(frequencies)));
}

/// Enters the leaves below `node` into `table`, from left to right.
fn traverse(node: &Node, path: &mut Vec<bool>, table: &mut CodeTable)
    ensures
        final(path)@ == old(path)@,
        final(table)@ == absorb(old(table)@, leaf_codes(*node, old(path)@)),
    decreases node,
{
    if node.left.is_none() && node.right.is_none() {
        table.insert(node.value, copy_bits(path));
        proof {
            lemma_absorb_one(old(table)@, (node.value, path@));
        }
    } else {
        let ghost start = table@;
        let ghost left_codes = codes_below(node.left, path@.push(false));
        let ghost right_codes = codes_below(node.right, path@.push(true));
        if let Some(left) = &node.left {
            path.push(false);
            traverse(left, path, table);
            path.pop();
        }
        assert(path@ =~= old(path)@);
        assert(table@ == absorb(start, left_codes));
        if let Some(right) = &node.right {
            path.push(true);
            traverse(right, path, table);
            path.pop();
        }
        assert(path@ =~= old(path)@);
        proof {
            lemma_absorb_concat(start, left_codes, right_codes);
        }
    }
}

/// The code table of the tree under `root`: each leaf's symbol with the
/// path to the leaf, `false` for left and `true` for right. Where a symbol
/// stands at several leaves, the rightmost one gives its bit string. A tree
/// of one leaf gives its symbol one `false` bit.
pub fn get_huffe(root: &Node) -> (table: CodeTable)
    ensures
        table@ == code_table(*root),
        valid_table(table@),
        forall|c: char|
            root.symbols().contains(c) <==> #[trigger] index_of(table@, c) < table@.len(),
{
    proof {
        lemma_code_table(*root);
    }
    let mut table = CodeTable::new();
    if root.left.is_none() && root.right.is_none() {
        let mut code: Vec<bool> = Vec::new();
        code.push(false);
        assert(code@ =~= seq![false]);
        table.insert(root.value, code);
        proof {
            lemma_absorb_one(Seq::empty(), (root.value, seq![false]));
        }
    } else {
        let mut path: Vec<bool> = Vec::new();
        traverse(root, &mut path, &mut table);
    }
    table
}

} // verus!

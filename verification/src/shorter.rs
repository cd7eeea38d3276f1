//! No prefix-free table takes fewer bits for a text than the code table of
//! its Huffman tree.
//!
//! A list of weights with bit strings, none of which begins another, is
//! turned into a tree of the same weights that costs no more than the list
//! takes bits; the Huffman tree costs no more than any tree.

use crate::frequency::{
    frequencies_of, lemma_frequencies_of, lemma_occurs, lemma_occurs_somewhere, occurrences,
};
use crate::length::{lemma_encode_bill, lemma_text_bits};
use crate::optimal::{
    lemma_leaves_cost, lemma_merge_all_cost, lemma_merge_cost_least, lemma_shape_of, weights_of,
    Shape,
};
use crate::pack::{
    encode, lemma_constant_text, lemma_single_symbol, symbol_bits, text_table,
};
use crate::table::{index_of, is_prefix, lemma_index_of, valid_table};
use crate::tree::{leaves_of, lemma_leaves_of, lemma_merge_all, merge_all};
use crate::unpack::covers;
use vstd::multiset::Multiset;
use vstd::prelude::*;

verus! {

/// The entries of `list` whose bit string begins with `bit`, each without
/// that first bit.
pub open spec fn side(list: Seq<(nat, Seq<bool>)>, bit: bool) -> Seq<(nat, Seq<bool>)>
    decreases list.len(),
{
    if list.len() == 0 {
        Seq::empty()
    } else {
        let front = side(list.drop_last(), bit);
        let last = list.last();
        if last.1.len() > 0 && last.1[0] == bit {
            front.push((last.0, last.1.drop_first()))
        } else {
            front
        }
    }
}

/// Sum of weight times length of the bit string.
pub open spec fn total_bits(list: Seq<(nat, Seq<bool>)>) -> nat
    decreases list.len(),
{
    if list.len() == 0 {
        0
    } else {
        total_bits(list.drop_last()) + list.last().0 * list.last().1.len()
    }
}

/// Sum of the lengths of the bit strings.
pub open spec fn total_length(list: Seq<(nat, Seq<bool>)>) -> nat
    decreases list.len(),
{
    if list.len() == 0 {
        0
    } else {
        total_length(list.drop_last()) + list.last().1.len()
    }
}

/// Sum of the weights.
pub open spec fn total_weight(list: Seq<(nat, Seq<bool>)>) -> nat
    decreases list.len(),
{
    if list.len() == 0 {
        0
    } else {
        total_weight(list.drop_last()) + list.last().0
    }
}

/// The weights, each as often as it stands in the list.
pub open spec fn bag(list: Seq<(nat, Seq<bool>)>) -> Multiset<nat>
    decreases list.len(),
{
    if list.len() == 0 {
        Multiset::empty()
    } else {
        bag(list.drop_last()).insert(list.last().0)
    }
}

/// No bit string of the list begins another entry's.
pub open spec fn free(list: Seq<(nat, Seq<bool>)>) -> bool {
    forall|i: int, j: int|
        0 <= i < list.len() && 0 <= j < list.len() && i != j ==> !is_prefix(
            (#[trigger] list[i]).1,
            (#[trigger] list[j]).1,
        )
}

/// A side is shorter than the list by a bit for each of its entries.
pub proof fn lemma_side_length(list: Seq<(nat, Seq<bool>)>, bit: bool)
    ensures
        total_length(side(list, bit)) + side(list, bit).len() <= total_length(list),
        side(list, bit).len() <= list.len(),
    decreases list.len(),
{
    if list.len() > 0 {
        lemma_side_length(list.drop_last(), bit);
        let front = side(list.drop_last(), bit);
        let last = list.last();
        if last.1.len() > 0 && last.1[0] == bit {
            assert(side(list, bit).drop_last() =~= front);
        }
    }
}

/// The tree of a list: the entries whose bit strings begin with `false` go
/// to the left and the others to the right, each without its first bit;
/// where all go to one side, that side's tree is the tree.
pub open spec fn grow(list: Seq<(nat, Seq<bool>)>) -> Shape
    decreases total_length(list),
    via grow_terminates
{
    if list.len() == 0 {
        Shape::Leaf(0)
    } else if list.len() == 1 {
        Shape::Leaf(list[0].0)
    } else {
        let left = side(list, false);
        let right = side(list, true);
        if left.len() > 0 && right.len() > 0 {
            Shape::Fork(Box::new(grow(left)), Box::new(grow(right)))
        } else if left.len() > 0 {
            grow(left)
        } else if right.len() > 0 {
            grow(right)
        } else {
            Shape::Leaf(0)
        }
    }
}

#[via_fn]
proof fn grow_terminates(list: Seq<(nat, Seq<bool>)>) {
    lemma_side_length(list, false);
    lemma_side_length(list, true);
}

/// `entry` is an entry of `list` whose bit string begins with `bit`,
/// without that bit.
pub open spec fn taken_from(list: Seq<(nat, Seq<bool>)>, bit: bool, entry: (nat, Seq<bool>)) -> bool {
    exists|m: int|
        0 <= m < list.len() && (#[trigger] list[m]).1.len() > 0 && list[m].1[0] == bit && entry == (
            list[m].0,
            list[m].1.drop_first(),
        )
}

/// Each entry of a side is taken from the list, and a side of a list in
/// which no bit string begins another is such a list.
pub proof fn lemma_side(list: Seq<(nat, Seq<bool>)>, bit: bool)
    ensures
        forall|k: int|
            0 <= k < side(list, bit).len() ==> taken_from(list, bit, #[trigger] side(list, bit)[k]),
        free(list) ==> free(side(list, bit)),
    decreases list.len(),
{
    let this = side(list, bit);
    if list.len() > 0 {
        let front = list.drop_last();
        let before = side(front, bit);
        let last = list.last();
        let n = list.len() - 1;
        lemma_side(front, bit);
        assert forall|k: int| 0 <= k < this.len() implies taken_from(
            list,
            bit,
            #[trigger] this[k],
        ) by {
            if k < before.len() {
                assert(this[k] == before[k]);
                assert(taken_from(front, bit, before[k]));
                let m = choose|m: int|
                    0 <= m < front.len() && (#[trigger] front[m]).1.len() > 0 && front[m].1[0]
                        == bit && before[k] == (front[m].0, front[m].1.drop_first());
                assert(list[m] == front[m]);
            } else {
                assert(list[n] == last);
            }
        }
        if free(list) {
            assert(free(front)) by {
                assert forall|i: int, j: int|
                    0 <= i < front.len() && 0 <= j < front.len() && i != j implies !is_prefix(
                    (#[trigger] front[i]).1,
                    (#[trigger] front[j]).1,
                ) by {
                    assert(front[i] == list[i] && front[j] == list[j]);
                }
            }
            assert forall|i: int, j: int|
                0 <= i < this.len() && 0 <= j < this.len() && i != j implies !is_prefix(
                (#[trigger] this[i]).1,
                (#[trigger] this[j]).1,
            ) by {
                if i < before.len() && j < before.len() {
                    assert(this[i] == before[i] && this[j] == before[j]);
                } else {
                    let inner = if i < before.len() {
                        i
                    } else {
                        j
                    };
                    assert(this[inner] == before[inner]);
                    assert(taken_from(front, bit, before[inner]));
                    let m = choose|m: int|
                        0 <= m < front.len() && (#[trigger] front[m]).1.len() > 0 && front[m].1[0]
                            == bit && before[inner] == (front[m].0, front[m].1.drop_first());
                    assert(list[m] == front[m]);
                    assert(list[n] == last);
                    assert(!is_prefix(list[m].1, list[n].1) && !is_prefix(list[n].1, list[m].1));
                    if is_prefix(this[i].1, this[j].1) {
                        if i < before.len() {
                            lemma_strip(list[m].1, list[n].1);
                        } else {
                            lemma_strip(list[n].1, list[m].1);
                        }
                    }
                }
            }
        }
    }
}

/// Of two bit strings with the same first bit, one begins the other where
/// it does so without that bit.
pub proof fn lemma_strip(a: Seq<bool>, b: Seq<bool>)
    requires
        a.len() > 0,
        b.len() > 0,
        a[0] == b[0],
        is_prefix(a.drop_first(), b.drop_first()),
    ensures
        is_prefix(a, b),
{
    assert forall|k: int| 0 <= k < a.len() implies b.take(a.len() as int)[k] == a[k] by {
        if k > 0 {
            assert(b.drop_first().take(a.drop_first().len() as int)[k - 1] == a.drop_first()[k
                - 1]);
        }
    }
    assert(b.take(a.len() as int) =~= a);
}

/// Where no bit string is empty, the two sides hold the weights of the
/// list between them, and the list takes the bits of the sides and one
/// more for each weight.
pub proof fn lemma_sides(list: Seq<(nat, Seq<bool>)>)
    requires
        forall|k: int| 0 <= k < list.len() ==> (#[trigger] list[k]).1.len() > 0,
    ensures
        bag(list) == bag(side(list, false)).add(bag(side(list, true))),
        total_bits(list) == total_bits(side(list, false)) + total_bits(side(list, true))
            + total_weight(list),
        total_weight(list) == total_weight(side(list, false)) + total_weight(side(list, true)),
    decreases list.len(),
{
    broadcast use vstd::multiset::group_multiset_axioms;

    if list.len() > 0 {
        let front = list.drop_last();
        let last = list.last();
        assert forall|k: int| 0 <= k < front.len() implies (#[trigger] front[k]).1.len() > 0 by {
            assert(front[k] == list[k]);
        }
        lemma_sides(front);
        assert(list[list.len() - 1] == last);
        let bit = last.1[0];
        let entry = (last.0, last.1.drop_first());
        assert(side(list, bit) == side(front, bit).push(entry));
        assert(side(list, !bit) == side(front, !bit));
        assert(side(list, bit).drop_last() =~= side(front, bit));
        assert(side(list, bit).last() == entry);
        assert(last.0 * last.1.len() == last.0 * entry.1.len() + last.0) by (nonlinear_arith)
            requires
                last.1.len() == entry.1.len() + 1,
        ;
        assert(bag(list) =~= bag(side(list, false)).add(bag(side(list, true))));
    } else {
        assert(bag(list) =~= bag(side(list, false)).add(bag(side(list, true))));
    }
}

/// The tree of a list in which no bit string begins another has the
/// weights of the list at its leaves and costs no more than the list takes
/// bits.
pub proof fn lemma_grow(list: Seq<(nat, Seq<bool>)>)
    requires
        list.len() > 0,
        free(list),
    ensures
        grow(list).leaves() == bag(list),
        grow(list).weight() == total_weight(list),
        grow(list).cost() <= total_bits(list),
    decreases total_length(list),
{
    broadcast use vstd::multiset::group_multiset_axioms;

    if list.len() == 1 {
        assert(list.drop_last().len() == 0);
        assert(bag(list.drop_last()) == Multiset::<nat>::empty());
        assert(total_weight(list.drop_last()) == 0);
        assert(list.last() == list[0]);
        assert(grow(list).leaves() =~= bag(list));
    } else {
        let left = side(list, false);
        let right = side(list, true);
        assert forall|k: int| 0 <= k < list.len() implies (#[trigger] list[k]).1.len() > 0 by {
            let other = if k == 0 {
                1int
            } else {
                0int
            };
            if list[k].1.len() == 0 {
                assert(list[other].1.take(0) =~= list[k].1);
                assert(is_prefix(list[k].1, list[other].1));
            }
        }
        lemma_sides(list);
        lemma_side(list, false);
        lemma_side(list, true);
        lemma_side_length(list, false);
        lemma_side_length(list, true);
        lemma_bag_len(list);
        lemma_bag_len(left);
        lemma_bag_len(right);
        if left.len() > 0 {
            lemma_grow(left);
        }
        if right.len() > 0 {
            lemma_grow(right);
        }
        if left.len() > 0 && right.len() > 0 {
        } else if left.len() > 0 {
            assert(bag(right) == Multiset::<nat>::empty());
            assert(bag(list) =~= bag(left));
            assert(total_bits(right) == 0 && total_weight(right) == 0);
        } else {
            assert(bag(left) == Multiset::<nat>::empty());
            assert(bag(list) =~= bag(right));
            assert(total_bits(left) == 0 && total_weight(left) == 0);
        }
    }
}

/// A list holds as many weights as it has entries.
pub proof fn lemma_bag_len(list: Seq<(nat, Seq<bool>)>)
    ensures
        bag(list).len() == list.len(),
    decreases list.len(),
{
    broadcast use vstd::multiset::group_multiset_axioms;

    if list.len() > 0 {
        lemma_bag_len(list.drop_last());
    }
}

/// The weights of a list are those of the sequence of its weights.
pub proof fn lemma_bag_weights(list: Seq<(nat, Seq<bool>)>)
    ensures
        bag(list) == Seq::new(list.len(), |k: int| list[k].0).to_multiset(),
    decreases list.len(),
{
    broadcast use vstd::multiset::group_multiset_axioms;
    broadcast use vstd::seq_lib::group_to_multiset_ensures;

    let weights = Seq::new(list.len(), |k: int| list[k].0);
    if list.len() > 0 {
        let front = list.drop_last();
        lemma_bag_weights(front);
        let before = Seq::new(front.len(), |k: int| front[k].0);
        assert(weights =~= before.push(list.last().0));
        assert(bag(list) =~= weights.to_multiset());
    } else {
        assert(weights =~= Seq::empty());
        assert(bag(list) =~= weights.to_multiset());
    }
}

/// For each of `symbols` the number of its occurrences in `text` and its
/// bit string under `table`.
pub open spec fn rated(symbols: Seq<char>, table: Seq<(char, Seq<bool>)>, text: Seq<char>) -> Seq<
    (nat, Seq<bool>),
> {
    Seq::new(
        symbols.len(),
        |k: int| (occurrences(text, symbols[k]), symbol_bits(table, symbols[k])),
    )
}

/// No symbol stands twice in the list.
pub open spec fn distinct(symbols: Seq<char>) -> bool {
    forall|i: int, j: int| 0 <= i < j < symbols.len() ==> symbols[i] != symbols[j]
}

/// One more symbol in the text adds the length of its bit string to the
/// bits of the rated symbols, where it is one of them.
pub proof fn lemma_rated_push(
    symbols: Seq<char>,
    table: Seq<(char, Seq<bool>)>,
    text: Seq<char>,
    symbol: char,
)
    requires
        distinct(symbols),
    ensures
        total_bits(rated(symbols, table, text.push(symbol))) == total_bits(
            rated(symbols, table, text),
        ) + if symbols.contains(symbol) {
            symbol_bits(table, symbol).len()
        } else {
            0
        },
    decreases symbols.len(),
{
    let longer = text.push(symbol);
    assert(longer.drop_last() =~= text);
    if symbols.len() > 0 {
        let front = symbols.drop_last();
        assert forall|i: int, j: int| 0 <= i < j < front.len() implies front[i] != front[j] by {
            assert(front[i] == symbols[i] && front[j] == symbols[j]);
        }
        lemma_rated_push(front, table, text, symbol);
        assert(rated(symbols, table, text).drop_last() =~= rated(front, table, text));
        assert(rated(symbols, table, longer).drop_last() =~= rated(front, table, longer));
        let last = symbols.last();
        let n = symbol_bits(table, last).len();
        let count = occurrences(text, last);
        if last == symbol {
            if front.contains(symbol) {
                let k = choose|k: int| 0 <= k < front.len() && front[k] == symbol;
                assert(symbols[k] == symbol);
                assert(symbols[symbols.len() - 1] == symbol);
            }
            assert(symbols[symbols.len() - 1] == symbol);
            assert((count + 1) * n == count * n + n) by (nonlinear_arith);
        } else {
            if symbols.contains(symbol) {
                let k = choose|k: int| 0 <= k < symbols.len() && symbols[k] == symbol;
                assert(front[k] == symbol);
            }
            if front.contains(symbol) {
                let k = choose|k: int| 0 <= k < front.len() && front[k] == symbol;
                assert(symbols[k] == symbol);
            }
        }
    } else {
        assert(rated(symbols, table, text) =~= Seq::empty());
        assert(rated(symbols, table, longer) =~= Seq::empty());
    }
}

/// The rated symbols of an empty text take no bits.
pub proof fn lemma_rated_empty(symbols: Seq<char>, table: Seq<(char, Seq<bool>)>)
    ensures
        total_bits(rated(symbols, table, Seq::empty())) == 0,
    decreases symbols.len(),
{
    let list = rated(symbols, table, Seq::empty());
    if symbols.len() > 0 {
        lemma_rated_empty(symbols.drop_last(), table);
        assert(list.drop_last() =~= rated(symbols.drop_last(), table, Seq::empty()));
        assert(occurrences(Seq::empty(), symbols.last()) == 0);
        assert(0 * list.last().1.len() == 0) by (nonlinear_arith);
    }
}

/// Where every symbol of a text is one of `symbols`, each of them once,
/// the rated symbols take the bits that the text takes.
pub proof fn lemma_rated_bits(symbols: Seq<char>, table: Seq<(char, Seq<bool>)>, text: Seq<char>)
    requires
        distinct(symbols),
        forall|k: int| 0 <= k < text.len() ==> symbols.contains(#[trigger] text[k]),
    ensures
        total_bits(rated(symbols, table, text)) == encode(text, table).len(),
    decreases text.len(),
{
    if text.len() == 0 {
        assert(text =~= Seq::empty());
        lemma_rated_empty(symbols, table);
    } else {
        let front = text.drop_last();
        assert forall|k: int| 0 <= k < front.len() implies symbols.contains(
            #[trigger] front[k],
        ) by {
            assert(front[k] == text[k]);
        }
        lemma_rated_bits(symbols, table, front);
        lemma_rated_push(symbols, table, front, text.last());
        assert(front.push(text.last()) =~= text);
        assert(symbols.contains(text[text.len() - 1]));
    }
}

/// Under a table without empty bit strings that has an entry for each
/// symbol of a text, the text takes at least one bit for each symbol.
pub proof fn lemma_encode_at_least(text: Seq<char>, table: Seq<(char, Seq<bool>)>)
    requires
        valid_table(table),
        covers(table, text),
    ensures
        encode(text, table).len() >= text.len(),
    decreases text.len(),
{
    if text.len() > 0 {
        let front = text.drop_last();
        assert forall|k: int| 0 <= k < front.len() implies index_of(table, #[trigger] front[k])
            < table.len() by {
            assert(front[k] == text[k]);
        }
        lemma_encode_at_least(front, table);
        assert(index_of(table, text[text.len() - 1]) < table.len());
        lemma_index_of(table, text.last());
    }
}

/// No table is shorter: under no valid table with an entry for each of its
/// symbols does a text take fewer bits than under the code table of its
/// Huffman tree.
pub proof fn lemma_no_table_shorter(text: Seq<char>, table: Seq<(char, Seq<bool>)>)
    requires
        text.len() <= usize::MAX,
        valid_table(table),
        covers(table, text),
    ensures
        encode(text, text_table(text)).len() <= encode(text, table).len(),
{
    let counts = frequencies_of(text);
    lemma_frequencies_of(text);
    if text.len() == 0 {
    } else if counts.len() == 1 {
        let symbol = counts[0].0;
        assert forall|k: int| 0 <= k < text.len() implies text[k] == symbol by {
            lemma_occurs(text, k);
            let m = choose|m: int| 0 <= m < counts.len() && counts[m].0 == text[k];
        }
        lemma_single_symbol(text, symbol);
        lemma_constant_text(text, symbol);
        let single = text_table(text);
        assert(single.drop_last() =~= Seq::empty());
        lemma_encode_bill(single, text);
        assert(crate::length::bill(single.drop_last(), text) == 0);
        assert(single.last() == (symbol, seq![false]));
        assert(occurrences(text, symbol) * 1 == occurrences(text, symbol)) by (nonlinear_arith);
        lemma_encode_at_least(text, table);
    } else {
        lemma_occurs(text, 0);
        let leaves = leaves_of(counts);
        let root = merge_all(leaves);
        let symbols = Seq::new(counts.len(), |k: int| counts[k].0);
        let list = rated(symbols, table, text);
        assert forall|k: int| 0 <= k < text.len() implies symbols.contains(#[trigger] text[k]) by {
            lemma_occurs(text, k);
            let m = choose|m: int| 0 <= m < counts.len() && counts[m].0 == text[k];
            assert(symbols[m] == text[k]);
        }
        lemma_rated_bits(symbols, table, text);
        assert forall|i: int, j: int|
            0 <= i < list.len() && 0 <= j < list.len() && i != j implies !is_prefix(
            (#[trigger] list[i]).1,
            (#[trigger] list[j]).1,
        ) by {
            assert(counts[i].1 == occurrences(text, counts[i].0));
            assert(counts[j].1 == occurrences(text, counts[j].0));
            lemma_occurs_somewhere(text, counts[i].0);
            lemma_occurs_somewhere(text, counts[j].0);
            lemma_index_of(table, counts[i].0);
            lemma_index_of(table, counts[j].0);
            assert(counts[i].0 != counts[j].0);
        }
        lemma_grow(list);
        lemma_bag_weights(list);
        assert(Seq::new(list.len(), |k: int| list[k].0) =~= weights_of(leaves)) by {
            assert forall|k: int| 0 <= k < list.len() implies list[k].0 == weights_of(leaves)[k] by {
                assert(counts[k].1 == occurrences(text, counts[k].0));
            }
        }
        lemma_merge_cost_least(weights_of(leaves), grow(list));
        lemma_text_bits(text);
        lemma_leaves_of(counts);
        lemma_leaves_cost(counts);
        lemma_merge_all(leaves);
        lemma_merge_all_cost(leaves);
        lemma_shape_of(root, 0);
    }
}

} // verus!

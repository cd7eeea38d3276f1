//! Counting how often each symbol occurs in a text.

use vstd::prelude::*;

verus! {

/// How many positions of `text` hold `symbol`.
pub open spec fn occurrences(text: Seq<char>, symbol: char) -> nat
    decreases text.len(),
{
    if text.len() == 0 {
        0
    } else {
        occurrences(text.drop_last(), symbol) + if text.last() == symbol {
            1nat
        } else {
            0nat
        }
    }
}

/// `table` is the frequency table of `text`: one entry for each symbol that
/// occurs, with the number of its occurrences, in ascending order of symbols.
pub open spec fn is_frequency_table(table: Seq<(char, usize)>, text: Seq<char>) -> bool {
    &&& forall|i: int, j: int| 0 <= i < j < table.len() ==> table[i].0 < table[j].0
    &&& forall|i: int|
        0 <= i < table.len() ==> table[i].1 > 0 && #[trigger] table[i].1 == occurrences(
            text,
            table[i].0,
        )
    &&& forall|c: char| #[trigger]
        occurrences(text, c) > 0 ==> exists|i: int| 0 <= i < table.len() && table[i].0 == c
}

/// The frequency table of `text`.
pub open spec fn frequencies_of(text: Seq<char>) -> Seq<(char, usize)> {
    choose|table: Seq<(char, usize)>| is_frequency_table(table, text)
}

/// Sum of the counts of a frequency table.
pub open spec fn table_total(table: Seq<(char, usize)>) -> nat
    decreases table.len(),
{
    if table.len() == 0 {
        0
    } else {
        table_total(table.drop_last()) + table.last().1 as nat
    }
}

/// Two tables in ascending order of symbols that hold the same entries are
/// the same table.
pub proof fn lemma_sorted_tables_equal(a: Seq<(char, usize)>, b: Seq<(char, usize)>)
    requires
        forall|i: int, j: int| 0 <= i < j < a.len() ==> a[i].0 < a[j].0,
        forall|i: int, j: int| 0 <= i < j < b.len() ==> b[i].0 < b[j].0,
        forall|i: int| 0 <= i < a.len() ==> b.contains(#[trigger] a[i]),
        forall|j: int| 0 <= j < b.len() ==> a.contains(#[trigger] b[j]),
    ensures
        a == b,
    decreases a.len(),
{
    if a.len() == 0 {
        if b.len() > 0 {
            assert(a.contains(b[0]));
        }
        assert(a =~= b);
    } else {
        let last_a = a.last();
        assert(b.contains(a[a.len() - 1]));
        let j = choose|j: int| 0 <= j < b.len() && b[j] == last_a;
        let last_b = b.last();
        assert(a.contains(b[b.len() - 1]));
        let i = choose|i: int| 0 <= i < a.len() && a[i] == last_b;
        assert(j == b.len() - 1);
        let front_a = a.drop_last();
        let front_b = b.drop_last();
        assert forall|k: int| 0 <= k < front_a.len() implies front_b.contains(
            #[trigger] front_a[k],
        ) by {
            assert(b.contains(a[k]));
            let m = choose|m: int| 0 <= m < b.len() && b[m] == a[k];
            assert(front_b[m] == a[k]);
        }
        assert forall|k: int| 0 <= k < front_b.len() implies front_a.contains(
            #[trigger] front_b[k],
        ) by {
            assert(a.contains(b[k]));
            let m = choose|m: int| 0 <= m < a.len() && a[m] == b[k];
            assert(front_a[m] == b[k]);
        }
        lemma_sorted_tables_equal(front_a, front_b);
        assert(a =~= front_a.push(last_a));
        assert(b =~= front_b.push(last_b));
    }
}

/// A text has one frequency table.
pub proof fn lemma_frequency_table_unique(table: Seq<(char, usize)>, text: Seq<char>)
    requires
        is_frequency_table(table, text),
    ensures
        table == frequencies_of(text),
{
    let other = frequencies_of(text);
    assert(is_frequency_table(other, text));
    assert forall|i: int| 0 <= i < table.len() implies other.contains(#[trigger] table[i]) by {
        assert(table[i].1 == occurrences(text, table[i].0));
        let j = choose|j: int| 0 <= j < other.len() && other[j].0 == table[i].0;
        assert(other[j].1 == occurrences(text, other[j].0));
    }
    assert forall|j: int| 0 <= j < other.len() implies table.contains(#[trigger] other[j]) by {
        assert(other[j].1 == occurrences(text, other[j].0));
        let i = choose|i: int| 0 <= i < table.len() && table[i].0 == other[j].0;
        assert(table[i].1 == occurrences(text, table[i].0));
    }
    lemma_sorted_tables_equal(table, other);
}

/// Raising one count by one raises the total by one.
pub proof fn lemma_total_update(table: Seq<(char, usize)>, k: int, entry: (char, usize))
    requires
        0 <= k < table.len(),
    ensures
        table_total(table.update(k, entry)) == table_total(table) - table[k].1 + entry.1,
    decreases table.len(),
{
    let changed = table.update(k, entry);
    if k == table.len() - 1 {
        assert(changed.drop_last() =~= table.drop_last());
    } else {
        lemma_total_update(table.drop_last(), k, entry);
        assert(changed.drop_last() =~= table.drop_last().update(k, entry));
    }
}

/// A new entry adds its count to the total.
pub proof fn lemma_total_insert(table: Seq<(char, usize)>, k: int, entry: (char, usize))
    requires
        0 <= k <= table.len(),
    ensures
        table_total(table.insert(k, entry)) == table_total(table) + entry.1,
    decreases table.len(),
{
    let longer = table.insert(k, entry);
    if k == table.len() {
        assert(longer.drop_last() =~= table);
    } else {
        lemma_total_insert(table.drop_last(), k, entry);
        assert(longer.drop_last() =~= table.drop_last().insert(k, entry));
        assert(longer.last() == table.last());
    }
}

/// The symbol at a position of a text occurs in it.
pub proof fn lemma_occurs(text: Seq<char>, k: int)
    requires
        0 <= k < text.len(),
    ensures
        occurrences(text, text[k]) > 0,
    decreases text.len(),
{
    if k < text.len() - 1 {
        lemma_occurs(text.drop_last(), k);
    }
}

/// A symbol that occurs in a text stands at one of its positions.
pub proof fn lemma_occurs_somewhere(text: Seq<char>, symbol: char)
    requires
        occurrences(text, symbol) > 0,
    ensures
        exists|k: int| 0 <= k < text.len() && text[k] == symbol,
    decreases text.len(),
{
    if text.last() == symbol {
        assert(text[text.len() - 1] == symbol);
    } else {
        lemma_occurs_somewhere(text.drop_last(), symbol);
        let k = choose|k: int| 0 <= k < text.drop_last().len() && text.drop_last()[k] == symbol;
        assert(text[k] == symbol);
    }
}

/// A symbol occurs at most once per position.
pub proof fn lemma_occurrences_bound(text: Seq<char>, symbol: char)
    ensures
        occurrences(text, symbol) <= text.len(),
    decreases text.len(),
{
    if text.len() > 0 {
        lemma_occurrences_bound(text.drop_last(), symbol);
    }
}

/// Position of the first entry of `table[..n]` whose symbol is not below
/// `symbol`; `n` where there is none.
pub open spec fn slot(table: Seq<(char, usize)>, symbol: char, n: int) -> int
    decreases n,
{
    if n <= 0 {
        0
    } else {
        let before = slot(table, symbol, n - 1);
        if before < n - 1 || table[n - 1].0 >= symbol {
            before
        } else {
            n
        }
    }
}

/// `table` after one more occurrence of `symbol`, whose place is `place`:
/// the count there is raised where the symbol stands there, else an entry
/// with count one goes in.
pub open spec fn tally(table: Seq<(char, usize)>, symbol: char, place: int) -> Seq<(char, usize)> {
    if place < table.len() && table[place].0 == symbol {
        table.update(place, (symbol, (table[place].1 + 1) as usize))
    } else {
        table.insert(place, (symbol, 1usize))
    }
}

/// Before `slot` the symbols are below `symbol`, and at it none is.
pub proof fn lemma_slot(table: Seq<(char, usize)>, symbol: char, n: int)
    requires
        0 <= n <= table.len(),
        forall|i: int, j: int| 0 <= i < j < table.len() ==> table[i].0 < table[j].0,
    ensures
        0 <= slot(table, symbol, n) <= n,
        forall|i: int| 0 <= i < slot(table, symbol, n) ==> (#[trigger] table[i]).0 < symbol,
        slot(table, symbol, n) < n ==> table[slot(table, symbol, n)].0 >= symbol,
    decreases n,
{
    if n > 0 {
        lemma_slot(table, symbol, n - 1);
    }
}

/// A frequency table stays one when `tally` counts one more symbol at its
/// place, and its total grows by one.
pub proof fn lemma_tally(table: Seq<(char, usize)>, text: Seq<char>, symbol: char, place: int)
    requires
        is_frequency_table(table, text),
        text.len() < usize::MAX,
        0 <= place <= table.len(),
        forall|i: int| 0 <= i < place ==> (#[trigger] table[i]).0 < symbol,
        place < table.len() ==> table[place].0 >= symbol,
    ensures
        is_frequency_table(tally(table, symbol, place), text.push(symbol)),
        table_total(tally(table, symbol, place)) == table_total(table) + 1,
{
    let after = text.push(symbol);
    let next = tally(table, symbol, place);
    assert(after.drop_last() =~= text);
    lemma_occurrences_bound(text, symbol);
    if place < table.len() && table[place].0 == symbol {
        lemma_total_update(table, place, (symbol, (table[place].1 + 1) as usize));
        assert forall|d: char| #[trigger] occurrences(after, d) > 0 implies exists|i: int|
            0 <= i < next.len() && next[i].0 == d by {
            if d != symbol {
                assert(occurrences(text, d) > 0);
                let i = choose|i: int| 0 <= i < table.len() && table[i].0 == d;
                assert(next[i].0 == d);
            } else {
                assert(next[place].0 == d);
            }
        }
    } else {
        lemma_total_insert(table, place, (symbol, 1usize));
        assert(occurrences(text, symbol) == 0) by {
            if occurrences(text, symbol) > 0 {
                let i = choose|i: int| 0 <= i < table.len() && table[i].0 == symbol;
                if i >= place {
                    assert(table[place].0 <= table[i].0);
                }
            }
        }
        assert forall|d: char| #[trigger] occurrences(after, d) > 0 implies exists|i: int|
            0 <= i < next.len() && next[i].0 == d by {
            if d != symbol {
                assert(occurrences(text, d) > 0);
                let i = choose|i: int| 0 <= i < table.len() && table[i].0 == d;
                if i < place {
                    assert(next[i].0 == d);
                } else {
                    assert(next[i + 1].0 == d);
                }
            } else {
                assert(next[place].0 == d);
            }
        }
        assert forall|i: int, j: int| 0 <= i < j < next.len() implies next[i].0 < next[j].0 by {
            if j < place {
            } else if j == place {
            } else if i < place {
                assert(next[j] == table[j - 1]);
            } else if i == place {
                assert(next[j] == table[j - 1]);
            } else {
                assert(next[i] == table[i - 1]);
                assert(next[j] == table[j - 1]);
            }
        }
        assert forall|i: int| 0 <= i < next.len() implies next[i].1 > 0 && #[trigger] next[i].1
            == occurrences(after, next[i].0) by {
            if i < place {
                assert(next[i] == table[i]);
            } else if i > place {
                assert(next[i] == table[i - 1]);
            }
        }
    }
}

/// Every text that fits the machine has a frequency table, and the counts
/// of the table add up to the length of the text.
pub proof fn lemma_frequencies_of(text: Seq<char>)
    requires
        text.len() <= usize::MAX,
    ensures
        is_frequency_table(frequencies_of(text), text),
        table_total(frequencies_of(text)) == text.len(),
    decreases text.len(),
{
    if text.len() == 0 {
        let empty = Seq::<(char, usize)>::empty();
        assert(is_frequency_table(empty, text));
        lemma_frequency_table_unique(empty, text);
    } else {
        let front = text.drop_last();
        let table = frequencies_of(front);
        lemma_frequencies_of(front);
        let place = slot(table, text.last(), table.len() as int);
        lemma_slot(table, text.last(), table.len() as int);
        lemma_tally(table, front, text.last(), place);
        assert(front.push(text.last()) =~= text);
        lemma_frequency_table_unique(tally(table, text.last(), place), text);
    }
}

/// Counts the occurrences of every symbol of `text`.
pub fn count_frequencies(text: &[char]) -> (table: Vec<(char, usize)>)
    ensures
        table@ == frequencies_of(text@),
        is_frequency_table(table@, text@),
        table_total(table@) == text@.len(),
{
    let mut table: Vec<(char, usize)> = Vec::new();
    let mut k: usize = 0;
    while k < text.len()
        invariant
            k <= text.len(),
            is_frequency_table(table@, text@.take(k as int)),
            table_total(table@) == k,
        decreases text.len() - k,
    {
        let symbol = text[k];
        let mut place: usize = 0;
        while place < table.len() && table[place].0 < symbol
            invariant
                place <= table.len(),
                forall|i: int| 0 <= i < place ==> (#[trigger] table[i]).0 < symbol,
            decreases table.len() - place,
        {
            place += 1;
        }
        proof {
            lemma_tally(table@, text@.take(k as int), symbol, place as int);
            lemma_occurrences_bound(text@.take(k as int), symbol);
            assert(text@.take(k as int).push(symbol) =~= text@.take(k + 1));
        }
        if place < table.len() && table[place].0 == symbol {
            let count: usize = table[place].1;
            table.set(place, (symbol, count + 1));
        } else {
            table.insert(place, (symbol, 1));
        }
        k += 1;
    }
    proof {
        assert(text@.take(k as int) =~= text@);
        lemma_frequency_table_unique(table@, text@);
    }
    table
}

} // verus!

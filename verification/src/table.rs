//! Code tables: which bit string stands for which symbol.

use vstd::prelude::*;

verus! {

/// A code table: entries of a symbol and its bit string, in the order in
/// which the symbols were first entered.
#[derive(Debug)]
pub struct CodeTable {
    pub entries: Vec<(char, Vec<bool>)>,
}

impl View for CodeTable {
    type V = Seq<(char, Seq<bool>)>;

    open spec fn view(&self) -> Seq<(char, Seq<bool>)> {
        Seq::new(self.entries@.len(), |k: int| (self.entries@[k].0, self.entries@[k].1@))
    }
}

/// Position of the first entry for `symbol`; the length of the table where
/// there is none.
pub open spec fn index_of(table: Seq<(char, Seq<bool>)>, symbol: char) -> int
    decreases table.len(),
{
    if table.len() == 0 {
        0
    } else {
        let before = index_of(table.drop_last(), symbol);
        if before < table.len() - 1 {
            before
        } else if table.last().0 == symbol {
            table.len() - 1
        } else {
            table.len() as int
        }
    }
}

/// The bit string of `symbol`, where the table has one.
pub open spec fn code_of(table: Seq<(char, Seq<bool>)>, symbol: char) -> Option<Seq<bool>> {
    let i = index_of(table, symbol);
    if i < table.len() {
        Some(table[i].1)
    } else {
        None
    }
}

/// The table with `entry` in the place of the entry for the same symbol, or
/// at the end where the symbol is new.
pub open spec fn upsert(table: Seq<(char, Seq<bool>)>, entry: (char, Seq<bool>)) -> Seq<
    (char, Seq<bool>),
> {
    let i = index_of(table, entry.0);
    if i < table.len() {
        table.update(i, entry)
    } else {
        table.push(entry)
    }
}

/// `table` after each of `entries` has gone into it, in their order.
pub open spec fn absorb(table: Seq<(char, Seq<bool>)>, entries: Seq<(char, Seq<bool>)>) -> Seq<
    (char, Seq<bool>),
>
    decreases entries.len(),
{
    if entries.len() == 0 {
        table
    } else {
        upsert(absorb(table, entries.drop_last()), entries.last())
    }
}

/// `a` is a prefix of `b`.
pub open spec fn is_prefix(a: Seq<bool>, b: Seq<bool>) -> bool {
    a.len() <= b.len() && b.take(a.len() as int) == a
}

/// No symbol has two entries.
pub open spec fn distinct_symbols(table: Seq<(char, Seq<bool>)>) -> bool {
    forall|i: int, j: int| 0 <= i < j < table.len() ==> table[i].0 != table[j].0
}

/// No bit string of the table is a prefix of another entry's.
pub open spec fn prefix_free(table: Seq<(char, Seq<bool>)>) -> bool {
    forall|i: int, j: int|
        0 <= i < table.len() && 0 <= j < table.len() && i != j ==> !is_prefix(
            table[i].1,
            table[j].1,
        )
}

/// No bit string of the table is empty.
pub open spec fn codes_nonempty(table: Seq<(char, Seq<bool>)>) -> bool {
    forall|i: int| 0 <= i < table.len() ==> (#[trigger] table[i]).1.len() > 0
}

/// What a code table promises: one entry per symbol, no empty bit string,
/// and no bit string that begins another.
pub open spec fn valid_table(table: Seq<(char, Seq<bool>)>) -> bool {
    distinct_symbols(table) && codes_nonempty(table) && prefix_free(table)
}

/// `index_of` gives a position of the table or its length; at a position
/// stands the first entry for the symbol, and at the length no entry has it.
pub proof fn lemma_index_of(table: Seq<(char, Seq<bool>)>, symbol: char)
    ensures
        0 <= index_of(table, symbol) <= table.len(),
        index_of(table, symbol) < table.len() ==> table[index_of(table, symbol)].0 == symbol,
        forall|k: int| 0 <= k < index_of(table, symbol) ==> (#[trigger] table[k]).0 != symbol,
    decreases table.len(),
{
    if table.len() > 0 {
        lemma_index_of(table.drop_last(), symbol);
        let before = index_of(table.drop_last(), symbol);
        assert forall|k: int| 0 <= k < index_of(table, symbol) implies (#[trigger] table[k]).0
            != symbol by {
            if k < table.len() - 1 {
                assert(table.drop_last()[k] == table[k]);
            }
        }
        if before < table.len() - 1 {
            assert(table.drop_last()[before] == table[before]);
        }
    }
}

/// What begins with `path` and one more bit begins with `path`, is longer
/// than `path`, and holds that bit behind it.
pub proof fn lemma_prefix_push(path: Seq<bool>, bit: bool, code: Seq<bool>)
    requires
        is_prefix(path.push(bit), code),
    ensures
        is_prefix(path, code),
        code.len() > path.len(),
        code[path.len() as int] == bit,
{
    let longer = path.push(bit);
    assert(code.take(longer.len() as int)[path.len() as int] == longer[path.len() as int]);
    assert(code.take(path.len() as int) =~= code.take(longer.len() as int).take(path.len() as int));
    assert(longer.take(path.len() as int) =~= path);
}

/// Two bit strings that differ at a position of both do not begin each other.
pub proof fn lemma_diverge(a: Seq<bool>, b: Seq<bool>, k: int)
    requires
        0 <= k < a.len(),
        0 <= k < b.len(),
        a[k] != b[k],
    ensures
        !is_prefix(a, b),
        !is_prefix(b, a),
{
    if is_prefix(a, b) {
        assert(b.take(a.len() as int)[k] == b[k]);
    }
    if is_prefix(b, a) {
        assert(a.take(b.len() as int)[k] == a[k]);
    }
}

/// A symbol is found in `a + b` where it is found in `a` or in `b`.
pub proof fn lemma_index_of_concat(
    a: Seq<(char, Seq<bool>)>,
    b: Seq<(char, Seq<bool>)>,
    symbol: char,
)
    ensures
        index_of(a + b, symbol) < (a + b).len() <==> index_of(a, symbol) < a.len() || index_of(
            b,
            symbol,
        ) < b.len(),
{
    let ab = a + b;
    lemma_index_of(a, symbol);
    lemma_index_of(b, symbol);
    lemma_index_of(ab, symbol);
    let i = index_of(a, symbol);
    let j = index_of(b, symbol);
    let k = index_of(ab, symbol);
    if i < a.len() {
        assert(ab[i] == a[i]);
        lemma_index_of_found(ab, symbol, i);
    }
    if j < b.len() {
        assert(ab[a.len() + j] == b[j]);
        lemma_index_of_found(ab, symbol, a.len() + j);
    }
    if k < ab.len() {
        if k < a.len() {
            assert(ab[k] == a[k]);
            lemma_index_of_found(a, symbol, k);
        } else {
            assert(ab[k] == b[k - a.len()]);
            lemma_index_of_found(b, symbol, k - a.len());
        }
    }
}

/// A symbol that stands at position `k` is found at `k` or before.
pub proof fn lemma_index_of_found(table: Seq<(char, Seq<bool>)>, symbol: char, k: int)
    requires
        0 <= k < table.len(),
        table[k].0 == symbol,
    ensures
        index_of(table, symbol) <= k,
{
    lemma_index_of(table, symbol);
}

/// `upsert` keeps the symbols distinct, holds the new entry, keeps every
/// other entry as it was, and loses no symbol.
pub proof fn lemma_upsert(table: Seq<(char, Seq<bool>)>, entry: (char, Seq<bool>))
    requires
        distinct_symbols(table),
    ensures
        distinct_symbols(upsert(table, entry)),
        table.len() <= upsert(table, entry).len() <= table.len() + 1,
        forall|k: int|
            0 <= k < upsert(table, entry).len() ==> #[trigger] upsert(table, entry)[k] == entry || (
            k < table.len() && upsert(table, entry)[k] == table[k]),
        index_of(upsert(table, entry), entry.0) < upsert(table, entry).len(),
        upsert(table, entry)[index_of(upsert(table, entry), entry.0)] == entry,
        forall|c: char|
            index_of(table, c) < table.len() ==> #[trigger] index_of(upsert(table, entry), c)
                < upsert(table, entry).len(),
{
    let r = upsert(table, entry);
    let i = index_of(table, entry.0);
    lemma_index_of(table, entry.0);
    assert(r[i] == entry);
    lemma_index_of_found(r, entry.0, i);
    assert forall|a: int, b: int| 0 <= a < b < r.len() implies r[a].0 != r[b].0 by {
        if i < table.len() {
            assert(r[a].0 == table[a].0);
            assert(r[b].0 == table[b].0);
        } else if b == i {
            assert(r[a] == table[a]);
        }
    }
    lemma_index_of(r, entry.0);
    let found = index_of(r, entry.0);
    if found != i {
        if found < i {
            assert(r[found].0 == r[i].0);
        }
    }
    assert forall|c: char| index_of(table, c) < table.len() implies #[trigger] index_of(r, c)
        < r.len() by {
        lemma_index_of(table, c);
        let k = index_of(table, c);
        assert(r[k].0 == c);
        lemma_index_of_found(r, c, k);
    }
}

/// A table built by entering `entries` into an empty one has one entry per
/// symbol, each of its entries is one of `entries`, and every symbol of
/// `entries` has an entry.
pub proof fn lemma_absorb(entries: Seq<(char, Seq<bool>)>)
    ensures
        distinct_symbols(absorb(Seq::empty(), entries)),
        forall|k: int|
            0 <= k < absorb(Seq::empty(), entries).len() ==> entries.contains(
                #[trigger] absorb(Seq::empty(), entries)[k],
            ),
        forall|m: int|
            0 <= m < entries.len() ==> index_of(
                absorb(Seq::empty(), entries),
                (#[trigger] entries[m]).0,
            ) < absorb(Seq::empty(), entries).len(),
    decreases entries.len(),
{
    let t = absorb(Seq::empty(), entries);
    if entries.len() > 0 {
        let front = entries.drop_last();
        let before = absorb(Seq::empty(), front);
        lemma_absorb(front);
        lemma_upsert(before, entries.last());
        assert forall|k: int| 0 <= k < t.len() implies entries.contains(#[trigger] t[k]) by {
            if t[k] == entries.last() {
                assert(entries[entries.len() - 1] == t[k]);
            } else {
                assert(front.contains(before[k]));
                let m = choose|m: int| 0 <= m < front.len() && front[m] == before[k];
                assert(entries[m] == t[k]);
            }
        }
        assert forall|m: int| 0 <= m < entries.len() implies index_of(
            t,
            (#[trigger] entries[m]).0,
        ) < t.len() by {
            if m < front.len() {
                assert(front[m] == entries[m]);
                assert(index_of(before, front[m].0) < before.len());
            }
        }
    }
}

/// Entering one entry is `upsert`.
pub proof fn lemma_absorb_one(table: Seq<(char, Seq<bool>)>, entry: (char, Seq<bool>))
    ensures
        absorb(table, seq![entry]) == upsert(table, entry),
{
    let one = seq![entry];
    assert(one.drop_last() =~= Seq::empty());
    assert(absorb(table, one.drop_last()) == table);
    assert(one.last() == entry);
}

/// Entering `a` and then `b` is entering `a + b`.
pub proof fn lemma_absorb_concat(
    table: Seq<(char, Seq<bool>)>,
    a: Seq<(char, Seq<bool>)>,
    b: Seq<(char, Seq<bool>)>,
)
    ensures
        absorb(table, a + b) == absorb(absorb(table, a), b),
    decreases b.len(),
{
    if b.len() == 0 {
        assert(a + b =~= a);
    } else {
        lemma_absorb_concat(table, a, b.drop_last());
        assert((a + b).drop_last() =~= a + b.drop_last());
        assert((a + b).last() == b.last());
    }
}

/// A copy of `bits`.
pub fn copy_bits(bits: &Vec<bool>) -> (copy: Vec<bool>)
    ensures
        copy@ == bits@,
{
    let mut copy: Vec<bool> = Vec::new();
    let mut k: usize = 0;
    while k < bits.len()
        invariant
            k <= bits.len(),
            copy@ == bits@.take(k as int),
        decreases bits.len() - k,
    {
        copy.push(bits[k]);
        assert(copy@ =~= bits@.take(k + 1));
        k += 1;
    }
    assert(bits@.take(k as int) =~= bits@);
    copy
}

/// Whether `b` begins with `a`.
pub fn begins_with(a: &Vec<bool>, b: &Vec<bool>) -> (r: bool)
    ensures
        r == is_prefix(a@, b@),
{
    if a.len() > b.len() {
        return false;
    }
    let mut k: usize = 0;
    while k < a.len()
        invariant
            k <= a.len() <= b.len(),
            forall|m: int| 0 <= m < k ==> a@[m] == b@[m],
        decreases a.len() - k,
    {
        if a[k] != b[k] {
            assert(b@.take(a.len() as int)[k as int] == b@[k as int]);
            return false;
        }
        k += 1;
    }
    assert(b@.take(a.len() as int) =~= a@);
    true
}

impl CodeTable {
    /// Whether the table is valid: one entry per symbol, no empty bit
    /// string, no bit string that begins another.
    pub fn is_valid(&self) -> (r: bool)
        ensures
            r == valid_table(self@),
    {
        let n: usize = self.entries.len();
        let mut i: usize = 0;
        while i < n
            invariant
                i <= n,
                n == self.entries.len(),
                forall|a: int| 0 <= a < i ==> (#[trigger] self@[a]).1.len() > 0,
                forall|a: int, b: int|
                    0 <= a < i && 0 <= b < n && a != b ==> (#[trigger] self@[a]).0 != (
                    #[trigger] self@[b]).0 && !is_prefix(self@[a].1, self@[b].1),
            decreases n - i,
        {
            if self.entries[i].1.len() == 0 {
                assert(self@[i as int].1.len() == 0);
                return false;
            }
            let mut j: usize = 0;
            while j < n
                invariant
                    i < n,
                    j <= n,
                    n == self.entries.len(),
                    forall|b: int|
                        0 <= b < j && i != b ==> self@[i as int].0 != (#[trigger] self@[b]).0
                            && !is_prefix(self@[i as int].1, self@[b].1),
                decreases n - j,
            {
                if i != j {
                    if self.entries[i].0 == self.entries[j].0 {
                        assert(self@[i as int].0 == self@[j as int].0);
                        return false;
                    }
                    if begins_with(&self.entries[i].1, &self.entries[j].1) {
                        assert(is_prefix(self@[i as int].1, self@[j as int].1));
                        return false;
                    }
                }
                j += 1;
            }
            i += 1;
        }
        true
    }

    /// A table without entries.
    pub fn new() -> (table: CodeTable)
        ensures
            table@ == Seq::<(char, Seq<bool>)>::empty(),
    {
        let table = CodeTable { entries: Vec::new() };
        assert(table@ =~= Seq::<(char, Seq<bool>)>::empty());
        table
    }

    /// Number of entries.
    pub fn len(&self) -> (n: usize)
        ensures
            n == self@.len(),
    {
        self.entries.len()
    }

    /// Position of the first entry for `symbol`, or the number of entries
    /// where there is none.
    pub fn position(&self, symbol: char) -> (i: usize)
        ensures
            i == index_of(self@, symbol),
            i <= self@.len(),
    {
        let mut i: usize = 0;
        while i < self.entries.len() && self.entries[i].0 != symbol
            invariant
                i <= self.entries.len(),
                forall|k: int| 0 <= k < i ==> (#[trigger] self@[k]).0 != symbol,
            decreases self.entries.len() - i,
        {
            i += 1;
        }
        proof {
            lemma_index_of(self@, symbol);
            let j = index_of(self@, symbol);
            if j < i {
                assert(self@[j].0 == symbol);
            }
            if i < j {
                assert(self@[i as int].0 != symbol);
            }
        }
        i
    }

    /// The bit string of `symbol`, where the table has one.
    pub fn get(&self, symbol: char) -> (code: Option<&Vec<bool>>)
        ensures
            match code {
                Some(bits) => code_of(self@, symbol) == Some(bits@),
                None => code_of(self@, symbol) is None,
            },
    {
        let i: usize = self.position(symbol);
        if i < self.entries.len() {
            Some(&self.entries[i].1)
        } else {
            None
        }
    }

    /// Enters `code` for `symbol`: in the place of the symbol's entry where
    /// it has one, else at the end.
    pub fn insert(&mut self, symbol: char, code: Vec<bool>)
        ensures
            final(self)@ == upsert(old(self)@, (symbol, code@)),
    {
        let i: usize = self.position(symbol);
        if i < self.entries.len() {
            self.entries.set(i, (symbol, code));
            assert(self@ =~= upsert(old(self)@, (symbol, code@)));
        } else {
            self.entries.push((symbol, code));
            assert(self@ =~= upsert(old(self)@, (symbol, code@)));
        }
    }
}

} // verus!

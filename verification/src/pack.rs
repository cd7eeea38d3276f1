//! Packing a text into bytes under a code table.

use crate::bits::{
    bits_bytes, bits_value, lemma_bits_value_bound, lemma_packed, lemma_two_to, packed, padding,
    two_to, zeros,
};
use crate::error::ArchiveError;
use crate::frequency::{
    count_frequencies, frequencies_of, is_frequency_table, lemma_frequencies_of,
    lemma_frequency_table_unique, lemma_occurs, occurrences,
};
use crate::table::{code_of, index_of, lemma_absorb_one, valid_table, CodeTable};
use crate::tree::{
    build_huff_tree, code_table, get_huffe, leaves_of, lemma_code_table, lemma_leaves_of,
    lemma_merge_all, merge_all, table_symbols,
};
use crate::unpack::{covers, lemma_unpack_packed, unpacked};
use vstd::prelude::*;

verus! {

/// The bits that stand for `symbol`; none where the table has no entry.
pub open spec fn symbol_bits(table: Seq<(char, Seq<bool>)>, symbol: char) -> Seq<bool> {
    match code_of(table, symbol) {
        Some(code) => code,
        None => Seq::empty(),
    }
}

/// The bit strings of the symbols of `text`, one after the other.
pub open spec fn encode(text: Seq<char>, table: Seq<(char, Seq<bool>)>) -> Seq<bool>
    decreases text.len(),
{
    if text.len() == 0 {
        Seq::empty()
    } else {
        encode(text.drop_last(), table) + symbol_bits(table, text.last())
    }
}

/// The bytes written and the bits pending hold `bits`.
pub open spec fn holds(bytes: Seq<u8>, pending: u8, count: u8, bits: Seq<bool>) -> bool {
    &&& count < 8
    &&& count == bits.len() % 8
    &&& bytes == bits_bytes(bits.take(bits.len() - count))
    &&& pending == bits_value(bits.skip(bits.len() - count))
}

/// Appends one bit: it goes into the lowest place of the pending byte, and
/// the byte is written when it has eight bits.
fn push_bit(
    bytes: &mut Vec<u8>,
    pending: &mut u8,
    count: &mut u8,
    bit: bool,
    Ghost(bits): Ghost<Seq<bool>>,
)
    requires
        holds(old(bytes)@, *old(pending), *old(count), bits),
    ensures
        holds(final(bytes)@, *final(pending), *final(count), bits.push(bit)),
{
    let ghost tail = bits.skip(bits.len() - *count);
    let ghost next = bits.push(bit);
    let ghost next_tail = next.skip(next.len() - (*count + 1));
    proof {
        lemma_bits_value_bound(tail);
        lemma_two_to();
        assert(two_to(tail.len()) <= 128);
        assert(next_tail =~= tail.push(bit));
        assert(next_tail.drop_last() =~= tail);
    }
    let value: u8 = if bit {
        *pending * 2 + 1
    } else {
        *pending * 2
    };
    if *count == 7 {
        bytes.push(value);
        *pending = 0;
        *count = 0;
        proof {
            assert(next.take(next.len() - 8) =~= bits.take(bits.len() - 7));
            assert(next.skip(next.len() - 8) =~= next_tail);
            assert(next.take(next.len() - 0) =~= next);
            assert(next.skip(next.len() - 0) =~= Seq::empty());
        }
    } else {
        *pending = value;
        *count = *count + 1;
        proof {
            assert(next.take(next.len() - (*count)) =~= bits.take(bits.len() - *old(count)));
        }
    }
}

/// Packs `text`: the bit strings of its symbols one after the other, eight
/// bits to a byte with the first bit in the highest place, and `false` bits
/// behind the last to fill its byte. A symbol without an entry in `table`
/// adds no bit.
pub fn pack(text: &[char], table: &CodeTable) -> (bytes: Vec<u8>)
    ensures
        bytes@ == packed(encode(text@, table@)),
        bytes@.len() == (encode(text@, table@).len() + 7) / 8,
{
    proof {
        lemma_packed(encode(text@, table@));
    }
    let mut bytes: Vec<u8> = Vec::new();
    let mut pending: u8 = 0;
    let mut count: u8 = 0;
    let ghost mut bits: Seq<bool> = Seq::empty();
    proof {
        assert(bits.take(0) =~= Seq::empty());
        assert(bits.skip(0) =~= Seq::empty());
    }
    let mut k: usize = 0;
    while k < text.len()
        invariant
            k <= text.len(),
            bits == encode(text@.take(k as int), table@),
            holds(bytes@, pending, count, bits),
        decreases text.len() - k,
    {
        let ghost before = bits;
        proof {
            assert(text@.take(k + 1).drop_last() =~= text@.take(k as int));
        }
        match table.get(text[k]) {
            Some(code) => {
                let mut j: usize = 0;
                while j < code.len()
                    invariant
                        j <= code.len(),
                        bits == before + code@.take(j as int),
                        holds(bytes@, pending, count, bits),
                    decreases code.len() - j,
                {
                    push_bit(&mut bytes, &mut pending, &mut count, code[j], Ghost(bits));
                    proof {
                        bits = bits.push(code@[j as int]);
                        assert(bits =~= before + code@.take(j + 1));
                    }
                    j += 1;
                }
                proof {
                    assert(code@.take(j as int) =~= code@);
                }
            },
            None => {
                proof {
                    assert(bits =~= before + Seq::<bool>::empty());
                }
            },
        }
        k += 1;
    }
    proof {
        assert(text@.take(k as int) =~= text@);
    }
    let ghost data = bits;
    let missing: u8 = if count == 0 {
        0
    } else {
        8 - count
    };
    assert(missing == padding(data.len()));
    let mut added: u8 = 0;
    while added < missing
        invariant
            added <= missing,
            holds(bytes@, pending, count, bits),
            bits == data + zeros(added as nat),
        decreases missing - added,
    {
        push_bit(&mut bytes, &mut pending, &mut count, false, Ghost(bits));
        proof {
            assert(bits.push(false) =~= data + zeros((added + 1) as nat));
            bits = bits.push(false);
        }
        added += 1;
    }
    proof {
        assert(bits.len() == data.len() + missing);
        assert(count == 0);
        assert(bits.take(bits.len() - 0) =~= bits);
    }
    bytes
}

/// The code table of a text: that of the Huffman tree of its frequency
/// table.
pub open spec fn text_table(text: Seq<char>) -> Seq<(char, Seq<bool>)> {
    code_table(merge_all(leaves_of(frequencies_of(text))))
}

/// The code table of a text is valid and has an entry for each of its
/// symbols.
pub proof fn lemma_text_table(text: Seq<char>)
    requires
        0 < text.len() <= usize::MAX,
    ensures
        valid_table(text_table(text)),
        covers(text_table(text), text),
{
    let frequencies = frequencies_of(text);
    let root = merge_all(leaves_of(frequencies));
    lemma_frequencies_of(text);
    lemma_occurs(text, 0);
    lemma_leaves_of(frequencies);
    lemma_merge_all(leaves_of(frequencies));
    lemma_code_table(root);
    assert forall|k: int| 0 <= k < text.len() implies index_of(
        text_table(text),
        #[trigger] text[k],
    ) < text_table(text).len() by {
        lemma_occurs(text, k);
        assert(table_symbols(frequencies).contains(text[k]));
    }
}

/// Single symbol: a text of one symbol, however often, has the table that
/// gives this symbol one `false` bit, and what its packed bytes unpack to
/// begins with the text.
pub proof fn lemma_single_symbol(text: Seq<char>, symbol: char)
    requires
        0 < text.len() <= usize::MAX,
        forall|k: int| 0 <= k < text.len() ==> text[k] == symbol,
    ensures
        frequencies_of(text) == seq![(symbol, text.len() as usize)],
        text_table(text) == seq![(symbol, seq![false])],
        unpacked(packed(encode(text, text_table(text))), text_table(text)).take(
            text.len() as int,
        ) == text,
{
    lemma_text_table(text);
    lemma_unpack_packed(text, text_table(text));
    assert(unpacked(packed(encode(text, text_table(text))), text_table(text)).take(
        text.len() as int,
    ) =~= text);
    let table = seq![(symbol, text.len() as usize)];
    lemma_constant_text(text, symbol);
    assert forall|c: char| #[trigger] occurrences(text, c) > 0 implies exists|i: int|
        0 <= i < table.len() && table[i].0 == c by {
        if c != symbol {
            lemma_absent(text, c);
        }
        assert(table[0].0 == symbol);
    }
    assert(is_frequency_table(table, text));
    lemma_frequency_table_unique(table, text);
    let leaves = leaves_of(table);
    assert(leaves.len() == 1);
    let root = merge_all(leaves);
    assert(root == leaves[0]);
    assert(root.is_leaf());
    lemma_absorb_one(Seq::empty(), (symbol, seq![false]));
    assert(text_table(text) =~= seq![(symbol, seq![false])]);
}

/// A text that holds one symbol only holds it as often as it is long.
pub proof fn lemma_constant_text(text: Seq<char>, symbol: char)
    requires
        forall|k: int| 0 <= k < text.len() ==> text[k] == symbol,
    ensures
        occurrences(text, symbol) == text.len(),
    decreases text.len(),
{
    if text.len() > 0 {
        lemma_constant_text(text.drop_last(), symbol);
    }
}

/// A symbol that stands nowhere in a text does not occur in it.
pub proof fn lemma_absent(text: Seq<char>, symbol: char)
    requires
        forall|k: int| 0 <= k < text.len() ==> text[k] != symbol,
    ensures
        occurrences(text, symbol) == 0,
    decreases text.len(),
{
    if text.len() > 0 {
        lemma_absent(text.drop_last(), symbol);
    }
}

/// Compresses `input`: counts its symbols, builds the Huffman tree of the
/// counts, reads the code table off the tree and packs the text under it.
/// A text without symbols has no tree.
pub fn huffe(input: &[char]) -> (r: Result<(Vec<u8>, CodeTable), ArchiveError>)
    ensures
        input@.len() == 0 ==> r == Err::<(Vec<u8>, CodeTable), ArchiveError>(ArchiveError::Tree),
        input@.len() > 0 ==> (r matches Ok((payload, table)) && table@ == text_table(input@)
            && payload@ == packed(encode(input@, table@)) && valid_table(table@) && covers(
            table@,
            input@,
        )),
{
    if input.len() == 0 {
        return Err(ArchiveError::Tree);
    }
    let frequencies = count_frequencies(input);
    proof {
        lemma_occurs(input@, 0);
        lemma_text_table(input@);
    }
    match build_huff_tree(frequencies) {
        Some(root) => {
            let table = get_huffe(&root);
            let payload = pack(input, &table);
            Ok((payload, table))
        },
        None => Err(ArchiveError::Tree),
    }
}

} // verus!

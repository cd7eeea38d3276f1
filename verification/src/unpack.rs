//! Reading a text back out of packed bytes under a code table.

use crate::bits::{
    bytes_bits, lemma_bits_of_value, lemma_bytes_bits_len, lemma_packed, packed, padding, two_to,
    value_bits, zeros,
};
use crate::pack::{encode, symbol_bits};
use crate::table::{index_of, is_prefix, lemma_index_of, valid_table, CodeTable};
use vstd::arithmetic::div_mod::lemma_div_denominator;
use vstd::prelude::*;

verus! {

/// `code` is not empty and `bits` begin with it.
pub open spec fn begins(bits: Seq<bool>, code: Seq<bool>) -> bool {
    code.len() > 0 && is_prefix(code, bits)
}

/// Position of the first entry whose bit string begins `bits`; the length
/// of the table where there is none.
pub open spec fn first_match(table: Seq<(char, Seq<bool>)>, bits: Seq<bool>) -> int
    decreases table.len(),
{
    if table.len() == 0 {
        0
    } else {
        let before = first_match(table.drop_last(), bits);
        if before < table.len() - 1 {
            before
        } else if begins(bits, table.last().1) {
            table.len() - 1
        } else {
            table.len() as int
        }
    }
}

/// The symbols read from the front of `bits`: as long as the bit string of
/// an entry begins what is left, the symbol of the first such entry is read
/// and its bits are taken away. What is left at the end is dropped.
pub open spec fn decode(bits: Seq<bool>, table: Seq<(char, Seq<bool>)>) -> Seq<char>
    decreases bits.len(),
{
    let i = first_match(table, bits);
    if 0 <= i < table.len() && 0 < table[i].1.len() <= bits.len() {
        seq![table[i].0] + decode(bits.skip(table[i].1.len() as int), table)
    } else {
        Seq::empty()
    }
}

/// The text that packed `bytes` hold under `table`.
pub open spec fn unpacked(bytes: Seq<u8>, table: Seq<(char, Seq<bool>)>) -> Seq<char> {
    decode(bytes_bits(bytes), table)
}

/// `first_match` gives a position of the table or its length; at a position
/// stands the first entry whose bit string begins `bits`, and at the length
/// no entry's does.
pub proof fn lemma_first_match(table: Seq<(char, Seq<bool>)>, bits: Seq<bool>)
    ensures
        0 <= first_match(table, bits) <= table.len(),
        first_match(table, bits) < table.len() ==> begins(bits, table[first_match(table, bits)].1),
        forall|k: int| 0 <= k < first_match(table, bits) ==> !begins(bits, (#[trigger] table[k]).1),
    decreases table.len(),
{
    if table.len() > 0 {
        lemma_first_match(table.drop_last(), bits);
        let before = first_match(table.drop_last(), bits);
        assert forall|k: int| 0 <= k < first_match(table, bits) implies !begins(
            bits,
            (#[trigger] table[k]).1,
        ) by {
            if k < table.len() - 1 {
                assert(table.drop_last()[k] == table[k]);
            }
        }
        if before < table.len() - 1 {
            assert(table.drop_last()[before] == table[before]);
        }
    }
}

/// `table` has an entry for every symbol of `text`.
pub open spec fn covers(table: Seq<(char, Seq<bool>)>, text: Seq<char>) -> bool {
    forall|k: int| 0 <= k < text.len() ==> index_of(table, #[trigger] text[k]) < table.len()
}

/// Of two bit strings that begin the same bits, one begins the other.
pub proof fn lemma_prefixes_comparable(a: Seq<bool>, b: Seq<bool>, bits: Seq<bool>)
    requires
        is_prefix(a, bits),
        is_prefix(b, bits),
    ensures
        is_prefix(a, b) || is_prefix(b, a),
{
    if a.len() <= b.len() {
        assert(b.take(a.len() as int) =~= bits.take(b.len() as int).take(a.len() as int));
        assert(bits.take(b.len() as int).take(a.len() as int) =~= bits.take(a.len() as int));
    } else {
        assert(a.take(b.len() as int) =~= bits.take(a.len() as int).take(b.len() as int));
        assert(bits.take(a.len() as int).take(b.len() as int) =~= bits.take(b.len() as int));
    }
}

/// Under a valid table the bits of a symbol, whatever follows them, are
/// read as that symbol, and reading goes on behind them.
pub proof fn lemma_decode_symbol(table: Seq<(char, Seq<bool>)>, symbol: char, tail: Seq<bool>)
    requires
        valid_table(table),
        index_of(table, symbol) < table.len(),
    ensures
        decode(symbol_bits(table, symbol) + tail, table) == seq![symbol] + decode(tail, table),
{
    let code = symbol_bits(table, symbol);
    let bits = code + tail;
    let i = index_of(table, symbol);
    lemma_index_of(table, symbol);
    lemma_first_match(table, bits);
    let found = first_match(table, bits);
    assert(table[i].1 == code);
    assert(bits.take(code.len() as int) =~= code);
    assert(begins(bits, code));
    if found != i {
        assert(found < i);
        lemma_prefixes_comparable(table[found].1, code, bits);
    }
    assert(bits.skip(code.len() as int) =~= tail);
}

/// Under a valid table that covers `text`, the bits of `text`, whatever
/// follows them, are read as `text`, and reading goes on behind them.
pub proof fn lemma_decode_encoded(text: Seq<char>, table: Seq<(char, Seq<bool>)>, tail: Seq<bool>)
    requires
        valid_table(table),
        covers(table, text),
    ensures
        decode(encode(text, table) + tail, table) == text + decode(tail, table),
    decreases text.len(),
{
    if text.len() == 0 {
        assert(encode(text, table) + tail =~= tail);
        assert(text + decode(tail, table) =~= decode(tail, table));
    } else {
        let front = text.drop_last();
        let code = symbol_bits(table, text.last());
        assert forall|k: int| 0 <= k < front.len() implies index_of(table, #[trigger] front[k])
            < table.len() by {
            assert(front[k] == text[k]);
        }
        assert(index_of(table, text[text.len() - 1]) < table.len());
        lemma_decode_encoded(front, table, code + tail);
        lemma_decode_symbol(table, text.last(), tail);
        assert(encode(text, table) + tail =~= encode(front, table) + (code + tail));
        assert(front + (seq![text.last()] + decode(tail, table)) =~= text + decode(tail, table));
    }
}

/// Unpacking what was packed gives the text, followed by what the padding
/// bits read as.
pub proof fn lemma_unpack_packed(text: Seq<char>, table: Seq<(char, Seq<bool>)>)
    requires
        valid_table(table),
        covers(table, text),
    ensures
        unpacked(packed(encode(text, table)), table) == text + decode(
            zeros(padding(encode(text, table).len())),
            table,
        ),
{
    let bits = encode(text, table);
    lemma_packed(bits);
    lemma_decode_encoded(text, table, zeros(padding(bits.len())));
}

/// The `false` bits that fill the last byte behind the bits of `text` do
/// not begin with a bit string of the table: none of them is made of so few
/// `false` bits that the padding holds it.
pub open spec fn padding_is_silent(text: Seq<char>, table: Seq<(char, Seq<bool>)>) -> bool {
    forall|i: int|
        0 <= i < table.len() ==> !begins(
            zeros(padding(encode(text, table).len())),
            (#[trigger] table[i]).1,
        )
}

/// Pack and unpack are inverse: under a valid table that covers `text`,
/// unpacking the packed text gives `text`, where the padding is silent.
pub proof fn lemma_pack_unpack_inverse(text: Seq<char>, table: Seq<(char, Seq<bool>)>)
    requires
        valid_table(table),
        covers(table, text),
        padding_is_silent(text, table),
    ensures
        unpacked(packed(encode(text, table)), table) == text,
{
    let pad = zeros(padding(encode(text, table).len()));
    lemma_unpack_packed(text, table);
    lemma_first_match(table, pad);
    assert(decode(pad, table) =~= Seq::<char>::empty());
    assert(text + decode(pad, table) =~= text);
}

/// What is left of `bits` when the symbols at their front have been read:
/// the bits that no entry's bit string begins.
pub open spec fn leftover(bits: Seq<bool>, table: Seq<(char, Seq<bool>)>) -> Seq<bool>
    decreases bits.len(),
{
    let i = first_match(table, bits);
    if 0 <= i < table.len() && 0 < table[i].1.len() <= bits.len() {
        leftover(bits.skip(table[i].1.len() as int), table)
    } else {
        bits
    }
}

/// Reading byte by byte with a buffer of pending bits: the eight bits of
/// each byte go behind the buffer, then symbols are read off its front as
/// long as an entry's bit string begins it. The result is the text read and
/// the buffer at the end.
pub open spec fn stepwise(bytes: Seq<u8>, table: Seq<(char, Seq<bool>)>) -> (Seq<char>, Seq<bool>)
    decreases bytes.len(),
{
    if bytes.len() == 0 {
        (Seq::empty(), Seq::empty())
    } else {
        let before = stepwise(bytes.drop_last(), table);
        let buffer = before.1 + value_bits(bytes.last() as nat, 8);
        (before.0 + decode(buffer, table), leftover(buffer, table))
    }
}

/// Under a valid table, reading `bits` and then going on with what is left
/// of them and `more` is reading `bits + more`.
pub proof fn lemma_decode_resumes(bits: Seq<bool>, more: Seq<bool>, table: Seq<(char, Seq<bool>)>)
    requires
        valid_table(table),
    ensures
        decode(bits + more, table) == decode(bits, table) + decode(
            leftover(bits, table) + more,
            table,
        ),
        leftover(bits + more, table) == leftover(leftover(bits, table) + more, table),
    decreases bits.len(),
{
    let i = first_match(table, bits);
    lemma_first_match(table, bits);
    if i < table.len() {
        let code = table[i].1;
        let whole = bits + more;
        let j = first_match(table, whole);
        lemma_first_match(table, whole);
        assert(whole.take(code.len() as int) =~= bits.take(code.len() as int));
        assert(begins(whole, code));
        if j != i {
            lemma_prefixes_comparable(table[j].1, code, whole);
        }
        assert(whole.skip(code.len() as int) =~= bits.skip(code.len() as int) + more);
        lemma_decode_resumes(bits.skip(code.len() as int), more, table);
        assert(decode(whole, table) =~= decode(bits, table) + decode(
            leftover(bits, table) + more,
            table,
        ));
    } else {
        assert(decode(bits, table) + decode(bits + more, table) =~= decode(bits + more, table));
    }
}

/// Under a valid table, reading byte by byte with a buffer gives the text
/// that the bits of all bytes read as, and leaves what is left of them.
pub proof fn lemma_stepwise(bytes: Seq<u8>, table: Seq<(char, Seq<bool>)>)
    requires
        valid_table(table),
    ensures
        stepwise(bytes, table).0 == unpacked(bytes, table),
        stepwise(bytes, table).1 == leftover(bytes_bits(bytes), table),
    decreases bytes.len(),
{
    if bytes.len() > 0 {
        lemma_stepwise(bytes.drop_last(), table);
        lemma_decode_resumes(
            bytes_bits(bytes.drop_last()),
            value_bits(bytes.last() as nat, 8),
            table,
        );
    } else {
        lemma_first_match(table, Seq::empty());
    }
}

/// The digit of `value` at `place` of `n`, counted from the highest.
pub proof fn lemma_value_bit(value: nat, n: nat, place: int)
    requires
        0 <= place < n,
    ensures
        value_bits(value, n).len() == n,
        value_bits(value, n)[place] == ((value / two_to((n - 1 - place) as nat)) % 2 == 1),
    decreases n,
{
    lemma_bits_of_value(value, n);
    lemma_bits_of_value(value / 2, (n - 1) as nat);
    let digits = value_bits(value, n);
    let front = value_bits(value / 2, (n - 1) as nat);
    assert(digits == front.push(value % 2 == 1));
    if place < n - 1 {
        lemma_value_bit(value / 2, (n - 1) as nat, place);
        assert(digits[place] == front[place]);
        let rest = two_to((n - 2 - place) as nat);
        let whole = two_to((n - 1 - place) as nat);
        assert(whole == 2 * rest);
        lemma_two_to_positive((n - 2 - place) as nat);
        lemma_div_denominator(value as int, 2, rest as int);
        assert((value as int / 2) / (rest as int) == value as int / (2 * rest as int));
        assert(value / whole == (value / 2) / rest);
    } else {
        assert(digits[place] == (value % 2 == 1));
        assert(two_to(0) == 1);
        assert((n - 1 - place) as nat == 0);
        assert(value / 1 == value);
    }
}

/// Powers of two are positive.
pub proof fn lemma_two_to_positive(n: nat)
    ensures
        two_to(n) > 0,
    decreases n,
{
    if n > 0 {
        lemma_two_to_positive((n - 1) as nat);
    }
}

/// The bit at `place` of byte `k`.
pub proof fn lemma_bytes_bit(bytes: Seq<u8>, k: int, place: int)
    requires
        0 <= k < bytes.len(),
        0 <= place < 8,
    ensures
        bytes_bits(bytes).len() == 8 * bytes.len(),
        bytes_bits(bytes)[8 * k + place] == value_bits(bytes[k] as nat, 8)[place],
    decreases bytes.len(),
{
    lemma_bytes_bits_len(bytes);
    lemma_bytes_bits_len(bytes.drop_last());
    lemma_bits_of_value(bytes.last() as nat, 8);
    if k < bytes.len() - 1 {
        lemma_bytes_bit(bytes.drop_last(), k, place);
    }
}

/// The value of the place `offset` of a byte, counted from the highest.
fn place_value(offset: u8) -> (value: u8)
    requires
        offset < 8,
    ensures
        value == two_to((7 - offset) as nat),
        value > 0,
{
    proof {
        crate::bits::lemma_two_to();
    }
    if offset == 0 {
        128
    } else if offset == 1 {
        64
    } else if offset == 2 {
        32
    } else if offset == 3 {
        16
    } else if offset == 4 {
        8
    } else if offset == 5 {
        4
    } else if offset == 6 {
        2
    } else {
        1
    }
}

/// The cursor `(byte, offset)` stands at a bit of `bytes` or at their end.
pub open spec fn cursor_ok(bytes: Seq<u8>, byte: usize, offset: u8) -> bool {
    &&& byte <= bytes.len()
    &&& offset < 8
    &&& byte == bytes.len() ==> offset == 0
}

/// Whether the bits from the cursor on begin with `code`, and where the
/// cursor stands behind it.
fn match_code(bytes: &[u8], byte: usize, offset: u8, code: &Vec<bool>) -> (end: Option<
    (usize, u8),
>)
    requires
        cursor_ok(bytes@, byte, offset),
    ensures
        match end {
            Some((b, o)) => {
                &&& begins(bytes_bits(bytes@).skip(8 * byte + offset), code@)
                &&& cursor_ok(bytes@, b, o)
                &&& 8 * b + o == 8 * byte + offset + code.len()
            },
            None => !begins(bytes_bits(bytes@).skip(8 * byte + offset), code@),
        },
{
    let ghost all = bytes_bits(bytes@);
    let ghost start = 8 * byte + offset;
    let ghost rest = all.skip(start);
    proof {
        lemma_bytes_bits_len(bytes@);
    }
    if code.len() == 0 {
        return None;
    }
    let mut b: usize = byte;
    let mut o: u8 = offset;
    let mut j: usize = 0;
    while j < code.len()
        invariant
            j <= code.len(),
            cursor_ok(bytes@, b, o),
            cursor_ok(bytes@, byte, offset),
            8 * b + o == start + j,
            all == bytes_bits(bytes@),
            all.len() == 8 * bytes.len(),
            start == 8 * byte + offset,
            rest == all.skip(start),
            forall|m: int| 0 <= m < j ==> code@[m] == #[trigger] rest[m],
        decreases code.len() - j,
    {
        if b == bytes.len() {
            return None;
        }
        let bit = (bytes[b] / place_value(o)) % 2 == 1;
        proof {
            lemma_bytes_bit(bytes@, b as int, o as int);
            lemma_value_bit(bytes@[b as int] as nat, 8, o as int);
            assert(rest[j as int] == all[start + j]);
        }
        if bit != code[j] {
            proof {
                if is_prefix(code@, rest) {
                    assert(rest.take(code.len() as int)[j as int] == rest[j as int]);
                }
            }
            return None;
        }
        if o == 7 {
            b += 1;
            o = 0;
        } else {
            o += 1;
        }
        j += 1;
    }
    proof {
        assert(rest.take(code.len() as int) =~= code@);
    }
    Some((b, o))
}

/// Unpacks `bytes`: their bits are read from the highest place of the first
/// byte on; as long as the bit string of an entry of `table` begins what is
/// left, the symbol of the first such entry is put out and its bits are
/// passed over. The bits that no entry matches are dropped. Under a valid
/// table this is the text that reading byte by byte with a buffer gives.
pub fn huffd(bytes: &[u8], table: &CodeTable) -> (text: Vec<char>)
    ensures
        text@ == unpacked(bytes@, table@),
        valid_table(table@) ==> text@ == stepwise(bytes@, table@).0,
{
    proof {
        if valid_table(table@) {
            lemma_stepwise(bytes@, table@);
        }
    }
    let mut text: Vec<char> = Vec::new();
    let mut byte: usize = 0;
    let mut offset: u8 = 0;
    let ghost all = bytes_bits(bytes@);
    proof {
        lemma_bytes_bits_len(bytes@);
        assert(all.skip(0) =~= all);
    }
    loop
        invariant
            cursor_ok(bytes@, byte, offset),
            all == bytes_bits(bytes@),
            all.len() == 8 * bytes.len(),
            unpacked(bytes@, table@) == text@ + decode(all.skip(8 * byte + offset), table@),
        ensures
            text@ == unpacked(bytes@, table@),
        decreases 8 * bytes.len() - (8 * byte + offset),
    {
        let ghost rest = all.skip(8 * byte + offset);
        let mut i: usize = 0;
        let mut end: Option<(usize, u8)> = None;
        while i < table.entries.len() && end.is_none()
            invariant
                i <= table.entries.len(),
                cursor_ok(bytes@, byte, offset),
                all == bytes_bits(bytes@),
                rest == all.skip(8 * byte + offset),
                forall|k: int|
                    0 <= k < i - (if end is Some { 1int } else { 0int }) ==> !begins(
                        rest,
                        (#[trigger] table@[k]).1,
                    ),
                end matches Some((b, o)) ==> {
                    &&& i > 0
                    &&& begins(rest, table@[i - 1].1)
                    &&& cursor_ok(bytes@, b, o)
                    &&& 8 * b + o == 8 * byte + offset + table@[i - 1].1.len()
                },
            decreases table.entries.len() - i + (if end is None { 1int } else { 0int }),
        {
            end = match_code(bytes, byte, offset, &table.entries[i].1);
            i += 1;
        }
        proof {
            lemma_first_match(table@, rest);
            let found = first_match(table@, rest);
            match end {
                Some(_) => {
                    if found < i - 1 {
                        assert(begins(rest, table@[found].1));
                    }
                },
                None => {
                    if found < table@.len() {
                        assert(begins(rest, table@[found].1));
                    }
                },
            }
        }
        match end {
            Some((b, o)) => {
                let ghost before = text@;
                text.push(table.entries[i - 1].0);
                proof {
                    let code = table@[i - 1].1;
                    assert(rest.skip(code.len() as int) =~= all.skip(8 * b + o));
                    assert(text@ + decode(all.skip(8 * b + o), table@) =~= before + decode(
                        rest,
                        table@,
                    ));
                }
                byte = b;
                offset = o;
            },
            None => {
                proof {
                    assert(decode(rest, table@) =~= Seq::<char>::empty());
                    assert(text@ + decode(rest, table@) =~= text@);
                }
                break ;
            },
        }
    }
    text
}

} // verus!

//! Bit strings and the bytes that hold them, first bit in the highest place.

use vstd::prelude::*;

verus! {

/// The number that `bits` spell in base two, first bit highest.
pub open spec fn bits_value(bits: Seq<bool>) -> nat
    decreases bits.len(),
{
    if bits.len() == 0 {
        0
    } else {
        2 * bits_value(bits.drop_last()) + if bits.last() {
            1nat
        } else {
            0nat
        }
    }
}

/// The lowest `n` binary digits of `value`, highest first.
pub open spec fn value_bits(value: nat, n: nat) -> Seq<bool>
    decreases n,
{
    if n == 0 {
        Seq::empty()
    } else {
        value_bits(value / 2, (n - 1) as nat).push(value % 2 == 1)
    }
}

/// Two to the power `n`.
pub open spec fn two_to(n: nat) -> nat
    decreases n,
{
    if n == 0 {
        1
    } else {
        2 * two_to((n - 1) as nat)
    }
}

/// `n` bits that are all `false`.
pub open spec fn zeros(n: nat) -> Seq<bool> {
    Seq::new(n, |k: int| false)
}

/// How many bits are missing after `n` to fill the last byte.
pub open spec fn padding(n: nat) -> nat {
    ((8 - n % 8) % 8) as nat
}

/// The bits of `bytes`, eight for each byte.
pub open spec fn bytes_bits(bytes: Seq<u8>) -> Seq<bool>
    decreases bytes.len(),
{
    if bytes.len() == 0 {
        Seq::empty()
    } else {
        bytes_bits(bytes.drop_last()) + value_bits(bytes.last() as nat, 8)
    }
}

/// The bytes that hold `bits`, whose number is a multiple of eight.
pub open spec fn bits_bytes(bits: Seq<bool>) -> Seq<u8>
    recommends
        bits.len() % 8 == 0,
    decreases bits.len(),
{
    if bits.len() < 8 {
        Seq::empty()
    } else {
        bits_bytes(bits.take(bits.len() - 8)).push(bits_value(bits.skip(bits.len() - 8)) as u8)
    }
}

/// The bytes that hold `bits` followed by as many `false` bits as fill the
/// last byte.
pub open spec fn packed(bits: Seq<bool>) -> Seq<u8> {
    bits_bytes(bits + zeros(padding(bits.len())))
}

/// `n` bits spell a number below two to the `n`.
pub proof fn lemma_bits_value_bound(bits: Seq<bool>)
    ensures
        bits_value(bits) < two_to(bits.len()),
    decreases bits.len(),
{
    if bits.len() > 0 {
        lemma_bits_value_bound(bits.drop_last());
    }
}

/// The small powers of two.
pub proof fn lemma_two_to()
    ensures
        two_to(0) == 1,
        two_to(1) == 2,
        two_to(2) == 4,
        two_to(3) == 8,
        two_to(4) == 16,
        two_to(5) == 32,
        two_to(6) == 64,
        two_to(7) == 128,
        two_to(8) == 256,
{
    reveal_with_fuel(two_to, 10);
}

/// The digits of the number that `bits` spell are `bits`.
pub proof fn lemma_value_bits_of_bits(bits: Seq<bool>)
    ensures
        value_bits(bits_value(bits), bits.len()) == bits,
    decreases bits.len(),
{
    if bits.len() > 0 {
        lemma_value_bits_of_bits(bits.drop_last());
        assert(value_bits(bits_value(bits), bits.len()) =~= bits);
    } else {
        assert(value_bits(bits_value(bits), bits.len()) =~= bits);
    }
}

/// `n` digits are `n` bits, and they spell the number again where it is
/// below two to the `n`.
pub proof fn lemma_bits_of_value(value: nat, n: nat)
    ensures
        value_bits(value, n).len() == n,
        value < two_to(n) ==> bits_value(value_bits(value, n)) == value,
    decreases n,
{
    if n > 0 {
        lemma_bits_of_value(value / 2, (n - 1) as nat);
        assert(value_bits(value, n).drop_last() =~= value_bits(value / 2, (n - 1) as nat));
    }
}

/// The bits of bytes are eight times as many.
pub proof fn lemma_bytes_bits_len(bytes: Seq<u8>)
    ensures
        bytes_bits(bytes).len() == 8 * bytes.len(),
    decreases bytes.len(),
{
    if bytes.len() > 0 {
        lemma_bytes_bits_len(bytes.drop_last());
        lemma_bits_of_value(bytes.last() as nat, 8);
    }
}

/// The bytes that hold a multiple of eight bits give these bits back.
pub proof fn lemma_bytes_bits_of_bits(bits: Seq<bool>)
    requires
        bits.len() % 8 == 0,
    ensures
        bits_bytes(bits).len() * 8 == bits.len(),
        bytes_bits(bits_bytes(bits)) == bits,
    decreases bits.len(),
{
    if bits.len() >= 8 {
        let front = bits.take(bits.len() - 8);
        let back = bits.skip(bits.len() - 8);
        lemma_bytes_bits_of_bits(front);
        lemma_bits_value_bound(back);
        lemma_two_to();
        lemma_value_bits_of_bits(back);
        assert(bits_bytes(bits).drop_last() =~= bits_bytes(front));
        assert(bits =~= front + back);
    } else {
        assert(bits =~= Seq::empty());
    }
}

/// Packed bits come back with their padding behind them.
pub proof fn lemma_packed(bits: Seq<bool>)
    ensures
        bytes_bits(packed(bits)) == bits + zeros(padding(bits.len())),
        packed(bits).len() == (bits.len() + 7) / 8,
{
    lemma_bytes_bits_of_bits(bits + zeros(padding(bits.len())));
}

} // verus!

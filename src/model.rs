//! The mathematical model of the wire format: how bytes become bit symbols,
//! where the payload region lies, and what decoding a text yields.

use vstd::prelude::*;
use vstd::arithmetic::div_mod::lemma_div_denominator;
use vstd::arithmetic::power2::{lemma2_to64, lemma_pow2_pos, lemma_pow2_unfold, pow2};
use vstd::utf8::{decode_utf8, encode_utf8, valid_utf8};
use crate::error::Error;
use crate::symbols::{bit_symbol, symbol_bit, END_MARKER, START_MARKER};

verus! {

/// The low `n` bits of `v`, most significant first.
pub open spec fn bits_msb(v: nat, n: nat) -> Seq<bool>
    decreases n,
{
    if n == 0 {
        seq![]
    } else {
        bits_msb(v / 2, (n - 1) as nat).push(v % 2 == 1)
    }
}

/// The eight bits of a byte, most significant first.
pub open spec fn byte_bits(b: u8) -> Seq<bool> {
    bits_msb(b as nat, 8)
}

/// The number a sequence of bits spells, most significant first.
pub open spec fn bits_value(bits: Seq<bool>) -> nat
    decreases bits.len(),
{
    if bits.len() == 0 {
        0
    } else {
        2 * bits_value(bits.drop_last()) + if bits.last() {
            1nat
        } else {
            0nat
        }
    }
}

/// The bits of a byte sequence, eight per byte, each byte most significant bit first.
pub open spec fn payload_bits(bytes: Seq<u8>) -> Seq<bool>
    decreases bytes.len(),
{
    if bytes.len() == 0 {
        seq![]
    } else {
        payload_bits(bytes.drop_last()) + byte_bits(bytes.last())
    }
}

/// Groups bits into bytes, eight at a time; a trailing group of fewer than
/// eight bits is dropped.
pub open spec fn pack_bits(bits: Seq<bool>) -> Seq<u8>
    decreases bits.len(),
{
    if bits.len() < 8 {
        seq![]
    } else {
        pack_bits(bits.subrange(0, bits.len() - 8)).push(
            bits_value(bits.subrange(bits.len() - 8, bits.len() as int)) as u8,
        )
    }
}

/// The bit symbols that spell a sequence of bits.
pub open spec fn symbols_of(bits: Seq<bool>) -> Seq<char> {
    bits.map_values(|b: bool| bit_symbol(b))
}

/// The bits that the bit symbols of a text spell; every other character is skipped.
pub open spec fn bits_in(s: Seq<char>) -> Seq<bool> {
    s.filter_map(|c: char| symbol_bit(c))
}

/// Position of the first occurrence of `c` in `s`.
pub open spec fn first_index(s: Seq<char>, c: char) -> Option<int>
    decreases s.len(),
{
    if s.len() == 0 {
        None
    } else {
        match first_index(s.drop_last(), c) {
            Some(i) => Some(i),
            None => if s.last() == c {
                Some(s.len() - 1)
            } else {
                None
            },
        }
    }
}

/// The cover with the marked payload inserted after its first character.
pub open spec fn embed(cover: Seq<char>, secret: Seq<u8>) -> Seq<char>
    recommends
        cover.len() > 0,
{
    seq![cover[0], START_MARKER] + symbols_of(payload_bits(secret)) + seq![END_MARKER]
        + cover.subrange(1, cover.len() as int)
}

/// What encoding a secret text into a cover text produces.
pub open spec fn encode_result(cover: Seq<char>, secret: Seq<char>) -> Result<Seq<char>, Error> {
    if cover.len() == 0 {
        Err(Error::CoverTextTooShort)
    } else {
        Ok(embed(cover, encode_utf8(secret)))
    }
}

/// The bytes hidden in a text, or why there are none.
pub open spec fn hidden_bytes(text: Seq<char>) -> Result<Seq<u8>, Error> {
    match (first_index(text, START_MARKER), first_index(text, END_MARKER)) {
        (Some(s), Some(e)) => if s < e {
            let bits = bits_in(text.subrange(s + 1, e));
            if bits.len() % 8 == 0 {
                Ok(pack_bits(bits))
            } else {
                Err(Error::CorruptedPayload)
            }
        } else {
            Err(Error::CorruptedPayload)
        },
        _ => Err(Error::NoHiddenMessage),
    }
}

/// What decoding a text produces: the hidden bytes read as UTF-8 text.
pub open spec fn decode_result(text: Seq<char>) -> Result<Seq<char>, Error> {
    match hidden_bytes(text) {
        Ok(bytes) => if valid_utf8(bytes) {
            Ok(decode_utf8(bytes))
        } else {
            Err(Error::InvalidUtf8)
        },
        Err(e) => Err(e),
    }
}

/// `bits_msb` reads bit `q` of `v` (counting from the least significant) at
/// position `n - 1 - q`.
pub proof fn lemma_bits_msb_index(v: nat, n: nat, q: nat)
    requires
        q < n,
    ensures
        bits_msb(v, n).len() == n,
        bits_msb(v, n)[n - 1 - q] == ((v / pow2(q)) % 2 == 1),
    decreases n,
{
    lemma_bits_msb_len(v, n);
    if q == 0 {
        lemma2_to64();
    } else {
        lemma_bits_msb_index(v / 2, (n - 1) as nat, (q - 1) as nat);
        lemma_pow2_unfold(q);
        lemma_pow2_pos((q - 1) as nat);
        lemma_div_denominator(v as int, 2, pow2((q - 1) as nat) as int);
    }
}

/// `bits_msb` yields exactly `n` bits.
pub proof fn lemma_bits_msb_len(v: nat, n: nat)
    ensures
        bits_msb(v, n).len() == n,
    decreases n,
{
    if n > 0 {
        lemma_bits_msb_len(v / 2, (n - 1) as nat);
    }
}

/// Spelling the low `n` bits of a number smaller than `2^n` gives the number back.
pub proof fn lemma_bits_value_of_bits_msb(v: nat, n: nat)
    requires
        v < pow2(n),
    ensures
        bits_value(bits_msb(v, n)) == v,
    decreases n,
{
    if n == 0 {
        lemma2_to64();
    } else {
        lemma_pow2_unfold(n);
        let bits = bits_msb(v, n);
        assert(bits.drop_last() =~= bits_msb(v / 2, (n - 1) as nat));
        lemma_bits_value_of_bits_msb(v / 2, (n - 1) as nat);
    }
}

/// Each byte contributes eight bits.
pub proof fn lemma_payload_bits_len(bytes: Seq<u8>)
    ensures
        payload_bits(bytes).len() == 8 * bytes.len(),
    decreases bytes.len(),
{
    if bytes.len() > 0 {
        lemma_payload_bits_len(bytes.drop_last());
        lemma_bits_msb_len(bytes.last() as nat, 8);
    }
}

/// Packing the bits of a byte sequence gives the bytes back.
pub proof fn lemma_pack_payload_bits(bytes: Seq<u8>)
    ensures
        pack_bits(payload_bits(bytes)) == bytes,
    decreases bytes.len(),
{
    if bytes.len() > 0 {
        let init = bytes.drop_last();
        let b = bytes.last();
        let bits = payload_bits(bytes);
        lemma_payload_bits_len(bytes);
        lemma_payload_bits_len(init);
        lemma_bits_msb_len(b as nat, 8);
        assert(bits.subrange(0, bits.len() - 8) =~= payload_bits(init));
        assert(bits.subrange(bits.len() - 8, bits.len() as int) =~= byte_bits(b));
        lemma2_to64();
        lemma_bits_value_of_bits_msb(b as nat, 8);
        lemma_pack_payload_bits(init);
        assert(bytes =~= init.push(b));
    }
}

/// `filter_map` distributes over concatenation.
pub proof fn lemma_bits_in_add(a: Seq<char>, b: Seq<char>)
    ensures
        bits_in(a + b) == bits_in(a) + bits_in(b),
    decreases b.len(),
{
    if b.len() == 0 {
        assert(a + b =~= a);
        assert(bits_in(a) + bits_in(b) =~= bits_in(a));
    } else {
        lemma_bits_in_add(a, b.drop_last());
        assert((a + b).drop_last() =~= a + b.drop_last());
        assert((a + b).last() == b.last());
        assert(bits_in(a + b) =~= bits_in(a) + bits_in(b));
    }
}

/// Reading back the bit symbols of a bit sequence gives the bits.
pub proof fn lemma_bits_in_symbols_of(bits: Seq<bool>)
    ensures
        bits_in(symbols_of(bits)) == bits,
    decreases bits.len(),
{
    if bits.len() == 0 {
        assert(symbols_of(bits) =~= Seq::<char>::empty());
        assert(bits_in(symbols_of(bits)) =~= bits);
    } else {
        lemma_bits_in_symbols_of(bits.drop_last());
        assert(symbols_of(bits).drop_last() =~= symbols_of(bits.drop_last()));
        assert(bits_in(symbols_of(bits)) =~= bits);
    }
}

/// Symbols of concatenated bit sequences are the concatenated symbols.
pub proof fn lemma_symbols_of_add(a: Seq<bool>, b: Seq<bool>)
    ensures
        symbols_of(a + b) == symbols_of(a) + symbols_of(b),
{
    assert(symbols_of(a + b) =~= symbols_of(a) + symbols_of(b));
}

/// The first occurrence is the first position that holds the character.
pub proof fn lemma_first_index_at(s: Seq<char>, c: char, i: int)
    requires
        0 <= i < s.len(),
        s[i] == c,
        forall|j: int| 0 <= j < i ==> s[j] != c,
    ensures
        first_index(s, c) == Some(i),
    decreases s.len(),
{
    if i < s.len() - 1 {
        lemma_first_index_at(s.drop_last(), c, i);
    } else {
        lemma_first_index_absent(s.drop_last(), c);
    }
}

/// A character that does not occur has no first occurrence.
pub proof fn lemma_first_index_absent(s: Seq<char>, c: char)
    requires
        forall|j: int| 0 <= j < s.len() ==> s[j] != c,
    ensures
        first_index(s, c) is None,
    decreases s.len(),
{
    if s.len() > 0 {
        lemma_first_index_absent(s.drop_last(), c);
    }
}

} // verus!

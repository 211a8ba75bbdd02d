//! Encoding a secret into a cover text and decoding it back.

use vstd::prelude::*;
use vstd::arithmetic::power2::{lemma2_to64, lemma_pow2_unfold, pow2};
use vstd::bits::lemma_u8_shr_is_div;
use vstd::utf8::encode_utf8;
use crate::error::Error;
use crate::model::{
    bits_in, bits_value, byte_bits, decode_result, encode_result, first_index,
    lemma_bits_in_add, lemma_bits_msb_index, lemma_bits_msb_len, lemma_first_index_absent,
    lemma_first_index_at, lemma_symbols_of_add, pack_bits, payload_bits, symbols_of,
};
use crate::symbols::{bit_symbol, symbol_bit, BIT_ONE, BIT_ZERO, END_MARKER, START_MARKER};
use crate::text::{chars_of, string_from_utf8};

verus! {

/// Appends the eight bit symbols of `byte`, most significant bit first.
fn push_byte_symbols(out: &mut String, byte: u8)
    ensures
        final(out)@ == old(out)@ + symbols_of(byte_bits(byte)),
{
    let ghost start = out@;
    proof {
        lemma_bits_msb_len(byte as nat, 8);
    }
    let mut bit_pos: u8 = 8;
    while bit_pos > 0
        invariant
            bit_pos <= 8,
            byte_bits(byte).len() == 8,
            out@ == start + symbols_of(byte_bits(byte).take(8 - bit_pos)),
        decreases bit_pos,
    {
        bit_pos = bit_pos - 1;
        let bit = (byte >> bit_pos) & 1;
        proof {
            let shifted = byte >> bit_pos;
            lemma_u8_shr_is_div(byte, bit_pos);
            assert(shifted & 1 == shifted % 2) by (bit_vector);
            lemma_bits_msb_index(byte as nat, 8, bit_pos as nat);
            let bits = byte_bits(byte);
            let done = bits.take(7 - bit_pos);
            let b = bits[7 - bit_pos];
            assert(bits.take(8 - bit_pos) =~= done.push(b));
            lemma_symbols_of_add(done, seq![b]);
            assert(symbols_of(seq![b]) =~= seq![bit_symbol(b)]);
        }
        out.push(if bit == 1 { BIT_ONE } else { BIT_ZERO });
    }
    assert(byte_bits(byte).take(8) =~= byte_bits(byte));
}

/// Encodes `secret` into `cover_text`: the bytes of `secret` are written as
/// bit symbols between a start and an end marker, inserted right after the
/// first character of the cover.
pub fn encode(cover_text: &str, secret: &str) -> (r: Result<String, Error>)
    ensures
        match r {
            Ok(t) => encode_result(cover_text@, secret@) == Ok::<Seq<char>, Error>(t@),
            Err(e) => encode_result(cover_text@, secret@) == Err::<Seq<char>, Error>(e),
        },
{
    let cover = chars_of(cover_text);
    if cover.len() == 0 {
        return Err(Error::CoverTextTooShort);
    }
    let secret_bytes = secret.as_bytes();
    let ghost bytes = encode_utf8(secret@);
    assert(secret_bytes@ == bytes);

    let mut result = String::new();
    result.push(cover[0]);
    result.push(START_MARKER);
    let mut i: usize = 0;
    while i < secret_bytes.len()
        invariant
            secret_bytes@ == bytes,
            cover@ == cover_text@,
            cover.len() > 0,
            i <= secret_bytes.len(),
            result@ == seq![cover@[0], START_MARKER] + symbols_of(payload_bits(bytes.take(i as int))),
        decreases secret_bytes.len() - i,
    {
        let byte = secret_bytes[i];
        proof {
            assert(bytes.take(i + 1).drop_last() =~= bytes.take(i as int));
            lemma_symbols_of_add(payload_bits(bytes.take(i as int)), byte_bits(byte));
        }
        push_byte_symbols(&mut result, byte);
        i = i + 1;
    }
    assert(bytes.take(i as int) =~= bytes);
    result.push(END_MARKER);

    let mut k: usize = 1;
    while k < cover.len()
        invariant
            cover@ == cover_text@,
            1 <= k <= cover.len(),
            result@ == seq![cover@[0], START_MARKER] + symbols_of(payload_bits(bytes)) + seq![
                END_MARKER,
            ] + cover@.subrange(1, k as int),
        decreases cover.len() - k,
    {
        result.push(cover[k]);
        k = k + 1;
    }
    Ok(result)
}

/// Position of the first occurrence of `c` in `chars`.
fn find_char(chars: &Vec<char>, c: char) -> (r: Option<usize>)
    ensures
        match r {
            Some(i) => i < chars.len() && first_index(chars@, c) == Some(i as int),
            None => first_index(chars@, c) is None,
        },
{
    let mut i: usize = 0;
    while i < chars.len()
        invariant
            i <= chars.len(),
            forall|j: int| 0 <= j < i ==> chars@[j] != c,
        decreases chars.len() - i,
    {
        if chars[i] == c {
            proof {
                lemma_first_index_at(chars@, c, i as int);
            }
            return Some(i);
        }
        i = i + 1;
    }
    proof {
        lemma_first_index_absent(chars@, c);
    }
    None
}

/// Reads the bit symbols of `chars[from..to]` eight at a time into bytes,
/// skipping every other character; `None` when bits are left over.
fn assemble_bytes(chars: &Vec<char>, from: usize, to: usize) -> (r: Option<Vec<u8>>)
    requires
        from <= to <= chars.len(),
    ensures
        match r {
            Some(bytes) => bits_in(chars@.subrange(from as int, to as int)).len() % 8 == 0
                && bytes@ == pack_bits(bits_in(chars@.subrange(from as int, to as int))),
            None => bits_in(chars@.subrange(from as int, to as int)).len() % 8 != 0,
        },
{
    let mut bytes: Vec<u8> = Vec::new();
    let mut current_byte: u8 = 0;
    let mut bit_count: u8 = 0;
    let mut k: usize = from;
    proof {
        lemma2_to64();
    }
    while k < to
        invariant
            from <= k <= to <= chars.len(),
            bit_count < 8,
            bits_in(chars@.subrange(from as int, k as int)).len() == 8 * bytes.len() + bit_count,
            bytes@ == pack_bits(
                bits_in(chars@.subrange(from as int, k as int)).take(8 * bytes.len()),
            ),
            current_byte as nat == bits_value(
                bits_in(chars@.subrange(from as int, k as int)).skip(8 * bytes.len()),
            ),
            current_byte < pow2(bit_count as nat),
        decreases to - k,
    {
        let ghost seen = bits_in(chars@.subrange(from as int, k as int));
        let ch = chars[k];
        proof {
            assert(chars@.subrange(from as int, k + 1) =~= chars@.subrange(from as int, k as int)
                + seq![ch]);
            lemma_bits_in_add(chars@.subrange(from as int, k as int), seq![ch]);
            assert(seq![ch].drop_last() =~= Seq::<char>::empty());
            assert(bits_in(Seq::<char>::empty()) =~= Seq::<bool>::empty());
            assert(bits_in(seq![ch]) =~= match symbol_bit(ch) {
                Some(b) => seq![b],
                None => Seq::<bool>::empty(),
            });
        }
        if ch == BIT_ZERO || ch == BIT_ONE {
            let bit: u8 = if ch == BIT_ONE { 1 } else { 0 };
            let ghost b = ch == BIT_ONE;
            proof {
                let now = seen.push(b);
                assert(bits_in(chars@.subrange(from as int, k + 1)) =~= now);
                assert(now.take(8 * bytes.len()) =~= seen.take(8 * bytes.len()));
                assert(now.skip(8 * bytes.len()) =~= seen.skip(8 * bytes.len()).push(b));
                assert(now.skip(8 * bytes.len()).drop_last() =~= seen.skip(8 * bytes.len()));
                lemma_pow2_unfold((bit_count + 1) as nat);
                lemma2_to64();
            }
            current_byte = current_byte * 2 + bit;
            bit_count = bit_count + 1;
            if bit_count == 8 {
                proof {
                    let now = seen.push(b);
                    let full = now.take(8 * bytes.len() + 8);
                    assert(full.subrange(0, full.len() - 8) =~= now.take(8 * bytes.len()));
                    assert(full.subrange(full.len() - 8, full.len() as int) =~= now.skip(
                        8 * bytes.len(),
                    ));
                    assert(now.skip(8 * bytes.len() + 8) =~= Seq::<bool>::empty());
                }
                bytes.push(current_byte);
                current_byte = 0;
                bit_count = 0;
            }
        } else {
            proof {
                assert(bits_in(chars@.subrange(from as int, k + 1)) =~= seen);
            }
        }
        k = k + 1;
    }
    proof {
        let seen = bits_in(chars@.subrange(from as int, to as int));
        if bit_count == 0 {
            assert(seen.take(8 * bytes.len()) =~= seen);
        }
    }
    if bit_count != 0 {
        return None;
    }
    Some(bytes)
}

/// Decodes the secret hidden in `encoded_text`.
///
/// The payload region lies between the first start marker and the first end
/// marker; inside it, every character other than a bit symbol is ignored.
pub fn decode(encoded_text: &str) -> (r: Result<String, Error>)
    ensures
        match r {
            Ok(t) => decode_result(encoded_text@) == Ok::<Seq<char>, Error>(t@),
            Err(e) => decode_result(encoded_text@) == Err::<Seq<char>, Error>(e),
        },
{
    let chars = chars_of(encoded_text);
    let start = find_char(&chars, START_MARKER);
    let end = find_char(&chars, END_MARKER);
    match (start, end) {
        (Some(start), Some(end)) => {
            if start < end {
                match assemble_bytes(&chars, start + 1, end) {
                    Some(bytes) => match string_from_utf8(bytes) {
                        Some(text) => Ok(text),
                        None => Err(Error::InvalidUtf8),
                    },
                    None => Err(Error::CorruptedPayload),
                }
            } else {
                Err(Error::CorruptedPayload)
            }
        },
        _ => Err(Error::NoHiddenMessage),
    }
}

} // verus!

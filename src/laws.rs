//! Laws that relate encoding, decoding and the visible rendering of a text.

use vstd::prelude::*;
use vstd::utf8::{decode_utf8, encode_utf8, encode_utf8_decode_utf8, encode_utf8_valid_utf8};
use crate::error::Error;
use crate::model::{
    bits_in, decode_result, embed, encode_result, first_index, hidden_bytes,
    lemma_bits_in_add, lemma_bits_in_symbols_of, lemma_first_index_absent, lemma_first_index_at,
    lemma_pack_payload_bits, lemma_payload_bits_len, payload_bits, symbols_of,
};
use crate::symbols::{bit_symbol, is_reserved, symbol_bit, END_MARKER, START_MARKER};
use crate::utils::visible;

verus! {

/// The hidden bytes of an embedded payload are the payload, for every byte
/// sequence, provided the cover does not begin with an end marker.
pub proof fn lemma_hidden_bytes_of_embed(cover: Seq<char>, secret: Seq<u8>)
    requires
        cover.len() > 0,
        cover[0] != END_MARKER,
    ensures
        hidden_bytes(embed(cover, secret)) == Ok::<Seq<u8>, Error>(secret),
{
    let bits = payload_bits(secret);
    let sym = symbols_of(bits);
    let t = embed(cover, secret);
    let n = sym.len() as int;
    lemma_payload_bits_len(secret);
    assert forall|j: int| 0 <= j < n implies sym[j] != END_MARKER && sym[j] != START_MARKER by {
        assert(sym[j] == bit_symbol(bits[j]));
    }
    assert(t.len() == cover.len() + n + 2);
    assert(t[n + 2] == END_MARKER);
    assert forall|j: int| 0 <= j < n + 2 implies t[j] != END_MARKER by {
        if j >= 2 {
            assert(t[j] == sym[j - 2]);
        }
    }
    lemma_first_index_at(t, END_MARKER, n + 2);
    lemma_bits_in_symbols_of(bits);
    if cover[0] == START_MARKER {
        lemma_first_index_at(t, START_MARKER, 0);
        let region = t.subrange(1, n + 2);
        assert(region =~= seq![START_MARKER] + sym);
        lemma_bits_in_add(seq![START_MARKER], sym);
        assert(seq![START_MARKER].drop_last() =~= Seq::<char>::empty());
        assert(seq![START_MARKER].last() == START_MARKER);
        assert(symbol_bit(START_MARKER) is None);
        assert(bits_in(Seq::<char>::empty()) =~= Seq::<bool>::empty());
        assert(bits_in(seq![START_MARKER]) =~= Seq::<bool>::empty());
        assert(bits_in(region) =~= bits);
    } else {
        lemma_first_index_at(t, START_MARKER, 1);
        assert(t.subrange(2, n + 2) =~= sym);
    }
    lemma_pack_payload_bits(secret);
}

/// Decoding what encoding produced gives the secret back, for every secret
/// text, provided the cover is not empty and does not begin with an end marker.
pub proof fn lemma_round_trip(cover: Seq<char>, secret: Seq<char>)
    requires
        cover.len() > 0,
        cover[0] != END_MARKER,
    ensures
        encode_result(cover, secret) matches Ok(t) && decode_result(t) == Ok::<Seq<char>, Error>(
            secret,
        ),
{
    lemma_hidden_bytes_of_embed(cover, encode_utf8(secret));
    encode_utf8_valid_utf8(secret);
    encode_utf8_decode_utf8(secret);
}

/// A text without reserved characters is its own visible rendering.
pub proof fn lemma_visible_plain(s: Seq<char>)
    requires
        forall|i: int| 0 <= i < s.len() ==> !is_reserved(s[i]),
    ensures
        visible(s) == s,
    decreases s.len(),
{
    reveal(Seq::filter);
    if s.len() > 0 {
        lemma_visible_plain(s.drop_last());
        assert(s.drop_last().push(s.last()) =~= s);
    }
}

/// A text made only of reserved characters renders as nothing.
pub proof fn lemma_visible_hidden(s: Seq<char>)
    requires
        forall|i: int| 0 <= i < s.len() ==> is_reserved(s[i]),
    ensures
        visible(s) == Seq::<char>::empty(),
    decreases s.len(),
{
    reveal(Seq::filter);
    if s.len() > 0 {
        lemma_visible_hidden(s.drop_last());
    }
}

/// The encoded text renders exactly as the cover, for every cover free of
/// reserved characters and every payload.
pub proof fn lemma_visible_embed(cover: Seq<char>, secret: Seq<u8>)
    requires
        cover.len() > 0,
        forall|i: int| 0 <= i < cover.len() ==> !is_reserved(cover[i]),
    ensures
        visible(embed(cover, secret)) == cover,
{
    broadcast use Seq::filter_distributes_over_add;

    let bits = payload_bits(secret);
    let sym = symbols_of(bits);
    let rest = cover.subrange(1, cover.len() as int);
    assert forall|j: int| 0 <= j < sym.len() implies is_reserved(sym[j]) by {
        assert(sym[j] == bit_symbol(bits[j]));
    }
    lemma_visible_hidden(sym);
    lemma_visible_hidden(seq![START_MARKER]);
    lemma_visible_hidden(seq![END_MARKER]);
    lemma_visible_plain(seq![cover[0]]);
    lemma_visible_plain(rest);
    assert(embed(cover, secret) == seq![cover[0]] + seq![START_MARKER] + sym + seq![END_MARKER]
        + rest) by {
        assert(seq![cover[0], START_MARKER] =~= seq![cover[0]] + seq![START_MARKER]);
    }
    assert(seq![cover[0]] + rest =~= cover);
    assert(visible(embed(cover, secret)) =~= cover);
}

/// Encoding is a function of its arguments: two encodings of the same cover
/// and secret are the same text.
pub proof fn lemma_encode_deterministic(
    cover: Seq<char>,
    secret: Seq<char>,
    first: Seq<char>,
    second: Seq<char>,
)
    requires
        encode_result(cover, secret) == Ok::<Seq<char>, Error>(first),
        encode_result(cover, secret) == Ok::<Seq<char>, Error>(second),
    ensures
        first == second,
{
}

/// The encoded text is the cover plus two markers plus eight symbols per
/// payload byte.
pub proof fn lemma_encode_length(cover: Seq<char>, secret: Seq<u8>)
    requires
        cover.len() > 0,
    ensures
        embed(cover, secret).len() == cover.len() + 2 + 8 * secret.len(),
{
    lemma_payload_bits_len(secret);
}

/// An empty cover is rejected whatever the secret.
pub proof fn lemma_empty_cover_rejected(secret: Seq<char>)
    ensures
        encode_result(Seq::<char>::empty(), secret) == Err::<Seq<char>, Error>(
            Error::CoverTextTooShort,
        ),
{
}

/// A text that lacks a start marker or an end marker hides nothing.
pub proof fn lemma_no_markers(text: Seq<char>)
    requires
        !text.contains(START_MARKER) || !text.contains(END_MARKER),
    ensures
        decode_result(text) == Err::<Seq<char>, Error>(Error::NoHiddenMessage),
{
    if !text.contains(START_MARKER) {
        lemma_first_index_absent(text, START_MARKER);
    } else {
        lemma_first_index_absent(text, END_MARKER);
    }
}

/// A well-ordered payload region whose bit symbols do not divide into whole
/// bytes is reported as corrupted.
pub proof fn lemma_partial_byte_corrupted(text: Seq<char>, start: int, end: int)
    requires
        first_index(text, START_MARKER) == Some(start),
        first_index(text, END_MARKER) == Some(end),
        start < end,
        bits_in(text.subrange(start + 1, end)).len() % 8 != 0,
    ensures
        decode_result(text) == Err::<Seq<char>, Error>(Error::CorruptedPayload),
{
}

} // verus!

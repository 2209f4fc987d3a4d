//! What holds of the decoder on every input, proved from its definitions.

use vstd::prelude::*;
use crate::bencoded::{lemma_span_bounds, lemma_span_local, span, step, tokens};
use crate::dict::dict_entries;
use crate::integer::{is_negative, magnitude_text};
use crate::list::{after_marker, at_end, list_items};
use crate::parse::{
    agree, all_digits, decimal, digits_end, is_digit, lemma_digits_end_at,
    lemma_digits_end_found, lemma_find_end_at, lemma_find_end_found, scan, BYTE_COLON, BYTE_E,
    BYTE_I, BYTE_MINUS,
};
use crate::token::TokenView;
use crate::traverse::{
    byte_string_at, integer_at, lookup, starts_dict, starts_list, utf8_string_at,
};

verus! {

/// A byte string as it is written: its length in decimal, a colon, its
/// bytes.
pub open spec fn written_byte_string(length: Seq<u8>, payload: Seq<u8>) -> Seq<u8> {
    length + seq![BYTE_COLON] + payload
}

/// A byte string written as its length in decimal, a colon and its bytes
/// decodes to one token that holds exactly those bytes, and takes up nothing
/// of what follows.
pub proof fn law_byte_string_decodes(length: Seq<u8>, payload: Seq<u8>, trailing: Seq<u8>)
    requires
        length.len() >= 1,
        all_digits(length),
        decimal(length) == payload.len(),
    ensures
        scan(written_byte_string(length, payload) + trailing) == Some(
            (
                TokenView::ByteString(payload),
                written_byte_string(length, payload).len() as int,
            ),
        ),
        byte_string_at(written_byte_string(length, payload) + trailing) == Some(payload),
        tokens(written_byte_string(length, payload) + trailing, 0) == seq![
            TokenView::ByteString(payload),
        ],
        span(written_byte_string(length, payload) + trailing, 0) == Some(
            written_byte_string(length, payload).len() as int,
        ),
{
    let data = written_byte_string(length, payload) + trailing;
    let colon = length.len() as int;
    let used = (colon + 1 + payload.len()) as int;
    assert(data[0] == length[0]);
    assert forall|i: int| 0 <= i < colon implies is_digit(data[i]) by {
        assert(data[i] == length[i]);
    }
    assert(data[colon] == BYTE_COLON);
    lemma_digits_end_at(data, 0, colon);
    assert(data.subrange(0, colon) =~= length);
    assert(data.subrange(colon + 1, used) =~= payload);
    assert(tokens(data.skip(used), -1) =~= Seq::<TokenView>::empty());
    assert(tokens(data, 0) =~= seq![TokenView::ByteString(payload)]);
    assert(span(data.skip(used), -1) == Some(0int));
}

/// Conversely, the bytes that a byte string token takes up are its length
/// in decimal, a colon and its payload.
pub proof fn law_byte_string_is_written(data: Seq<u8>)
    requires
        scan(data) matches Some((TokenView::ByteString(_), _)),
    ensures
        ({
            let used = scan(data).unwrap().1;
            let payload = scan(data).unwrap().0->ByteString_0;
            let length = data.take(digits_end(data, 0));
            &&& length.len() >= 1
            &&& all_digits(length)
            &&& decimal(length) == payload.len()
            &&& 0 <= used <= data.len()
            &&& data.take(used) == written_byte_string(length, payload)
        }),
{
    let used = scan(data).unwrap().1;
    let payload = scan(data).unwrap().0->ByteString_0;
    let colon = digits_end(data, 0);
    lemma_digits_end_found(data, 0);
    assert(data.take(colon) =~= data.subrange(0, colon));
    assert(data.take(used) =~= written_byte_string(data.take(colon), payload));
}

/// The text of an integer: a minus sign where it is negative, then its
/// digits.
pub open spec fn signed_text(negative: bool, digits: Seq<u8>) -> Seq<u8> {
    if negative {
        seq![BYTE_MINUS] + digits
    } else {
        digits
    }
}

/// An integer as it is written: `i`, the sign and the digits, `e`.
pub open spec fn written_integer(negative: bool, digits: Seq<u8>) -> Seq<u8> {
    seq![BYTE_I] + signed_text(negative, digits) + seq![BYTE_E]
}

/// An integer written as `i`, an optional minus sign, decimal digits and `e`
/// decodes to one token that holds the sign and the digits, and that text
/// writes the number the digits stand for, with its sign.
pub proof fn law_integer_decodes(negative: bool, digits: Seq<u8>, trailing: Seq<u8>)
    requires
        all_digits(digits),
    ensures
        scan(written_integer(negative, digits) + trailing) == Some(
            (
                TokenView::Integer(signed_text(negative, digits)),
                written_integer(negative, digits).len() as int,
            ),
        ),
        tokens(written_integer(negative, digits) + trailing, 0) == seq![
            TokenView::Integer(signed_text(negative, digits)),
        ],
        integer_at(written_integer(negative, digits) + trailing) == Some(
            if negative {
                -(decimal(digits) as int)
            } else {
                decimal(digits) as int
            },
        ),
{
    let text = signed_text(negative, digits);
    let data = written_integer(negative, digits) + trailing;
    let e = (text.len() + 1) as int;
    assert forall|i: int| 0 <= i < text.len() implies text[i] != BYTE_E by {
        if negative {
            if i > 0 {
                assert(text[i] == digits[i - 1]);
            }
        } else {
            assert(text[i] == digits[i]);
        }
    }
    assert forall|i: int| 1 <= i < e implies data[i] != BYTE_E by {
        assert(data[i] == text[i - 1]);
    }
    assert(data[e] == BYTE_E);
    lemma_find_end_at(data, 1, e);
    assert(data.subrange(1, e) =~= text);
    assert(tokens(data.skip(e + 1), -1) =~= Seq::<TokenView>::empty());
    assert(tokens(data, 0) =~= seq![TokenView::Integer(text)]);
    if negative {
        assert(magnitude_text(text) =~= digits);
    } else {
        if text.len() > 0 {
            assert(is_digit(digits[0]));
        }
        assert(!is_negative(text));
    }
}

/// Conversely, the bytes that an integer token takes up are `i`, its text
/// and `e`, and the text holds no `e`.
pub proof fn law_integer_is_written(data: Seq<u8>)
    requires
        scan(data) matches Some((TokenView::Integer(_), _)),
    ensures
        ({
            let used = scan(data).unwrap().1;
            let text = scan(data).unwrap().0->Integer_0;
            &&& forall|i: int| 0 <= i < text.len() ==> text[i] != BYTE_E
            &&& 0 <= used <= data.len()
            &&& data.take(used) == seq![BYTE_I] + text + seq![BYTE_E]
        }),
{
    let used = scan(data).unwrap().1;
    let text = scan(data).unwrap().0->Integer_0;
    lemma_find_end_found(data, 1);
    assert forall|i: int| 0 <= i < text.len() implies text[i] != BYTE_E by {
        assert(text[i] == data[i + 1]);
    }
    assert(data.take(used) =~= seq![BYTE_I] + text + seq![BYTE_E]);
}

/// A cursor over a complete value followed by other bytes produces the
/// tokens of that value alone, and reads none of the bytes that follow.
pub proof fn law_trailing_bytes_untouched(value: Seq<u8>, trailing: Seq<u8>)
    requires
        span(value, 0) == Some(value.len() as int),
    ensures
        tokens(value + trailing, 0) == tokens(value, 0),
        span(value + trailing, 0) == Some(value.len() as int),
{
    assert(agree(value, value + trailing, value.len() as int));
    lemma_span_local(value, value + trailing, 0);
}

/// The bytes cut out for one value, read again from their start, give the
/// tokens that the value gave where it stood, and make up one complete
/// value.
pub proof fn law_isolated_span_reparses(data: Seq<u8>, depth: int)
    requires
        span(data, depth) is Some,
    ensures
        0 <= span(data, depth).unwrap() <= data.len(),
        tokens(data.take(span(data, depth).unwrap()), depth) == tokens(data, depth),
        span(data.take(span(data, depth).unwrap()), depth) == span(data, depth),
{
    lemma_span_bounds(data, depth);
    let n = span(data, depth).unwrap();
    assert(agree(data, data.take(n), n));
    lemma_span_local(data, data.take(n), depth);
}

/// Nothing is found in an empty buffer: it starts with no token, holds no
/// value to cut out, no element, no entry and no key.
pub proof fn law_empty_is_absent(data: Seq<u8>, depth: int, key: Seq<u8>)
    requires
        data.len() == 0,
    ensures
        !starts_dict(data),
        !starts_list(data),
        byte_string_at(data) is None,
        utf8_string_at(data) is None,
        integer_at(data) is None,
        scan(data) is None,
        step(data, depth) is None,
        tokens(data, depth).len() == 0,
        depth >= 0 ==> span(data, depth) is None,
        list_items(after_marker(data)).len() == 0,
        dict_entries(after_marker(data)).len() == 0,
        lookup(after_marker(data), key) is None,
{
}

/// A container that closes at once holds no element, no entry and no key,
/// whatever follows its closing marker.
pub proof fn law_closed_container_is_empty(inner: Seq<u8>, key: Seq<u8>)
    requires
        at_end(inner),
    ensures
        list_items(inner).len() == 0,
        dict_entries(inner).len() == 0,
        lookup(inner, key) is None,
{
}

} // verus!

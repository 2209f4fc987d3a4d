//! The tokenizer: a pure function from a buffer to its first token.

use vstd::prelude::*;
use vstd::slice::slice_subrange;
use crate::token::{Token, TokenView};

verus! {

/// ASCII `0`.
pub const BYTE_0: u8 = 48;

/// ASCII `9`.
pub const BYTE_9: u8 = 57;

/// ASCII `:`, which parts the length of a byte string from its payload.
pub const BYTE_COLON: u8 = 58;

/// ASCII `-`, the sign of a negative integer.
pub const BYTE_MINUS: u8 = 45;

/// ASCII `d`, which opens a dictionary.
pub const BYTE_D: u8 = 100;

/// ASCII `e`, which closes an integer, a list or a dictionary.
pub const BYTE_E: u8 = 101;

/// ASCII `i`, which opens an integer.
pub const BYTE_I: u8 = 105;

/// ASCII `l`, which opens a list.
pub const BYTE_L: u8 = 108;

/// `b` is one of the ASCII digits `0` to `9`.
pub open spec fn is_digit(b: u8) -> bool {
    BYTE_0 <= b <= BYTE_9
}

/// The number that the decimal digits `s` write, leading zeros allowed.
/// The empty sequence writes 0.
pub open spec fn decimal(s: Seq<u8>) -> nat
    decreases s.len(),
{
    if s.len() == 0 {
        0
    } else {
        (decimal(s.drop_last()) * 10 + (s.last() - BYTE_0)) as nat
    }
}

/// Every byte of `s` is a digit.
pub open spec fn all_digits(s: Seq<u8>) -> bool {
    forall|i: int| 0 <= i < s.len() ==> is_digit(#[trigger] s[i])
}

/// The first index at or after `from` that holds no digit, or the length of
/// `data` where only digits follow.
pub open spec fn digits_end(data: Seq<u8>, from: int) -> int
    decreases data.len() - from,
{
    if 0 <= from < data.len() && is_digit(data[from]) {
        digits_end(data, from + 1)
    } else {
        from
    }
}

/// The first index at or after `from` that holds `e`, or the length of
/// `data` where none follows.
pub open spec fn find_end(data: Seq<u8>, from: int) -> int
    decreases data.len() - from,
{
    if 0 <= from < data.len() && data[from] != BYTE_E {
        find_end(data, from + 1)
    } else {
        from
    }
}

/// The first token of `data` and the number of bytes it takes up, or `None`
/// where `data` is empty, cut short or starts with no token.
///
/// After `i`, everything up to the first `e` is the text of an integer; what
/// that text holds is not looked at. A run of digits, a colon and as many
/// bytes as the digits say make a byte string. `l`, `d` and `e` are tokens
/// of one byte.
pub open spec fn scan(data: Seq<u8>) -> Option<(TokenView, int)> {
    if data.len() == 0 {
        None
    } else if data[0] == BYTE_I {
        let e = find_end(data, 1);
        if e < data.len() {
            Some((TokenView::Integer(data.subrange(1, e)), e + 1))
        } else {
            None
        }
    } else if is_digit(data[0]) {
        let colon = digits_end(data, 0);
        let start = colon + 1;
        let n = decimal(data.subrange(0, colon));
        if colon < data.len() && data[colon] == BYTE_COLON && start + n <= data.len() {
            Some((TokenView::ByteString(data.subrange(start, start + n)), start + n))
        } else {
            None
        }
    } else if data[0] == BYTE_L {
        Some((TokenView::ListStart, 1))
    } else if data[0] == BYTE_D {
        Some((TokenView::DictStart, 1))
    } else if data[0] == BYTE_E {
        Some((TokenView::End, 1))
    } else {
        None
    }
}

/// `a` and `b` hold the same first `n` bytes.
pub open spec fn agree(a: Seq<u8>, b: Seq<u8>, n: int) -> bool {
    &&& 0 <= n <= a.len()
    &&& n <= b.len()
    &&& forall|i: int| 0 <= i < n ==> a[i] == b[i]
}

/// Where no `e` stands in `from..to` and one stands at `to`, the search from
/// `from` ends at `to`.
pub proof fn lemma_find_end_at(data: Seq<u8>, from: int, to: int)
    requires
        0 <= from <= to < data.len(),
        forall|i: int| from <= i < to ==> data[i] != BYTE_E,
        data[to] == BYTE_E,
    ensures
        find_end(data, from) == to,
    decreases to - from,
{
    if from < to {
        lemma_find_end_at(data, from + 1, to);
    }
}

/// Where the search for `e` from `from` ends inside the buffer, no `e`
/// stands before that place and one stands there.
pub proof fn lemma_find_end_found(data: Seq<u8>, from: int)
    requires
        0 <= from <= data.len(),
        find_end(data, from) < data.len(),
    ensures
        from <= find_end(data, from),
        forall|i: int| from <= i < find_end(data, from) ==> data[i] != BYTE_E,
        data[find_end(data, from)] == BYTE_E,
    decreases data.len() - from,
{
    if from < data.len() && data[from] != BYTE_E {
        lemma_find_end_found(data, from + 1);
    }
}

/// Where digits fill `from..to` and none stands at `to`, the run of digits
/// from `from` ends at `to`.
pub proof fn lemma_digits_end_at(data: Seq<u8>, from: int, to: int)
    requires
        0 <= from <= to <= data.len(),
        forall|i: int| from <= i < to ==> is_digit(data[i]),
        to < data.len() ==> !is_digit(data[to]),
    ensures
        digits_end(data, from) == to,
    decreases to - from,
{
    if from < to {
        lemma_digits_end_at(data, from + 1, to);
    }
}

/// Digits fill the run from `from` to where it ends, and none stands there.
pub proof fn lemma_digits_end_found(data: Seq<u8>, from: int)
    requires
        0 <= from <= data.len(),
    ensures
        from <= digits_end(data, from) <= data.len(),
        forall|i: int| from <= i < digits_end(data, from) ==> is_digit(data[i]),
        digits_end(data, from) < data.len() ==> !is_digit(data[digits_end(data, from)]),
    decreases data.len() - from,
{
    if from < data.len() && is_digit(data[from]) {
        lemma_digits_end_found(data, from + 1);
    }
}

/// A token takes up at least one byte and never more than the buffer holds.
pub proof fn lemma_scan_bounds(data: Seq<u8>)
    ensures
        scan(data) matches Some((_, used)) ==> 1 <= used <= data.len(),
{
    if data.len() > 0 {
        if find_end(data, 1) < data.len() {
            lemma_find_end_found(data, 1);
        }
        lemma_digits_end_found(data, 0);
    }
}

/// The first token of a buffer depends on the bytes of that token alone: a
/// buffer that holds the same bytes there starts with the same token.
pub proof fn lemma_scan_local(a: Seq<u8>, b: Seq<u8>)
    requires
        scan(a) is Some,
        agree(a, b, scan(a).unwrap().1),
    ensures
        scan(b) == scan(a),
{
    let (token, used) = scan(a).unwrap();
    lemma_scan_bounds(a);
    if a[0] == BYTE_I {
        let e = find_end(a, 1);
        lemma_find_end_found(a, 1);
        lemma_find_end_at(b, 1, e);
        assert(a.subrange(1, e) =~= b.subrange(1, e));
    } else if is_digit(a[0]) {
        let colon = digits_end(a, 0);
        lemma_digits_end_found(a, 0);
        lemma_digits_end_at(b, 0, colon);
        assert(a.subrange(0, colon) =~= b.subrange(0, colon));
        assert(a.subrange(colon + 1, used) =~= b.subrange(colon + 1, used));
    }
}

/// Reads the first token of `data`. Returns it with the bytes that follow it,
/// or `None` where `data` is empty, cut short or starts with no token.
pub fn parse_token<'a>(data: &'a [u8]) -> (r: Option<(Token<'a>, &'a [u8])>)
    ensures
        match r {
            Some((token, rest)) => scan(data@) matches Some((t, used)) && token@ == t && 1 <= used
                <= data@.len() && rest@ == data@.skip(used),
            None => scan(data@) is None,
        },
{
    proof {
        lemma_scan_bounds(data@);
    }
    if data.len() < 1 {
        return None;
    }
    let first = data[0];
    if first == BYTE_I {
        let mut pos: usize = 1;
        while pos < data.len() && data[pos] != BYTE_E
            invariant
                1 <= pos <= data.len(),
                find_end(data@, pos as int) == find_end(data@, 1),
            decreases data.len() - pos,
        {
            pos += 1;
        }
        if pos < data.len() {
            let text = slice_subrange(data, 1, pos);
            let rest = slice_subrange(data, pos + 1, data.len());
            Some((Token::Integer(text), rest))
        } else {
            None
        }
    } else if BYTE_0 <= first && first <= BYTE_9 {
        let mut len: usize = 0;
        let mut too_long = false;
        let mut pos: usize = 0;
        while pos < data.len() && BYTE_0 <= data[pos] && data[pos] <= BYTE_9
            invariant
                pos <= data.len(),
                digits_end(data@, pos as int) == digits_end(data@, 0),
                !too_long ==> len == decimal(data@.subrange(0, pos as int)) && len <= data.len(),
                too_long ==> decimal(data@.subrange(0, pos as int)) > data.len(),
            decreases data.len() - pos,
        {
            let digit = (data[pos] - BYTE_0) as usize;
            proof {
                let next = data@.subrange(0, pos + 1);
                assert(next.drop_last() == data@.subrange(0, pos as int));
                assert(decimal(next) == decimal(next.drop_last()) * 10 + digit);
            }
            if !too_long {
                if len > data.len() / 10 || digit > data.len() - 10 * len {
                    too_long = true;
                } else {
                    len = 10 * len + digit;
                }
            }
            pos += 1;
        }
        if too_long || pos >= data.len() || data[pos] != BYTE_COLON {
            return None;
        }
        let start = pos + 1;
        if len > data.len() - start {
            return None;
        }
        let payload = slice_subrange(data, start, start + len);
        let rest = slice_subrange(data, start + len, data.len());
        Some((Token::ByteString(payload), rest))
    } else if first == BYTE_L {
        Some((Token::ListStart, slice_subrange(data, 1, data.len())))
    } else if first == BYTE_D {
        Some((Token::DictStart, slice_subrange(data, 1, data.len())))
    } else if first == BYTE_E {
        Some((Token::End, slice_subrange(data, 1, data.len())))
    } else {
        None
    }
}

} // verus!

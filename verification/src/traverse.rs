//! Accessors that look at the value a cursor stands on.

use vstd::prelude::*;
use vstd::slice::slice_subrange;
use vstd::string::StringSliceAdditionalSpecFns;
use vstd::utf8::valid_utf8;
use crate::bencoded::{lemma_span_local, BEncoded, span, step, tokens};
use crate::dict::{dict_entries, lemma_next_entry_bounds, next_entry, DictIterator};
use crate::integer::{
    integer_value, is_negative, lemma_wrap_in_range, lemma_wrap_negate, lemma_wrap_push_digit,
    magnitude_text, wrap_i64,
};
use crate::list::{after_marker, ListIterator};
use crate::parse::{agree, all_digits, decimal, parse_token, scan, BYTE_0, BYTE_9, BYTE_MINUS};
use crate::token::{Token, TokenView};

verus! {

/// The data starts with the marker of a dictionary.
pub open spec fn starts_dict(data: Seq<u8>) -> bool {
    scan(data) matches Some((TokenView::DictStart, _))
}

/// The data starts with the marker of a list.
pub open spec fn starts_list(data: Seq<u8>) -> bool {
    scan(data) matches Some((TokenView::ListStart, _))
}

/// The payload of the byte string that the data starts with.
pub open spec fn byte_string_at(data: Seq<u8>) -> Option<Seq<u8>> {
    match scan(data) {
        Some((TokenView::ByteString(payload), _)) => Some(payload),
        _ => None,
    }
}

/// The payload of the byte string that the data starts with, where it is
/// well-formed UTF-8.
pub open spec fn utf8_string_at(data: Seq<u8>) -> Option<Seq<u8>> {
    match byte_string_at(data) {
        Some(payload) => if valid_utf8(payload) {
            Some(payload)
        } else {
            None
        },
        None => None,
    }
}

/// The number that the integer at the start of the data writes, before it is
/// fitted into 64 bits.
pub open spec fn integer_at(data: Seq<u8>) -> Option<int> {
    match scan(data) {
        Some((TokenView::Integer(text), _)) => integer_value(text),
        _ => None,
    }
}

/// `key` starts with a byte string whose payload is `wanted`.
pub open spec fn key_matches(key: Seq<u8>, wanted: Seq<u8>) -> bool {
    byte_string_at(key) == Some(wanted)
}

/// The value of the first of `entries` whose key is the byte string
/// `wanted`.
pub open spec fn first_match(entries: Seq<(Seq<u8>, Seq<u8>)>, wanted: Seq<u8>) -> Option<
    Seq<u8>,
>
    decreases entries.len(),
{
    if entries.len() == 0 {
        None
    } else if key_matches(entries.first().0, wanted) {
        Some(entries.first().1)
    } else {
        first_match(entries.drop_first(), wanted)
    }
}

/// The bytes of the value that the first entry with the key `wanted` holds,
/// among the entries that a dictionary iterator over `data` hands out.
pub open spec fn lookup(data: Seq<u8>, wanted: Seq<u8>) -> Option<Seq<u8>> {
    first_match(dict_entries(data), wanted)
}

/// Looking a key up is looking at the first entry and, where its key is
/// another, looking the key up in what follows that entry.
pub proof fn lemma_lookup_unfolds(data: Seq<u8>, wanted: Seq<u8>)
    ensures
        lookup(data, wanted) == match next_entry(data) {
            None => None,
            Some((k, v)) => if key_matches(data.take(k), wanted) {
                Some(data.subrange(k, k + v))
            } else {
                lookup(data.skip(k + v), wanted)
            },
        },
{
    if let Some((k, v)) = next_entry(data) {
        let entries = dict_entries(data);
        assert(entries.first() == (data.take(k), data.subrange(k, k + v)));
        assert(entries.drop_first() =~= dict_entries(data.skip(k + v)));
    }
}

/// A value found by `lookup` is never empty, so an empty cursor can stand
/// for a key that is missing.
pub proof fn lemma_lookup_nonempty(data: Seq<u8>, wanted: Seq<u8>)
    ensures
        lookup(data, wanted) matches Some(value) ==> value.len() >= 1,
    decreases data.len(),
{
    lemma_next_entry_bounds(data);
    lemma_lookup_unfolds(data, wanted);
    if let Some((k, v)) = next_entry(data) {
        if !key_matches(data.take(k), wanted) {
            lemma_lookup_nonempty(data.skip(k + v), wanted);
        }
    }
}

/// Are the two slices equal, byte for byte?
fn same_bytes(a: &[u8], b: &[u8]) -> (r: bool)
    ensures
        r == (a@ == b@),
{
    if a.len() != b.len() {
        return false;
    }
    let mut i: usize = 0;
    while i < a.len()
        invariant
            a@.len() == b@.len(),
            i <= a@.len(),
            forall|j: int| 0 <= j < i ==> a@[j] == b@[j],
        decreases a@.len() - i,
    {
        if a[i] != b[i] {
            return false;
        }
        i += 1;
    }
    assert(a@ =~= b@);
    true
}

/// Calls `std::str::from_utf8`. Taken on trust, not proved: it accepts
/// exactly the well-formed UTF-8 sequences, and the string it returns is made
/// of the very bytes it was given.
#[verifier::external_body]
fn checked_utf8<'a>(bytes: &'a [u8]) -> (r: Option<&'a str>)
    ensures
        r is Some <==> valid_utf8(bytes@),
        r matches Some(s) ==> s.spec_bytes() == bytes@,
{
    match std::str::from_utf8(bytes) {
        Ok(s) => Some(s),
        Err(_) => None,
    }
}

impl<'a> BEncoded<'a> {
    /// Does the data start with the marker of a dictionary?
    pub fn is_dict(&self) -> (r: bool)
        ensures
            r == starts_dict(self.data@),
    {
        match parse_token(self.data) {
            Some((Token::DictStart, _)) => true,
            _ => false,
        }
    }

    /// Does the data start with the marker of a list?
    pub fn is_list(&self) -> (r: bool)
        ensures
            r == starts_list(self.data@),
    {
        match parse_token(self.data) {
            Some((Token::ListStart, _)) => true,
            _ => false,
        }
    }

    /// The payload of the byte string that the data starts with, or `None`
    /// where it starts with anything else.
    pub fn get_byte_string(&self) -> (r: Option<&'a [u8]>)
        ensures
            match r {
                Some(s) => byte_string_at(self.data@) == Some(s@),
                None => byte_string_at(self.data@) is None,
            },
    {
        match parse_token(self.data) {
            Some((Token::ByteString(s), _)) => Some(s),
            _ => None,
        }
    }

    /// The payload of the byte string that the data starts with, as a
    /// string, or `None` where the data starts with anything else or the
    /// payload is not well-formed UTF-8.
    pub fn get_utf8_string(&self) -> (r: Option<&'a str>)
        ensures
            match r {
                Some(s) => utf8_string_at(self.data@) == Some(s.spec_bytes()),
                None => utf8_string_at(self.data@) is None,
            },
    {
        match self.get_byte_string() {
            Some(s) => checked_utf8(s),
            None => None,
        }
    }

    /// The number that the integer at the start of the data writes, or
    /// `None` where the data starts with anything else or the text of the
    /// integer holds anything but an optional sign and digits.
    ///
    /// A number beyond the range of `i64` wraps around.
    pub fn get_integer(&self) -> (r: Option<i64>)
        ensures
            match r {
                Some(value) => integer_at(self.data@) matches Some(exact) && value == wrap_i64(
                    exact,
                ) && (i64::MIN <= exact <= i64::MAX ==> value == exact),
                None => integer_at(self.data@) is None,
            },
    {
        let text = match parse_token(self.data) {
            Some((Token::Integer(text), _)) => text,
            _ => {
                return None;
            },
        };
        let negative = text.len() > 0 && text[0] == BYTE_MINUS;
        let start: usize = if negative {
            1
        } else {
            0
        };
        let mut value: i64 = 0;
        let mut i: usize = start;
        proof {
            lemma_wrap_in_range(0);
        }
        while i < text.len()
            invariant
                scan(self.data@) matches Some((TokenView::Integer(t), _)) && t == text@,
                negative == is_negative(text@),
                start == if negative { 1usize } else { 0usize },
                start <= i <= text@.len(),
                all_digits(text@.subrange(start as int, i as int)),
                value == wrap_i64(decimal(text@.subrange(start as int, i as int)) as int),
            decreases text@.len() - i,
        {
            let byte = text[i];
            if byte < BYTE_0 || byte > BYTE_9 {
                assert(magnitude_text(text@)[i - start] == byte);
                return None;
            }
            let digit = (byte - BYTE_0) as i64;
            proof {
                let longer = text@.subrange(start as int, i + 1);
                assert(longer.drop_last() == text@.subrange(start as int, i as int));
                lemma_wrap_push_digit(value, decimal(longer.drop_last()) as int, digit);
            }
            value = value.wrapping_mul(10).wrapping_add(digit);
            i += 1;
        }
        proof {
            assert(text@.subrange(start as int, i as int) == magnitude_text(text@));
            let exact = integer_value(text@).unwrap();
            if negative {
                lemma_wrap_negate(value, decimal(magnitude_text(text@)) as int);
            }
            if i64::MIN <= exact <= i64::MAX {
                lemma_wrap_in_range(exact);
            }
        }
        if negative {
            Some(0i64.wrapping_sub(value))
        } else {
            Some(value)
        }
    }

    /// Cuts the one value that this cursor covers out of its data.
    ///
    /// Returns a fresh cursor over exactly the bytes of that value, and the
    /// bytes that follow it. Returns `None` where the tokens run out before
    /// the value is complete.
    ///
    /// Cut out of a cursor at depth 0, the fresh cursor produces the tokens
    /// that the cursor itself would have produced.
    pub fn this_and_rest(self) -> (r: Option<(BEncoded<'a>, &'a [u8])>)
        ensures
            match r {
                Some((this, rest)) => span(self.data@, self.depth as int) matches Some(n) && 0 <= n
                    <= self.data@.len() && this.data@ == self.data@.take(n) && this.depth == 0
                    && rest@ == self.data@.skip(n) && (self.depth == 0 ==> tokens(
                    this.data@,
                    this.depth as int,
                ) == tokens(self.data@, self.depth as int)),
                None => span(self.data@, self.depth as int) is None,
            },
    {
        let data = self.data;
        let mut cursor = self;
        let ghost mut read: int = 0;
        while cursor.depth >= 0
            invariant
                0 <= read <= data@.len(),
                cursor.data@ == data@.skip(read),
                span(data@, self.depth as int) == match span(cursor.data@, cursor.depth as int) {
                    Some(more) => Some(read + more),
                    None => None,
                },
                data == self.data,
            decreases cursor.data@.len(),
        {
            let ghost before = cursor;
            match cursor.next() {
                None => {
                    return None;
                },
                Some(_) => {
                    proof {
                        let used = step(before.data@, before.depth as int).unwrap().1;
                        assert(data@.skip(read).skip(used) == data@.skip(read + used));
                        read = read + used;
                    }
                },
            }
        }
        let n = data.len() - cursor.data.len();
        let this = BEncoded::new(slice_subrange(data, 0, n));
        proof {
            assert(agree(data@, data@.take(n as int), n as int));
            lemma_span_local(data@, data@.take(n as int), self.depth as int);
        }
        Some((this, cursor.data))
    }

    /// The elements of the list that the data holds.
    pub fn list(&self) -> (r: ListIterator<'a>)
        ensures
            r.data@ == after_marker(self.data@),
    {
        ListIterator::new(self.data)
    }

    /// The entries of the dictionary that the data holds.
    pub fn dict(&self) -> (r: DictIterator<'a>)
        ensures
            r.data@ == after_marker(self.data@),
    {
        DictIterator::new(self.data)
    }

    /// Looks `wanted_key` up in the dictionary that the data holds.
    ///
    /// Returns a fresh cursor over the value of the first entry whose key is
    /// the byte string `wanted_key`. Where there is none, returns an empty
    /// cursor, so that lookups can be chained without testing each result.
    pub fn get(&self, wanted_key: &[u8]) -> (r: BEncoded<'a>)
        ensures
            r.depth == 0,
            match lookup(after_marker(self.data@), wanted_key@) {
                Some(value) => r.data@ == value && r.data@.len() >= 1,
                None => r.data@.len() == 0,
            },
    {
        let mut entries = self.dict();
        proof {
            lemma_lookup_nonempty(entries.data@, wanted_key@);
        }
        loop
            invariant
                lookup(after_marker(self.data@), wanted_key@) == lookup(
                    entries.data@,
                    wanted_key@,
                ),
                lookup(after_marker(self.data@), wanted_key@) matches Some(value) ==> value.len()
                    >= 1,
            decreases entries.data@.len(),
        {
            proof {
                lemma_lookup_unfolds(entries.data@, wanted_key@);
            }
            match entries.next() {
                None => {
                    return BEncoded::empty();
                },
                Some((key, value)) => {
                    let mut key = key;
                    let first = key.next();
                    let second = key.next();
                    match (first, second) {
                        (Some(Token::ByteString(s)), None) => {
                            if same_bytes(s, wanted_key) {
                                return value;
                            }
                        },
                        _ => {},
                    }
                },
            }
        }
    }
}

} // verus!

//! Walking the entries of a dictionary, two isolated values at a time.

use vstd::prelude::*;
use crate::bencoded::{lemma_span_bounds, BEncoded, span};
use crate::list::{after_marker, at_end, skip_marker};
use crate::parse::BYTE_E;

verus! {

/// The lengths of the two values that `data` starts with, a key and what it
/// stands for, where both can be cut out before the end of the container.
pub open spec fn next_entry(data: Seq<u8>) -> Option<(int, int)> {
    if at_end(data) {
        None
    } else {
        match span(data, 0) {
            None => None,
            Some(k) => match span(data.skip(k), 0) {
                None => None,
                Some(v) => Some((k, v)),
            },
        }
    }
}

/// The entries that an iterator over `data` hands out, each as the bytes of
/// its key and the bytes of its value, in order.
pub open spec fn dict_entries(data: Seq<u8>) -> Seq<(Seq<u8>, Seq<u8>)>
    decreases data.len(),
    via dict_entries_shortens
{
    match next_entry(data) {
        None => Seq::empty(),
        Some((k, v)) => seq![(data.take(k), data.subrange(k, k + v))] + dict_entries(
            data.skip(k + v),
        ),
    }
}

/// The two values of an entry are not empty and lie within the buffer.
pub proof fn lemma_next_entry_bounds(data: Seq<u8>)
    ensures
        next_entry(data) matches Some((k, v)) ==> 1 <= k && 1 <= v && k + v <= data.len(),
{
    lemma_span_bounds(data, 0);
    if let Some(k) = span(data, 0) {
        lemma_span_bounds(data.skip(k), 0);
    }
}

#[via_fn]
proof fn dict_entries_shortens(data: Seq<u8>) {
    lemma_next_entry_bounds(data);
}

/// The entries of a dictionary that have not been handed out yet.
pub struct DictIterator<'a> {
    /// The bytes after the entries handed out so far.
    pub data: &'a [u8],
}

impl<'a> DictIterator<'a> {
    /// An iterator over the entries of the dictionary that `data` holds. The
    /// opening marker is skipped, not tested.
    pub fn new(data: &'a [u8]) -> (r: Self)
        ensures
            r.data@ == after_marker(data@),
    {
        DictIterator { data: skip_marker(data) }
    }

    /// Cuts the next entry out of the dictionary and returns one cursor over
    /// its key and one over its value. Returns `None`, and stays where it is,
    /// at the end of the dictionary or where no two complete values follow.
    pub fn next(&mut self) -> (r: Option<(BEncoded<'a>, BEncoded<'a>)>)
        ensures
            match r {
                Some((key, value)) => next_entry(old(self).data@) matches Some((k, v)) && 1 <= k
                    && 1 <= v && k + v <= old(self).data@.len() && key.data@ == old(
                    self,
                ).data@.take(k) && key.depth == 0 && value.data@ == old(self).data@.subrange(
                    k,
                    k + v,
                ) && value.depth == 0 && final(self).data@ == old(self).data@.skip(k + v)
                    && dict_entries(old(self).data@) == seq![(key.data@, value.data@)]
                    + dict_entries(final(self).data@),
                None => next_entry(old(self).data@) is None && dict_entries(
                    old(self).data@,
                ).len() == 0 && *final(self) == *old(self),
            },
    {
        if self.data.len() < 1 || self.data[0] == BYTE_E {
            return None;
        }
        proof {
            lemma_next_entry_bounds(self.data@);
        }
        match BEncoded::new(self.data).this_and_rest() {
            None => None,
            Some((key, rest)) => {
                match BEncoded::new(rest).this_and_rest() {
                    None => None,
                    Some((value, rest)) => {
                        proof {
                            let k = key.data@.len() as int;
                            let v = value.data@.len() as int;
                            assert(self.data@.skip(k).take(v) == self.data@.subrange(k, k + v));
                            assert(self.data@.skip(k).skip(v) == self.data@.skip(k + v));
                        }
                        self.data = rest;
                        Some((key, value))
                    },
                }
            },
        }
    }
}

} // verus!

//! Walking the elements of a list, one isolated value at a time.

use vstd::prelude::*;
use vstd::slice::slice_subrange;
use crate::bencoded::{lemma_span_bounds, BEncoded, span};
use crate::parse::BYTE_E;

verus! {

/// What follows the first byte of `data`: the inside of a list or dictionary
/// when that byte is its opening marker. Empty where `data` is empty.
pub open spec fn after_marker(data: Seq<u8>) -> Seq<u8> {
    if data.len() >= 1 {
        data.skip(1)
    } else {
        Seq::empty()
    }
}

/// `data` holds no further element: it is used up, or the closing marker
/// comes next.
pub open spec fn at_end(data: Seq<u8>) -> bool {
    data.len() == 0 || data[0] == BYTE_E
}

/// The length of the value that `data` starts with, where one can be cut out
/// before the end of the container.
pub open spec fn next_item(data: Seq<u8>) -> Option<int> {
    if at_end(data) {
        None
    } else {
        span(data, 0)
    }
}

/// The elements that an iterator over `data` hands out, each as the bytes of
/// one value, in order.
pub open spec fn list_items(data: Seq<u8>) -> Seq<Seq<u8>>
    decreases data.len(),
    via list_items_shortens
{
    match next_item(data) {
        None => Seq::empty(),
        Some(n) => seq![data.take(n)] + list_items(data.skip(n)),
    }
}

#[via_fn]
proof fn list_items_shortens(data: Seq<u8>) {
    lemma_span_bounds(data, 0);
}

/// Skips the first byte of `data`, or returns `data` where it is empty.
pub(crate) fn skip_marker<'a>(data: &'a [u8]) -> (r: &'a [u8])
    ensures
        r@ == after_marker(data@),
{
    if data.len() >= 1 {
        slice_subrange(data, 1, data.len())
    } else {
        data
    }
}

/// The elements of a list that have not been handed out yet.
pub struct ListIterator<'a> {
    /// The bytes after the elements handed out so far.
    pub data: &'a [u8],
}

impl<'a> ListIterator<'a> {
    /// An iterator over the elements of the list that `data` holds. The
    /// opening marker is skipped, not tested.
    pub fn new(data: &'a [u8]) -> (r: Self)
        ensures
            r.data@ == after_marker(data@),
    {
        ListIterator { data: skip_marker(data) }
    }

    /// Cuts the next element out of the list and returns a cursor over it.
    /// Returns `None`, and stays where it is, at the end of the list or where
    /// no complete value follows.
    pub fn next(&mut self) -> (r: Option<BEncoded<'a>>)
        ensures
            match r {
                Some(elem) => next_item(old(self).data@) matches Some(n) && 1 <= n <= old(
                    self,
                ).data@.len() && elem.data@ == old(self).data@.take(n) && elem.depth == 0
                    && final(self).data@ == old(self).data@.skip(n) && list_items(old(self).data@)
                    == seq![elem.data@] + list_items(final(self).data@),
                None => next_item(old(self).data@) is None && list_items(old(self).data@).len()
                    == 0 && *final(self) == *old(self),
            },
    {
        if self.data.len() < 1 || self.data[0] == BYTE_E {
            return None;
        }
        proof {
            lemma_span_bounds(self.data@, 0);
        }
        match BEncoded::new(self.data).this_and_rest() {
            None => None,
            Some((elem, rest)) => {
                self.data = rest;
                Some(elem)
            },
        }
    }
}

} // verus!

//! How the flat token stream and the cut-out elements of a container agree.
//!
//! A cursor that walks through a list in place, and the iterator that cuts
//! one element after another out of it, read the same bytes: the elements lie
//! side by side between the opening marker and the closing one.

use vstd::prelude::*;
use crate::bencoded::{lemma_span_bounds, lemma_step_bounds, span, step};
use crate::dict::{dict_entries, next_entry};
use crate::list::{after_marker, at_end, list_items};
use crate::parse::BYTE_E;
use crate::traverse::{starts_dict, starts_list};

verus! {

/// A cursor `inner` levels deep inside a value that itself lies `outer`
/// levels deep reads that value to its end exactly as a cursor does that
/// takes the value for a top-level one, and then goes on at depth `outer`.
pub proof fn lemma_inner_span(data: Seq<u8>, inner: int, outer: int)
    requires
        inner >= 1,
        outer >= 1,
        span(data, outer + inner) is Some,
    ensures
        span(data, inner) matches Some(n) && 1 <= n <= data.len() && (span(data.skip(n), outer)
            matches Some(more) && span(data, outer + inner) == Some(n + more)),
    decreases data.len(),
{
    lemma_step_bounds(data, outer + inner);
    lemma_step_bounds(data, inner);
    let (token, used, _) = step(data, outer + inner).unwrap();
    let rest = data.skip(used);
    if token.opens() {
        lemma_inner_span(rest, inner + 1, outer);
        let n = span(rest, inner + 1).unwrap();
        assert(rest.skip(n) == data.skip(used + n));
    } else if token.closes() {
        if inner > 1 {
            lemma_inner_span(rest, inner - 1, outer);
            let n = span(rest, inner - 1).unwrap();
            assert(rest.skip(n) == data.skip(used + n));
        } else {
            assert(span(rest, -1) == Some(0int));
        }
    } else {
        lemma_inner_span(rest, inner, outer);
        let n = span(rest, inner).unwrap();
        assert(rest.skip(n) == data.skip(used + n));
    }
}

/// A cursor inside a container that comes upon a value reads it exactly as
/// a fresh cursor over the same bytes does, and then goes on at its depth.
pub proof fn lemma_value_span(data: Seq<u8>, outer: int)
    requires
        outer >= 1,
        !at_end(data),
        span(data, outer) is Some,
    ensures
        span(data, 0) matches Some(n) && 1 <= n <= data.len() && (span(data.skip(n), outer)
            matches Some(more) && span(data, outer) == Some(n + more)),
{
    lemma_step_bounds(data, outer);
    let (token, used, _) = step(data, outer).unwrap();
    let rest = data.skip(used);
    if token.opens() {
        lemma_inner_span(rest, 1, outer);
        let n = span(rest, 1).unwrap();
        assert(rest.skip(n) == data.skip(used + n));
    } else {
        assert(!token.closes());
        assert(span(rest, -1) == Some(0int));
    }
}

/// What stands between the markers of a list is its elements, side by side,
/// and the closing marker follows the last of them.
pub proof fn lemma_list_body(body: Seq<u8>)
    requires
        span(body, 1) is Some,
    ensures
        body.take(span(body, 1).unwrap()) == list_items(body).flatten() + seq![BYTE_E],
    decreases body.len(),
{
    lemma_span_bounds(body, 1);
    let m = span(body, 1).unwrap();
    if at_end(body) {
        assert(span(body.skip(1), -1) == Some(0int));
        assert(body.take(m) =~= list_items(body).flatten() + seq![BYTE_E]);
    } else {
        lemma_value_span(body, 1);
        let n = span(body, 0).unwrap();
        let rest = body.skip(n);
        lemma_span_bounds(rest, 1);
        lemma_list_body(rest);
        let items = list_items(body);
        assert(items.first() == body.take(n));
        assert(items.drop_first() =~= list_items(rest));
        assert(body.take(m) =~= body.take(n) + rest.take(m - n));
        assert(body.take(m) =~= items.flatten() + seq![BYTE_E]);
    }
}

/// The values of a container taken two by two: each key with the value that
/// follows it. A last value without a partner is left out.
pub open spec fn in_pairs(items: Seq<Seq<u8>>) -> Seq<(Seq<u8>, Seq<u8>)>
    decreases items.len(),
{
    if items.len() < 2 {
        Seq::empty()
    } else {
        seq![(items[0], items[1])] + in_pairs(items.skip(2))
    }
}

/// Between the markers of a container that holds an even number of values,
/// the entries are those values taken two by two.
pub proof fn lemma_dict_body(body: Seq<u8>)
    requires
        span(body, 1) is Some,
        list_items(body).len() % 2 == 0,
    ensures
        dict_entries(body) == in_pairs(list_items(body)),
    decreases body.len(),
{
    if at_end(body) {
        assert(dict_entries(body) =~= in_pairs(list_items(body)));
    } else {
        lemma_value_span(body, 1);
        let k = span(body, 0).unwrap();
        let after_key = body.skip(k);
        let items = list_items(body);
        assert(items.drop_first() =~= list_items(after_key));
        lemma_value_span(after_key, 1);
        let v = span(after_key, 0).unwrap();
        let rest = body.skip(k + v);
        assert(after_key.skip(v) == rest);
        assert(after_key.take(v) == body.subrange(k, k + v));
        assert(list_items(after_key).drop_first() =~= list_items(rest));
        assert(items.skip(2) =~= list_items(rest));
        lemma_dict_body(rest);
        assert(next_entry(body) == Some((k, v)));
        assert(dict_entries(body) =~= in_pairs(items));
    }
}

/// A complete list or dictionary is its opening marker, the values it holds
/// side by side, and its closing marker: the list iterator hands out every
/// byte between the markers, each once, and in order.
pub proof fn law_container_is_its_elements(data: Seq<u8>)
    requires
        starts_list(data) || starts_dict(data),
        span(data, 0) is Some,
    ensures
        0 <= span(data, 0).unwrap() <= data.len(),
        data.take(span(data, 0).unwrap()) == seq![data[0]] + list_items(
            after_marker(data),
        ).flatten() + seq![BYTE_E],
{
    lemma_span_bounds(data, 0);
    let body = after_marker(data);
    lemma_list_body(body);
    let total = span(data, 0).unwrap();
    assert(data.take(total) =~= seq![data[0]] + body.take(total - 1));
}

/// The entries of a complete dictionary with a value for each key are the
/// values it holds, taken two by two: the dictionary iterator and the list
/// iterator cut the same bytes.
pub proof fn law_dict_entries_pair_the_elements(data: Seq<u8>)
    requires
        starts_dict(data),
        span(data, 0) is Some,
        list_items(after_marker(data)).len() % 2 == 0,
    ensures
        dict_entries(after_marker(data)) == in_pairs(list_items(after_marker(data))),
{
    lemma_span_bounds(data, 0);
    lemma_dict_body(after_marker(data));
}

} // verus!

//! The cursor: a view of a buffer that yields the tokens of one value.

use vstd::prelude::*;
use crate::parse::{agree, lemma_scan_bounds, lemma_scan_local, parse_token, scan};
use crate::token::{Token, TokenView};

verus! {

/// The depth a cursor is given once its one value is complete.
pub const FINISHED: i16 = -1;

/// The deepest nesting a cursor follows.
pub const MAX_DEPTH: i16 = 32767;

/// A cursor over bencoded data.
///
/// It produces the tokens of exactly one top-level value of `data` and
/// ignores whatever follows that value.
#[derive(Clone, Copy)]
pub struct BEncoded<'a> {
    /// The bytes not read yet. Each token narrows this view.
    pub data: &'a [u8],
    /// How many compound values are open. Negative once the one top-level
    /// value is complete; such a cursor yields nothing more.
    pub depth: i16,
}

/// The depth of a cursor that stood at `depth` and has just produced `token`.
/// A cursor that comes back to depth 0 has completed its value and is
/// finished.
pub open spec fn depth_after(depth: int, token: TokenView) -> int {
    let moved = if token.opens() {
        depth + 1
    } else if token.closes() {
        depth - 1
    } else {
        depth
    };
    if moved == 0 {
        FINISHED as int
    } else {
        moved
    }
}

/// One step of a cursor at `depth` over `data`: the token it produces, the
/// number of bytes the token takes up and the depth afterwards. `None` where
/// the cursor produces nothing: it is finished, `data` starts with no token,
/// or the token would open a value nested deeper than `MAX_DEPTH`.
pub open spec fn step(data: Seq<u8>, depth: int) -> Option<(TokenView, int, int)> {
    if depth < 0 {
        None
    } else {
        match scan(data) {
            None => None,
            Some((token, used)) => if token.opens() && depth >= MAX_DEPTH {
                None
            } else {
                Some((token, used, depth_after(depth, token)))
            },
        }
    }
}

/// All the tokens that a cursor at `depth` over `data` produces, in order.
pub open spec fn tokens(data: Seq<u8>, depth: int) -> Seq<TokenView>
    decreases data.len(),
    via tokens_shortens
{
    match step(data, depth) {
        None => Seq::empty(),
        Some((token, used, next)) => seq![token] + tokens(data.skip(used), next),
    }
}

#[via_fn]
proof fn tokens_shortens(data: Seq<u8>, depth: int) {
    lemma_scan_bounds(data);
}

/// The number of bytes that a cursor at `depth` over `data` reads until it is
/// finished, or `None` where it stops producing tokens before that.
pub open spec fn span(data: Seq<u8>, depth: int) -> Option<int>
    decreases data.len(),
    via span_shortens
{
    if depth < 0 {
        Some(0)
    } else {
        match step(data, depth) {
            None => None,
            Some((_, used, next)) => match span(data.skip(used), next) {
                None => None,
                Some(more) => Some(used + more),
            },
        }
    }
}

#[via_fn]
proof fn span_shortens(data: Seq<u8>, depth: int) {
    lemma_scan_bounds(data);
}

/// A step takes up at least one byte and never more than the buffer holds.
pub proof fn lemma_step_bounds(data: Seq<u8>, depth: int)
    ensures
        step(data, depth) matches Some((_, used, _)) ==> 1 <= used <= data.len(),
{
    lemma_scan_bounds(data);
}

/// A span lies within the buffer, and is empty only for a finished cursor.
pub proof fn lemma_span_bounds(data: Seq<u8>, depth: int)
    ensures
        span(data, depth) matches Some(n) ==> 0 <= n <= data.len() && (depth >= 0 ==> n >= 1),
    decreases data.len(),
{
    if depth >= 0 {
        if let Some((_, used, next)) = step(data, depth) {
            lemma_step_bounds(data, depth);
            lemma_span_bounds(data.skip(used), next);
        }
    }
}

/// One step of a cursor depends on the bytes of its token alone.
pub proof fn lemma_step_local(a: Seq<u8>, b: Seq<u8>, depth: int)
    requires
        step(a, depth) is Some,
        agree(a, b, step(a, depth).unwrap().1),
    ensures
        step(b, depth) == step(a, depth),
{
    lemma_scan_local(a, b);
}

/// What a cursor reads until it is finished depends on those bytes alone: a
/// buffer that holds the same bytes there gives the same span and the same
/// tokens.
pub proof fn lemma_span_local(a: Seq<u8>, b: Seq<u8>, depth: int)
    requires
        span(a, depth) is Some,
        agree(a, b, span(a, depth).unwrap()),
    ensures
        span(b, depth) == span(a, depth),
        tokens(b, depth) == tokens(a, depth),
    decreases a.len(),
{
    if depth >= 0 {
        let (token, used, next) = step(a, depth).unwrap();
        lemma_step_bounds(a, depth);
        lemma_span_bounds(a.skip(used), next);
        lemma_step_local(a, b, depth);
        lemma_step_bounds(b, depth);
        let n = span(a, depth).unwrap();
        assert(agree(a.skip(used), b.skip(used), n - used)) by {
            assert forall|i: int| 0 <= i < n - used implies a.skip(used)[i] == b.skip(used)[i] by {
                assert(a[i + used] == b[i + used]);
            }
        }
        lemma_span_local(a.skip(used), b.skip(used), next);
    }
}

impl<'a> BEncoded<'a> {
    /// A cursor at the start of `data`.
    pub fn new(data: &'a [u8]) -> (r: Self)
        ensures
            r.data@ == data@,
            r.depth == 0,
    {
        BEncoded { data, depth: 0 }
    }

    /// A cursor over no data. It stands for a value that is absent: no
    /// accessor finds anything in it.
    pub fn empty() -> (r: BEncoded<'static>)
        ensures
            r.data@.len() == 0,
            r.depth == 0,
    {
        let nothing: &'static [u8] = &[];
        BEncoded { data: nothing, depth: 0 }
    }

    /// Produces the next token of the one value this cursor covers, and
    /// moves past it. Returns `None`, and leaves the cursor as it is, once
    /// the value is complete, where no token can be read, or where the token
    /// would open a value nested deeper than `MAX_DEPTH`.
    pub fn next(&mut self) -> (r: Option<Token<'a>>)
        ensures
            match r {
                Some(token) => step(old(self).data@, old(self).depth as int) matches Some(
                    (t, used, depth),
                ) && token@ == t && 1 <= used <= old(self).data@.len() && final(self).data@ == old(
                    self,
                ).data@.skip(used) && final(self).depth == depth && tokens(
                    old(self).data@,
                    old(self).depth as int,
                ) == seq![token@] + tokens(final(self).data@, final(self).depth as int),
                None => step(old(self).data@, old(self).depth as int) is None && tokens(
                    old(self).data@,
                    old(self).depth as int,
                ).len() == 0 && *final(self) == *old(self),
            },
    {
        if self.depth < 0 {
            return None;
        }
        match parse_token(self.data) {
            None => None,
            Some((token, rest)) => {
                let mut depth = self.depth;
                match token {
                    Token::ListStart | Token::DictStart => {
                        if depth == MAX_DEPTH {
                            return None;
                        }
                        depth += 1;
                    },
                    Token::End => {
                        depth -= 1;
                    },
                    _ => {},
                }
                if depth == 0 {
                    depth = FINISHED;
                }
                self.depth = depth;
                self.data = rest;
                Some(token)
            },
        }
    }
}

} // verus!

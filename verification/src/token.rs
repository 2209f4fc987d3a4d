//! The atomic units of a bencoded buffer.

use vstd::prelude::*;

verus! {

/// One decoded unit. The scalar variants borrow their payload from the buffer.
#[derive(Clone, Copy, Debug, PartialEq, Eq)]
pub enum Token<'a> {
    /// A length-prefixed string such as `4:spam`; holds the payload.
    ByteString(&'a [u8]),
    /// An integer such as `i-23e`; holds the raw text between `i` and `e`.
    Integer(&'a [u8]),
    /// `l`
    ListStart,
    /// `d`
    DictStart,
    /// `e`, which closes lists and dictionaries alike.
    End,
}

/// The mathematical value of a [`Token`]: payloads are sequences of bytes.
pub enum TokenView {
    ByteString(Seq<u8>),
    Integer(Seq<u8>),
    ListStart,
    DictStart,
    End,
}

impl<'a> View for Token<'a> {
    type V = TokenView;

    open spec fn view(&self) -> TokenView {
        match *self {
            Token::ByteString(s) => TokenView::ByteString(s@),
            Token::Integer(s) => TokenView::Integer(s@),
            Token::ListStart => TokenView::ListStart,
            Token::DictStart => TokenView::DictStart,
            Token::End => TokenView::End,
        }
    }
}

impl TokenView {
    /// `true` for the two markers that open a compound value.
    pub open spec fn opens(self) -> bool {
        self is ListStart || self is DictStart
    }

    /// `true` for the marker that closes a compound value.
    pub open spec fn closes(self) -> bool {
        self is End
    }
}

} // verus!

//! A lazy, zero-copy decoder for bencoded data.
//!
//! A buffer is never turned into a tree. A [`BEncoded`] cursor borrows the
//! caller's bytes and hands out [`Token`]s, isolated values and dictionary
//! entries that are all views into those same bytes.

pub mod token;
pub mod parse;
pub mod bencoded;
pub mod list;
pub mod dict;
pub mod integer;
pub mod traverse;
pub mod laws;
pub mod nesting;

pub use crate::bencoded::BEncoded;
pub use crate::parse::parse_token;
pub use crate::token::Token;
pub use crate::dict::DictIterator;
pub use crate::list::ListIterator;

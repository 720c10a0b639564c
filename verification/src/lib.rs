//! Word frequencies by enclosing tag, from a stream of markup tokens.
//!
//! A [`session::Session`] takes the tokens of a tokenizer one by one. Start and end
//! tags move the [`tracker::TagTracker`]; character data is cut into words by
//! [`text`] and counted in the [`table::WordTable`] under the tag that is current.
//! The table maps each normalized word to the tags it occurred under, each with the
//! number of occurrences.
//!
//! Tokenizing markup is not part of this crate: a caller turns what its tokenizer
//! produces into [`token::Token`] values.

pub mod assoc;
pub mod session;
pub mod table;
pub mod text;
pub mod token;
pub mod tracker;

//! The tokens that a markup tokenizer hands over, as far as counting reads them.

use vstd::prelude::*;

verus! {

/// An attribute of a start tag.
#[derive(Clone, Debug, PartialEq, Eq)]
pub struct Attribute {
    /// The attribute's name.
    pub name: String,
    /// The attribute's value.
    pub value: String,
}

/// One token of the stream.
#[derive(Clone, Debug, PartialEq, Eq)]
pub enum Token {
    /// A run of character data.
    Characters(String),
    /// A single null character in the character data.
    NullCharacter,
    /// A start tag. Its attributes and the self-closing flag are carried along and
    /// not read.
    StartTag { name: String, attributes: Vec<Attribute>, self_closing: bool },
    /// An end tag.
    EndTag { name: String },
    /// An error that the tokenizer reports; the message is not read.
    ParseError(String),
    /// Any other token: a comment, a doctype, the end of the input.
    Other,
}

} // verus!

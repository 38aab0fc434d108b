use vstd::prelude::*;

verus! {

/// The kind tag of a parse-tree node.
#[derive(Clone, Copy, Debug, PartialEq, Eq, Structural)]
pub enum Kind {
    Null,
    Boolean,
    Str,
    Identifier,
    Number,
    Array,
    Object,
    /// A run of unescaped characters inside a string.
    CharLiteral,
    /// A single-character escape such as `\n`; the text is the character after the backslash.
    CharEscape,
    /// The `\0` escape.
    NulEscape,
    /// A `\xHH` escape; the text is the hex digits.
    HexEscape,
    /// A `\uHHHH` escape; the text is the hex digits.
    UnicodeEscape,
}

/// One node of a parse tree: its kind, its source text and its children in order.
///
/// Strings and identifiers have string pieces as children; arrays have their
/// elements; objects have their keys and values, alternating.
#[derive(Debug)]
pub struct Node {
    pub kind: Kind,
    pub text: String,
    pub children: Vec<Node>,
}

/// Errors raised while decoding a well-formed parse tree.
#[derive(Clone, Copy, Debug, PartialEq, Eq, Structural)]
pub enum DecodeError {
    /// A scalar of a fixed width was requested of a node that is not a number.
    UnexpectedNodeKind,
    /// A hex or unicode escape does not name a Unicode scalar value.
    InvalidCodepoint,
    /// A variant was requested of a node that is neither a string nor a non-empty object.
    NotAnEnum,
    /// A tuple variant's payload is not an array.
    NotATuple,
    /// A struct variant's payload is not an object.
    NotAStruct,
    /// A payload was requested of a variant written without one.
    MissingPayload,
}

pub open spec fn is_piece_kind(k: Kind) -> bool {
    match k {
        Kind::CharLiteral | Kind::CharEscape | Kind::NulEscape | Kind::HexEscape
        | Kind::UnicodeEscape => true,
        _ => false,
    }
}

pub open spec fn is_key_kind(k: Kind) -> bool {
    k == Kind::Str || k == Kind::Identifier
}

pub open spec fn true_text() -> Seq<char> {
    seq!['t', 'r', 'u', 'e']
}

pub open spec fn false_text() -> Seq<char> {
    seq!['f', 'a', 'l', 's', 'e']
}

impl Node {
    pub fn new(kind: Kind, text: String, children: Vec<Node>) -> (r: Node)
        ensures
            r.kind == kind,
            r.text == text,
            r.children == children,
    {
        Node { kind, text, children }
    }
}

} // verus!

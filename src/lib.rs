//! Decoding of JSON5 parse trees into typed values.
//!
//! The parse tree ([`Node`]) comes from a grammar engine elsewhere. This library
//! walks it and turns each node into the shape a caller asks for: inferred from
//! the node's kind ([`decode_any`]), a number of some width ([`decode_number`]),
//! the elements of a sequence ([`SeqAccess`]), the members of a mapping
//! ([`MapAccess`]) or a tagged alternative ([`variant_access`]).
mod tree;
mod value;
mod scalar;
mod decode;
mod access;

pub use tree::{DecodeError, Kind, Node};
pub use value::{NumberLit, Value};
pub use scalar::{
    is_hex_literal, parse_bool, parse_char_escape_sequence, parse_hex, parse_number, parse_string,
};
pub use decode::{Shape, decode, decode_any, decode_number, is_well_formed};
pub use access::{MapAccess, SeqAccess, VariantAccess, variant_access};

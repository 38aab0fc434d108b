use vstd::prelude::*;
use vstd::string::{StrSliceExecFns, StringExecFns};
use crate::tree::{DecodeError, Kind, Node, is_piece_kind, true_text, false_text};
use crate::value::{Num, NumberLit, num_of};

verus! {

pub open spec fn is_hex_digit(c: char) -> bool {
    (48 <= c as u32 <= 57) || (97 <= c as u32 <= 102) || (65 <= c as u32 <= 70)
}

pub open spec fn digit_value(c: char) -> nat {
    if 48 <= c as u32 <= 57 {
        (c as u32 - 48) as nat
    } else if 97 <= c as u32 <= 102 {
        (c as u32 - 87) as nat
    } else {
        (c as u32 - 55) as nat
    }
}

/// Every character is a hex digit and there is at least one.
pub open spec fn all_hex(s: Seq<char>) -> bool {
    s.len() > 0 && forall|i: int| 0 <= i < s.len() ==> is_hex_digit(#[trigger] s[i])
}

/// The base-16 value of a sequence of hex digits, most significant first.
pub open spec fn hex_value(s: Seq<char>) -> nat
    decreases s.len(),
{
    if s.len() == 0 {
        0
    } else {
        hex_value(s.drop_last()) * 16 + digit_value(s.last())
    }
}

/// A hexadecimal number literal: `0x` or `0X` followed by at least one character.
pub open spec fn hex_literal(t: Seq<char>) -> bool {
    t.len() > 2 && t[0] == '0' && (t[1] == 'x' || t[1] == 'X')
}

pub open spec fn infinity_text() -> Seq<char> {
    seq!['I', 'n', 'f', 'i', 'n', 'i', 't', 'y']
}

pub open spec fn nan_text() -> Seq<char> {
    seq!['N', 'a', 'N']
}

/// What a number literal's text stands for, tried in this order: the named
/// special values, a hexadecimal literal, and otherwise a decimal text.
pub open spec fn number_model(t: Seq<char>) -> Num {
    if t == infinity_text() {
        Num::Infinity
    } else if t == seq!['-'] + infinity_text() {
        Num::NegInfinity
    } else if t == nan_text() || t == seq!['-'] + nan_text() {
        Num::NaN
    } else if hex_literal(t) {
        Num::Hex(hex_value(t.subrange(2, t.len() as int)))
    } else {
        Num::Decimal(t)
    }
}

/// The grammar's promise on a number's text: a hexadecimal literal has hex
/// digits after its prefix.
pub open spec fn number_text_ok(t: Seq<char>) -> bool {
    hex_literal(t) ==> all_hex(t.subrange(2, t.len() as int))
}

pub open spec fn is_scalar_value(v: nat) -> bool {
    v <= 0x10FFFF && !(0xD800 <= v <= 0xDFFF)
}

pub open spec fn char_of(v: nat) -> char {
    (v as u32) as char
}

/// The character that a single-character escape stands for.
pub open spec fn escape_char(c: char) -> char {
    if c == 'b' {
        '\u{0008}'
    } else if c == 'f' {
        '\u{000C}'
    } else if c == 'n' {
        '\n'
    } else if c == 'r' {
        '\r'
    } else if c == 't' {
        '\t'
    } else if c == 'v' {
        '\u{000B}'
    } else {
        c
    }
}

pub open spec fn escape_of(t: Seq<char>) -> Seq<char> {
    if t.len() == 1 {
        seq![escape_char(t[0])]
    } else {
        t
    }
}

/// What one piece of a string contributes, or `None` for an escape that names
/// no Unicode scalar value.
pub open spec fn piece_model(p: Node) -> Option<Seq<char>> {
    match p.kind {
        Kind::CharLiteral => Some(p.text@),
        Kind::CharEscape => Some(escape_of(p.text@)),
        Kind::NulEscape => Some(seq!['\0']),
        _ => {
            if all_hex(p.text@) && is_scalar_value(hex_value(p.text@)) {
                Some(seq![char_of(hex_value(p.text@))])
            } else {
                None
            }
        },
    }
}

/// The concatenation of the pieces' contributions, or `None` if one has none.
pub open spec fn string_model(ps: Seq<Node>) -> Option<Seq<char>>
    decreases ps.len(),
{
    if ps.len() == 0 {
        Some(Seq::empty())
    } else {
        match (string_model(ps.drop_last()), piece_model(ps.last())) {
            (Some(a), Some(b)) => Some(a + b),
            _ => None,
        }
    }
}

proof fn lemma_string_model_none(ps: Seq<Node>, j: int)
    requires
        0 <= j <= ps.len(),
        string_model(ps.subrange(0, j)) is None,
    ensures
        string_model(ps) is None,
    decreases ps.len(),
{
    if j < ps.len() {
        assert(ps.drop_last().subrange(0, j) == ps.subrange(0, j));
        lemma_string_model_none(ps.drop_last(), j);
    } else {
        assert(ps.subrange(0, j) == ps);
    }
}

proof fn lemma_hex_prefix_le(s: Seq<char>, j: int)
    requires
        0 <= j <= s.len(),
    ensures
        hex_value(s.subrange(0, j)) <= hex_value(s),
    decreases s.len(),
{
    if j < s.len() {
        assert(s.drop_last().subrange(0, j) == s.subrange(0, j));
        lemma_hex_prefix_le(s.drop_last(), j);
    } else {
        assert(s.subrange(0, j) == s);
    }
}

/// Relies on `String::push`: the character is appended at the end.
#[verifier::external_body]
fn push_char(s: &mut String, c: char)
    ensures
        final(s)@ == old(s)@.push(c),
{
    s.push(c);
}

/// Relies on `char::from_u32`: `Some` exactly for Unicode scalar values, holding
/// the character with that code point.
#[verifier::external_body]
fn char_from_u32(v: u32) -> (r: Option<char>)
    ensures
        r is Some <==> is_scalar_value(v as nat),
        r matches Some(c) ==> c as u32 == v,
{
    char::from_u32(v)
}

fn is_hex_digit_exec(c: char) -> (r: Option<u32>)
    ensures
        r is Some <==> is_hex_digit(c),
        r matches Some(d) ==> d as nat == digit_value(c),
{
    if '0' <= c && c <= '9' {
        Some(c as u32 - 48)
    } else if 'a' <= c && c <= 'f' {
        Some(c as u32 - 87)
    } else if 'A' <= c && c <= 'F' {
        Some(c as u32 - 55)
    } else {
        None
    }
}

/// Whether two strings hold the same characters.
pub(crate) fn same_chars(a: &str, b: &str) -> (r: bool)
    ensures
        r == (a@ == b@),
{
    let n = a.unicode_len();
    if n != b.unicode_len() {
        return false;
    }
    let mut i: usize = 0;
    while i < n
        invariant
            n == a@.len() == b@.len(),
            i <= n,
            a@.subrange(0, i as int) == b@.subrange(0, i as int),
        decreases n - i,
    {
        if a.get_char(i) != b.get_char(i) {
            return false;
        }
        assert(a@.subrange(0, i + 1) == a@.subrange(0, i as int).push(a@[i as int]));
        assert(b@.subrange(0, i + 1) == b@.subrange(0, i as int).push(b@[i as int]));
        i = i + 1;
    }
    assert(a@ == a@.subrange(0, n as int));
    assert(b@ == b@.subrange(0, n as int));
    true
}

/// Whether `s` is a non-empty run of hex digits.
pub fn all_hex_digits(s: &str) -> (r: bool)
    ensures
        r == all_hex(s@),
{
    let n = s.unicode_len();
    if n == 0 {
        return false;
    }
    let mut i: usize = 0;
    while i < n
        invariant
            n == s@.len(),
            i <= n,
            forall|k: int| 0 <= k < i ==> is_hex_digit(#[trigger] s@[k]),
        decreases n - i,
    {
        if is_hex_digit_exec(s.get_char(i)).is_none() {
            return false;
        }
        i = i + 1;
    }
    true
}

/// The base-16 value of `s`, or `None` where `s` is empty, holds a character
/// that is not a hex digit, or has a value beyond `u32::MAX`.
pub fn parse_hex(s: &str) -> (r: Option<u32>)
    ensures
        r == (if all_hex(s@) && hex_value(s@) <= u32::MAX {
            Some(hex_value(s@) as u32)
        } else {
            None
        }),
{
    let n = s.unicode_len();
    if n == 0 {
        return None;
    }
    let mut acc: u32 = 0;
    let mut i: usize = 0;
    while i < n
        invariant
            n == s@.len(),
            i <= n,
            forall|k: int| 0 <= k < i ==> is_hex_digit(#[trigger] s@[k]),
            acc as nat == hex_value(s@.subrange(0, i as int)),
        decreases n - i,
    {
        let c = s.get_char(i);
        let d = match is_hex_digit_exec(c) {
            Some(d) => d,
            None => {
                return None;
            },
        };
        proof {
            let p = s@.subrange(0, i + 1);
            assert(p.drop_last() == s@.subrange(0, i as int));
            assert(hex_value(p) == acc * 16 + d);
        }
        if acc > (u32::MAX - d) / 16 {
            proof {
                lemma_hex_prefix_le(s@, i + 1);
            }
            return None;
        }
        acc = acc * 16 + d;
        i = i + 1;
    }
    assert(s@.subrange(0, n as int) == s@);
    Some(acc)
}

/// Whether `s` is a hexadecimal literal: longer than two characters and
/// starting with `0x` or `0X`.
pub fn is_hex_literal(s: &str) -> (r: bool)
    ensures
        r == hex_literal(s@),
{
    if s.unicode_len() <= 2 {
        return false;
    }
    let c1 = s.get_char(1);
    s.get_char(0) == '0' && (c1 == 'x' || c1 == 'X')
}

/// Decodes a boolean node's text.
pub fn parse_bool(node: &Node) -> (r: bool)
    requires
        node.text@ == true_text() || node.text@ == false_text(),
    ensures
        r == (node.text@ == true_text()),
{
    node.text.as_str().get_char(0) == 't'
}

/// Decodes the character after the backslash of a single-character escape.
pub fn parse_char_escape_sequence(node: &Node) -> (r: String)
    ensures
        r@ == escape_of(node.text@),
{
    let s = node.text.as_str();
    if s.unicode_len() == 1 {
        let c = s.get_char(0);
        let m = if c == 'b' {
            '\u{0008}'
        } else if c == 'f' {
            '\u{000C}'
        } else if c == 'n' {
            '\n'
        } else if c == 'r' {
            '\r'
        } else if c == 't' {
            '\t'
        } else if c == 'v' {
            '\u{000B}'
        } else {
            c
        };
        let mut out = String::new();
        push_char(&mut out, m);
        out
    } else {
        node.text.clone()
    }
}

/// Classifies a number node's text; see [`number_model`].
pub fn parse_number(node: &Node) -> (r: NumberLit)
    requires
        number_text_ok(node.text@),
    ensures
        num_of(r) == number_model(node.text@),
{
    let s = node.text.as_str();
    proof {
        reveal_strlit("Infinity");
        reveal_strlit("-Infinity");
        reveal_strlit("NaN");
        reveal_strlit("-NaN");
        assert(infinity_text() =~= "Infinity"@);
        assert(nan_text() =~= "NaN"@);
        assert(seq!['-'] + infinity_text() =~= "-Infinity"@);
        assert(seq!['-'] + nan_text() =~= "-NaN"@);
    }
    if same_chars(s, "Infinity") {
        NumberLit::Infinity
    } else if same_chars(s, "-Infinity") {
        NumberLit::NegInfinity
    } else if same_chars(s, "NaN") || same_chars(s, "-NaN") {
        NumberLit::NaN
    } else if is_hex_literal(s) {
        let digits = s.substring_char(2, s.unicode_len());
        NumberLit::Hex(digits.to_owned())
    } else {
        NumberLit::Decimal(node.text.clone())
    }
}

/// Decodes a string or identifier node: the concatenation of what its pieces
/// stand for, or `InvalidCodepoint` where an escape names no Unicode scalar value.
pub fn parse_string(node: &Node) -> (r: Result<String, DecodeError>)
    requires
        forall|i: int| 0 <= i < node.children.len() ==> is_piece_kind(#[trigger] node.children@[i].kind),
    ensures
        match string_model(node.children@) {
            Some(s) => r matches Ok(v) && v@ == s,
            None => r == Err::<String, DecodeError>(DecodeError::InvalidCodepoint),
        },
{
    let ghost ps = node.children@;
    let mut out = String::new();
    let n = node.children.len();
    let mut i: usize = 0;
    while i < n
        invariant
            n == ps.len(),
            ps == node.children@,
            i <= n,
            string_model(ps.subrange(0, i as int)) == Some(out@),
        decreases n - i,
    {
        let p = &node.children[i];
        proof {
            assert(ps.subrange(0, i + 1).drop_last() == ps.subrange(0, i as int));
            assert(ps.subrange(0, i + 1).last() == *p);
        }
        match p.kind {
            Kind::CharLiteral => {
                out.append(p.text.as_str());
            },
            Kind::CharEscape => {
                let e = parse_char_escape_sequence(p);
                out.append(e.as_str());
            },
            Kind::NulEscape => {
                push_char(&mut out, '\0');
                assert(seq!['\0'] == seq![].push('\0'));
            },
            _ => {
                let c = match parse_hex(p.text.as_str()) {
                    Some(v) => char_from_u32(v),
                    None => None,
                };
                match c {
                    Some(c) => {
                        push_char(&mut out, c);
                        proof {
                            assert(c as u32 as nat == hex_value(p.text@));
                            vstd::utf8::char_u32_cast(c, c as u32);
                        }
                    },
                    None => {
                        proof {
                            lemma_string_model_none(ps, i + 1);
                        }
                        return Err(DecodeError::InvalidCodepoint);
                    },
                }
            },
        }
        i = i + 1;
    }
    assert(ps.subrange(0, n as int) == ps);
    Ok(out)
}

/// The six named escapes stand for their control characters; any other
/// single-character escape stands for that character.
pub proof fn escape_table(c: char)
    ensures
        escape_of(seq!['b']) == seq!['\u{0008}'],
        escape_of(seq!['f']) == seq!['\u{000C}'],
        escape_of(seq!['n']) == seq!['\u{000A}'],
        escape_of(seq!['r']) == seq!['\u{000D}'],
        escape_of(seq!['t']) == seq!['\u{0009}'],
        escape_of(seq!['v']) == seq!['\u{000B}'],
        !(c == 'b' || c == 'f' || c == 'n' || c == 'r' || c == 't' || c == 'v') ==> escape_of(
            seq![c],
        ) == seq![c],
{
}

/// A hex or unicode escape whose digits give the code point of `c` stands
/// for exactly `c`.
pub proof fn code_point_escape(p: Node, c: char)
    requires
        p.kind == Kind::HexEscape || p.kind == Kind::UnicodeEscape,
        all_hex(p.text@),
        c as u32 as nat == hex_value(p.text@),
    ensures
        piece_model(p) == Some(seq![c]),
{
    vstd::utf8::char_u32_cast(c, c as u32);
}

/// The texts of a sequence of nodes, joined in order.
pub open spec fn texts_of(ps: Seq<Node>) -> Seq<char>
    decreases ps.len(),
{
    if ps.len() == 0 {
        Seq::empty()
    } else {
        texts_of(ps.drop_last()) + ps.last().text@
    }
}

/// A string made only of unescaped runs decodes to their texts verbatim.
pub proof fn literal_runs_verbatim(ps: Seq<Node>)
    requires
        forall|i: int| 0 <= i < ps.len() ==> (#[trigger] ps[i]).kind == Kind::CharLiteral,
    ensures
        string_model(ps) == Some(texts_of(ps)),
    decreases ps.len(),
{
    if ps.len() > 0 {
        let q = ps.drop_last();
        assert forall|i: int| 0 <= i < q.len() implies (#[trigger] q[i]).kind == Kind::CharLiteral by {
            assert(q[i] == ps[i]);
        }
        literal_runs_verbatim(q);
        assert(ps.last() == ps[ps.len() - 1]);
    }
}

} // verus!

use vstd::prelude::*;
use vstd::string::StrSliceExecFns;
use crate::scalar::{
    all_hex_digits, is_hex_literal, number_model, number_text_ok, parse_bool, parse_number, parse_string,
    same_chars, string_model,
};
use crate::tree::{DecodeError, Kind, Node, false_text, is_key_kind, is_piece_kind, true_text};
use crate::value::{NumberLit, Val, Value, members_of, num_of, val_of, vals_of};

verus! {

/// What the grammar guarantees of a value node: booleans read `true` or
/// `false`, hexadecimal number literals have only hex digits after the prefix,
/// strings hold only string pieces, and objects alternate string keys with
/// values. Only value kinds are well formed.
pub open spec fn well_formed(n: Node) -> bool
    decreases n,
{
    match n.kind {
        Kind::Null => true,
        Kind::Boolean => n.text@ == true_text() || n.text@ == false_text(),
        Kind::Number => number_text_ok(n.text@),
        Kind::Str | Kind::Identifier => forall|i: int|
            0 <= i < n.children.len() ==> is_piece_kind(#[trigger] n.children@[i].kind),
        Kind::Array => all_well_formed(n.children@),
        Kind::Object => {
            &&& n.children.len() % 2 == 0
            &&& all_well_formed(n.children@)
            &&& forall|i: int|
                0 <= i < n.children.len() && i % 2 == 0 ==> is_key_kind(
                    #[trigger] n.children@[i].kind,
                )
        },
        _ => false,
    }
}

/// Every node of the sequence is well formed.
pub open spec fn all_well_formed(s: Seq<Node>) -> bool
    decreases s,
{
    s.len() == 0 || (all_well_formed(s.drop_last()) && well_formed(s.last()))
}

/// Pairs up a flat sequence of alternating keys and values.
pub open spec fn pairs_of(s: Seq<Val>) -> Seq<(Val, Val)> {
    Seq::new(s.len() / 2, |k: int| (s[2 * k], s[2 * k + 1]))
}

/// The value that inferred decoding gives a node, or `None` where a string
/// inside it holds an escape that names no Unicode scalar value.
pub open spec fn model(n: Node) -> Option<Val>
    decreases n,
{
    match n.kind {
        Kind::Null => Some(Val::Unit),
        Kind::Boolean => Some(Val::Bool(n.text@ == true_text())),
        Kind::Str | Kind::Identifier => match string_model(n.children@) {
            Some(s) => Some(Val::Str(s)),
            None => None,
        },
        Kind::Number => Some(Val::Number(number_model(n.text@))),
        Kind::Array => match list_model(n.children@) {
            Some(s) => Some(Val::List(s)),
            None => None,
        },
        Kind::Object => match list_model(n.children@) {
            Some(s) => Some(Val::Object(pairs_of(s))),
            None => None,
        },
        _ => None,
    }
}

/// The values of a sequence of nodes, or `None` if one of them has none.
pub open spec fn list_model(s: Seq<Node>) -> Option<Seq<Val>>
    decreases s,
{
    if s.len() == 0 {
        Some(Seq::empty())
    } else {
        match (list_model(s.drop_last()), model(s.last())) {
            (Some(a), Some(b)) => Some(a.push(b)),
            _ => None,
        }
    }
}

/// The shape a caller asks of a node.
#[derive(Clone, Copy, Debug, PartialEq, Eq, Structural)]
pub enum Shape {
    /// Whatever the node's kind gives; sequences, maps, structures and
    /// options are asked for this way too.
    Inferred,
    /// A number of some fixed width; narrowing it is left to the caller.
    Number,
}

/// What decoding a node as `shape` gives.
pub open spec fn shape_result(n: Node, shape: Shape) -> Result<Val, DecodeError> {
    match shape {
        Shape::Inferred => match model(n) {
            Some(v) => Ok(v),
            None => Err(DecodeError::InvalidCodepoint),
        },
        Shape::Number => if n.kind == Kind::Number {
            Ok(Val::Number(number_model(n.text@)))
        } else {
            Err(DecodeError::UnexpectedNodeKind)
        },
    }
}

/// A decode result agrees with its model: the same error, or a value whose
/// content is the modelled one.
pub open spec fn agrees(r: Result<Value, DecodeError>, m: Result<Val, DecodeError>) -> bool {
    match (r, m) {
        (Ok(x), Ok(v)) => val_of(x) == v,
        (Err(e), Err(f)) => e == f,
        _ => false,
    }
}

pub(crate) proof fn lemma_well_formed_at(s: Seq<Node>, j: int)
    requires
        all_well_formed(s),
        0 <= j < s.len(),
    ensures
        well_formed(s[j]),
    decreases s.len(),
{
    if j < s.len() - 1 {
        lemma_well_formed_at(s.drop_last(), j);
    }
}

proof fn lemma_list_model_none(s: Seq<Node>, j: int)
    requires
        0 <= j <= s.len(),
        list_model(s.subrange(0, j)) is None,
    ensures
        list_model(s) is None,
    decreases s.len(),
{
    if j < s.len() {
        assert(s.drop_last().subrange(0, j) == s.subrange(0, j));
        lemma_list_model_none(s.drop_last(), j);
    } else {
        assert(s.subrange(0, j) == s);
    }
}

/// Decodes a node with its shape inferred from its kind: null to unit, a
/// boolean to `Bool`, a string or identifier to `Str`, a number to `Number`,
/// an array to `List` and an object to `Object`, recursively.
pub fn decode_any(node: &Node) -> (r: Result<Value, DecodeError>)
    requires
        well_formed(*node),
    ensures
        agrees(r, shape_result(*node, Shape::Inferred)),
    decreases node,
{
    match node.kind {
        Kind::Null => Ok(Value::Unit),
        Kind::Boolean => Ok(Value::Bool(parse_bool(node))),
        Kind::Str | Kind::Identifier => match parse_string(node) {
            Ok(s) => Ok(Value::Str(s)),
            Err(e) => Err(e),
        },
        Kind::Number => Ok(Value::Number(parse_number(node))),
        Kind::Array => {
            let ghost cs = node.children@;
            let n = node.children.len();
            let mut items: Vec<Value> = Vec::new();
            let mut i: usize = 0;
            while i < n
                invariant
                    n == cs.len(),
                    cs == node.children@,
                    well_formed(*node),
                    node.kind == Kind::Array,
                    i <= n,
                    list_model(cs.subrange(0, i as int)) == Some(vals_of(items@)),
                decreases n - i,
            {
                proof {
                    assert(cs.subrange(0, i + 1).drop_last() == cs.subrange(0, i as int));
                    lemma_well_formed_at(cs, i as int);
                }
                match decode_any(&node.children[i]) {
                    Ok(v) => {
                        let ghost before = items@;
                        items.push(v);
                        assert(items@.drop_last() == before);
                    },
                    Err(e) => {
                        proof {
                            lemma_list_model_none(cs, i + 1);
                        }
                        return Err(e);
                    },
                }
                i = i + 1;
            }
            assert(cs.subrange(0, n as int) == cs);
            Ok(Value::List(items))
        },
        _ => {
            let ghost cs = node.children@;
            let n = node.children.len();
            let mut members: Vec<(Value, Value)> = Vec::new();
            let ghost mut flat: Seq<Val> = Seq::empty();
            let mut i: usize = 0;
            while i < n
                invariant
                    n == cs.len(),
                    cs == node.children@,
                    well_formed(*node),
                    node.kind == Kind::Object,
                    i <= n,
                    i % 2 == 0,
                    n % 2 == 0,
                    flat.len() == i,
                    list_model(cs.subrange(0, i as int)) == Some(flat),
                    members_of(members@) == pairs_of(flat),
                decreases n - i,
            {
                proof {
                    assert(cs.subrange(0, i + 1).drop_last() == cs.subrange(0, i as int));
                    assert(cs.subrange(0, i + 2).drop_last() == cs.subrange(0, i + 1));
                    lemma_well_formed_at(cs, i as int);
                    lemma_well_formed_at(cs, i + 1);
                }
                let k = match decode_any(&node.children[i]) {
                    Ok(k) => k,
                    Err(e) => {
                        proof {
                            lemma_list_model_none(cs, i + 1);
                        }
                        return Err(e);
                    },
                };
                let v = match decode_any(&node.children[i + 1]) {
                    Ok(v) => v,
                    Err(e) => {
                        proof {
                            lemma_list_model_none(cs, i + 2);
                        }
                        return Err(e);
                    },
                };
                let ghost before = members@;
                proof {
                    assert(list_model(cs.subrange(0, i + 1)) == Some(flat.push(val_of(k))));
                    assert(list_model(cs.subrange(0, i + 2)) == Some(
                        flat.push(val_of(k)).push(val_of(v)),
                    ));
                    let f2 = flat.push(val_of(k)).push(val_of(v));
                    assert(pairs_of(f2) =~= pairs_of(flat).push((val_of(k), val_of(v))));
                    flat = f2;
                }
                members.push((k, v));
                assert(members@.drop_last() == before);
                i = i + 2;
            }
            assert(cs.subrange(0, n as int) == cs);
            Ok(Value::Object(members))
        },
    }
}

/// Decodes a node as `shape`: inferred as by [`decode_any`], or as a number,
/// which fails with `UnexpectedNodeKind` on any other kind of node.
pub fn decode(node: &Node, shape: Shape) -> (r: Result<Value, DecodeError>)
    requires
        well_formed(*node),
    ensures
        agrees(r, shape_result(*node, shape)),
{
    match shape {
        Shape::Inferred => decode_any(node),
        Shape::Number => match decode_number(node) {
            Ok(n) => Ok(Value::Number(n)),
            Err(e) => Err(e),
        },
    }
}

/// Decodes a node asked for as a number of some fixed width.
pub fn decode_number(node: &Node) -> (r: Result<NumberLit, DecodeError>)
    requires
        well_formed(*node),
    ensures
        node.kind == Kind::Number ==> (r matches Ok(n) && num_of(n) == number_model(node.text@)),
        node.kind != Kind::Number ==> r == Err::<NumberLit, DecodeError>(
            DecodeError::UnexpectedNodeKind,
        ),
{
    if node.kind == Kind::Number {
        Ok(parse_number(node))
    } else {
        Err(DecodeError::UnexpectedNodeKind)
    }
}

/// Whether every node of `cs` is well formed; helper of [`is_well_formed`].
fn all_nodes_well_formed(cs: &Vec<Node>, keys: bool) -> (r: bool)
    ensures
        r == (all_well_formed(cs@) && (keys ==> forall|i: int|
            0 <= i < cs.len() && i % 2 == 0 ==> is_key_kind(#[trigger] cs@[i].kind))),
    decreases cs, 0nat,
{
    let n = cs.len();
    let mut i: usize = 0;
    while i < n
        invariant
            n == cs.len(),
            i <= n,
            all_well_formed(cs@.subrange(0, i as int)),
            keys ==> forall|k: int| 0 <= k < i && k % 2 == 0 ==> is_key_kind(#[trigger] cs@[k].kind),
        decreases n - i,
    {
        assert(cs@.subrange(0, i + 1).drop_last() == cs@.subrange(0, i as int));
        if !is_well_formed(&cs[i]) {
            proof {
                if all_well_formed(cs@) {
                    lemma_well_formed_at(cs@, i as int);
                }
            }
            return false;
        }
        if keys && i % 2 == 0 && !(cs[i].kind == Kind::Str || cs[i].kind == Kind::Identifier) {
            return false;
        }
        i = i + 1;
    }
    assert(cs@.subrange(0, n as int) == cs@);
    true
}

/// Whether a node keeps the grammar's guarantees; see [`well_formed`].
pub fn is_well_formed(node: &Node) -> (r: bool)
    ensures
        r == well_formed(*node),
    decreases node, 1nat,
{
    let s = node.text.as_str();
    match node.kind {
        Kind::Null => true,
        Kind::Boolean => {
            proof {
                reveal_strlit("true");
                reveal_strlit("false");
                assert(true_text() =~= "true"@);
                assert(false_text() =~= "false"@);
            }
            same_chars(s, "true") || same_chars(s, "false")
        },
        Kind::Number => {
            if is_hex_literal(s) {
                all_hex_digits(s.substring_char(2, s.unicode_len()))
            } else {
                true
            }
        },
        Kind::Str | Kind::Identifier => {
            let n = node.children.len();
            let mut i: usize = 0;
            while i < n
                invariant
                    n == node.children.len(),
                    node.kind == Kind::Str || node.kind == Kind::Identifier,
                    i <= n,
                    forall|k: int| 0 <= k < i ==> is_piece_kind(#[trigger] node.children@[k].kind),
                decreases n - i,
            {
                match node.children[i].kind {
                    Kind::CharLiteral | Kind::CharEscape | Kind::NulEscape | Kind::HexEscape
                    | Kind::UnicodeEscape => {},
                    _ => {
                        assert(!is_piece_kind(node.children@[i as int].kind));
                        return false;
                    },
                }
                i = i + 1;
            }
            true
        },
        Kind::Array => all_nodes_well_formed(&node.children, false),
        Kind::Object => node.children.len() % 2 == 0 && all_nodes_well_formed(&node.children, true),
        _ => false,
    }
}

/// Two trees with the same kinds, the same texts and the same shape, node
/// for node, as two parses of one text give.
pub open spec fn same_tree(a: Node, b: Node) -> bool
    decreases a,
{
    a.kind == b.kind && a.text@ == b.text@ && same_trees(a.children@, b.children@)
}

pub open spec fn same_trees(s: Seq<Node>, t: Seq<Node>) -> bool
    decreases s,
{
    s.len() == t.len() && (s.len() == 0 || (same_trees(s.drop_last(), t.drop_last()) && same_tree(
        s.last(),
        t.last(),
    )))
}

proof fn lemma_same_pieces(s: Seq<Node>, t: Seq<Node>)
    requires
        same_trees(s, t),
    ensures
        string_model(s) == string_model(t),
    decreases s.len(),
{
    if s.len() > 0 {
        lemma_same_pieces(s.drop_last(), t.drop_last());
        assert(same_tree(s.last(), t.last()));
        assert(s.last().kind == t.last().kind && s.last().text@ == t.last().text@);
    }
}

proof fn lemma_same_list(s: Seq<Node>, t: Seq<Node>)
    requires
        same_trees(s, t),
    ensures
        list_model(s) == list_model(t),
        all_well_formed(s) == all_well_formed(t),
    decreases s, 0nat,
{
    if s.len() > 0 {
        lemma_same_list(s.drop_last(), t.drop_last());
        lemma_same_tree(s.last(), t.last());
    }
}

proof fn lemma_same_keys(s: Seq<Node>, t: Seq<Node>, i: int)
    requires
        same_trees(s, t),
        0 <= i < s.len(),
    ensures
        s[i].kind == t[i].kind,
    decreases s.len(),
{
    if i < s.len() - 1 {
        lemma_same_keys(s.drop_last(), t.drop_last(), i);
        assert(s.drop_last()[i] == s[i] && t.drop_last()[i] == t[i]);
    } else {
        assert(same_tree(s.last(), t.last()));
    }
}

proof fn lemma_same_tree(a: Node, b: Node)
    requires
        same_tree(a, b),
    ensures
        model(a) == model(b),
        well_formed(a) == well_formed(b),
    decreases a, 1nat,
{
    lemma_same_pieces(a.children@, b.children@);
    lemma_same_list(a.children@, b.children@);
    assert forall|i: int| 0 <= i < a.children.len() implies a.children@[i].kind
        == b.children@[i].kind by {
        lemma_same_keys(a.children@, b.children@, i);
    }
}

/// Decoding is a function of the tree's content: two trees with the same
/// kinds, texts and shape, as two parses of one text give, are both well
/// formed or both not, and decode, in any shape, to the same result.
pub proof fn decode_is_deterministic(a: Node, b: Node, shape: Shape)
    requires
        same_tree(a, b),
    ensures
        well_formed(a) == well_formed(b),
        shape_result(a, shape) == shape_result(b, shape),
{
    lemma_same_tree(a, b);
}

/// Only the texts `true` and `false` are booleans, and they decode to the
/// matching value.
pub proof fn boolean_text_only(n: Node)
    requires
        well_formed(n),
        n.kind == Kind::Boolean,
    ensures
        n.text@ == true_text() || n.text@ == false_text(),
        model(n) == Some(Val::Bool(n.text@ == true_text())),
{
}

proof fn lemma_list_model_at(s: Seq<Node>)
    requires
        list_model(s) is Some,
    ensures
        list_model(s)->Some_0.len() == s.len(),
        forall|i: int| 0 <= i < s.len() ==> model(#[trigger] s[i]) == Some(list_model(s)->Some_0[i]),
    decreases s.len(),
{
    if s.len() > 0 {
        lemma_list_model_at(s.drop_last());
        let v = list_model(s)->Some_0;
        let w = list_model(s.drop_last())->Some_0;
        assert forall|i: int| 0 <= i < s.len() implies model(#[trigger] s[i]) == Some(v[i]) by {
            if i < s.len() - 1 {
                assert(s.drop_last()[i] == s[i]);
                assert(v[i] == w[i]);
            }
        }
    }
}

/// An array decodes to its elements' values, one for each element, in
/// source order and at any depth of nesting.
pub proof fn array_keeps_order(n: Node)
    requires
        n.kind == Kind::Array,
        model(n) is Some,
    ensures
        model(n) matches Some(Val::List(v)) && v.len() == n.children.len() && forall|i: int|
            0 <= i < v.len() ==> model(#[trigger] n.children@[i]) == Some(v[i]),
{
    lemma_list_model_at(n.children@);
}

/// An object decodes to its members in source order: the k-th pair holds the
/// values of the k-th key and of the node after it; duplicate keys are kept.
pub proof fn object_keeps_pairs(n: Node)
    requires
        well_formed(n),
        n.kind == Kind::Object,
        model(n) is Some,
    ensures
        model(n) matches Some(Val::Object(ps)) && 2 * ps.len() == n.children.len() && forall|
            k: int,
        |
            0 <= k < ps.len() ==> model(n.children@[2 * k]) == Some((#[trigger] ps[k]).0) && model(
                n.children@[2 * k + 1],
            ) == Some(ps[k].1),
{
    lemma_list_model_at(n.children@);
    let v = list_model(n.children@)->Some_0;
    let ps = pairs_of(v);
    assert forall|k: int| 0 <= k < ps.len() implies model(n.children@[2 * k]) == Some(
        (#[trigger] ps[k]).0,
    ) && model(n.children@[2 * k + 1]) == Some(ps[k].1) by {
        assert(model(n.children@[2 * k]) == Some(v[2 * k]));
        assert(model(n.children@[2 * k + 1]) == Some(v[2 * k + 1]));
    }
}

} // verus!

use json5_decode::{
    decode, decode_any, decode_number, is_hex_literal, is_well_formed, parse_bool,
    parse_char_escape_sequence, parse_hex, parse_number, parse_string, variant_access,
    DecodeError, Kind, MapAccess, Node, NumberLit, SeqAccess, Shape, Value,
};

fn hex_f64(digits: &str) -> f64 {
    digits.chars().fold(0.0, |acc, c| acc * 16.0 + c.to_digit(16).unwrap() as f64)
}

fn leaf(kind: Kind, text: &str) -> Node {
    Node::new(kind, text.to_string(), Vec::new())
}

fn string(pieces: Vec<Node>) -> Node {
    Node::new(Kind::Str, String::new(), pieces)
}

fn plain(text: &str) -> Node {
    string(vec![leaf(Kind::CharLiteral, text)])
}

fn escaped(c: &str) -> String {
    parse_string(&string(vec![leaf(Kind::CharEscape, c)])).unwrap()
}

#[test]
fn boolean_texts() {
    assert!(parse_bool(&leaf(Kind::Boolean, "true")));
    assert!(!parse_bool(&leaf(Kind::Boolean, "false")));
    assert!(!is_well_formed(&leaf(Kind::Boolean, "yes")));
    assert!(!is_well_formed(&leaf(Kind::Boolean, "True")));
    assert!(is_well_formed(&leaf(Kind::Boolean, "false")));
}

#[test]
fn escape_table() {
    assert_eq!(escaped("b"), "\u{0008}");
    assert_eq!(escaped("f"), "\u{000C}");
    assert_eq!(escaped("n"), "\n");
    assert_eq!(escaped("r"), "\r");
    assert_eq!(escaped("t"), "\t");
    assert_eq!(escaped("v"), "\u{000B}");
    assert_eq!(escaped("'"), "'");
    assert_eq!(escaped("q"), "q");
    assert_eq!(parse_char_escape_sequence(&leaf(Kind::CharEscape, "\\")), "\\");
}

#[test]
fn hex_and_unicode_escapes() {
    let s = string(vec![
        leaf(Kind::HexEscape, "41"),
        leaf(Kind::UnicodeEscape, "0042"),
        leaf(Kind::NulEscape, "0"),
        leaf(Kind::UnicodeEscape, "00e9"),
        leaf(Kind::CharLiteral, "xyz"),
    ]);
    assert_eq!(parse_string(&s), Ok(String::from("AB\u{0}\u{e9}xyz")));
}

#[test]
fn invalid_codepoint() {
    let s = string(vec![leaf(Kind::CharLiteral, "a"), leaf(Kind::UnicodeEscape, "D800")]);
    assert_eq!(parse_string(&s), Err(DecodeError::InvalidCodepoint));
    assert_eq!(decode_any(&s), Err(DecodeError::InvalidCodepoint));
    let inside = Node::new(Kind::Array, String::new(), vec![plain("ok"), s]);
    assert_eq!(decode_any(&inside), Err(DecodeError::InvalidCodepoint));
}

#[test]
fn verbatim_run() {
    assert_eq!(parse_string(&plain("it's \"fine\"")), Ok(String::from("it's \"fine\"")));
    assert_eq!(parse_string(&string(vec![])), Ok(String::new()));
}

#[test]
fn hex_digits() {
    assert_eq!(parse_hex("F"), Some(15));
    assert_eq!(parse_hex("00000F"), Some(15));
    assert_eq!(parse_hex("aB"), Some(171));
    assert_eq!(parse_hex("ffffffff"), Some(u32::MAX));
    assert_eq!(parse_hex("100000000"), None);
    assert_eq!(parse_hex(""), None);
    assert_eq!(parse_hex("1g"), None);
}

#[test]
fn hex_literal_forms() {
    assert!(is_hex_literal("0x1"));
    assert!(is_hex_literal("0XfF"));
    assert!(!is_hex_literal("0x"));
    assert!(!is_hex_literal("15"));
    assert!(!is_hex_literal("1x15"));
}

#[test]
fn number_forms() {
    assert_eq!(parse_number(&leaf(Kind::Number, "Infinity")), NumberLit::Infinity);
    assert_eq!(parse_number(&leaf(Kind::Number, "-Infinity")), NumberLit::NegInfinity);
    assert_eq!(parse_number(&leaf(Kind::Number, "NaN")), NumberLit::NaN);
    assert_eq!(parse_number(&leaf(Kind::Number, "-NaN")), NumberLit::NaN);
    assert_eq!(parse_number(&leaf(Kind::Number, "0x00000F")), NumberLit::Hex(String::from("00000F")));
    assert_eq!(
        parse_number(&leaf(Kind::Number, "-1.5e3")),
        NumberLit::Decimal(String::from("-1.5e3"))
    );
    assert!(!is_well_formed(&leaf(Kind::Number, "0x1G")));
}

#[test]
fn hex_equals_decimal() {
    let hex = decode_number(&leaf(Kind::Number, "0x00000F")).unwrap();
    let dec = decode_number(&leaf(Kind::Number, "15")).unwrap();
    let h = match hex {
        NumberLit::Hex(digits) => hex_f64(&digits),
        _ => panic!("not hex"),
    };
    let d: f64 = match dec {
        NumberLit::Decimal(s) => s.parse().unwrap(),
        _ => panic!("not decimal"),
    };
    assert_eq!(h, d);
}

#[test]
fn number_shape_on_other_kinds() {
    assert_eq!(decode_number(&plain("15")), Err(DecodeError::UnexpectedNodeKind));
    assert_eq!(decode(&leaf(Kind::Null, "null"), Shape::Number), Err(DecodeError::UnexpectedNodeKind));
    assert_eq!(
        decode(&leaf(Kind::Number, "2"), Shape::Number),
        Ok(Value::Number(NumberLit::Decimal(String::from("2"))))
    );
}

#[test]
fn inferred_object_keeps_order_and_duplicates() {
    let tree = Node::new(
        Kind::Object,
        String::new(),
        vec![plain("b"), leaf(Kind::Null, "null"), plain("a"), leaf(Kind::Boolean, "true"), plain("b"), leaf(Kind::Boolean, "false")],
    );
    assert_eq!(
        decode_any(&tree),
        Ok(Value::Object(vec![
            (Value::Str(String::from("b")), Value::Unit),
            (Value::Str(String::from("a")), Value::Bool(true)),
            (Value::Str(String::from("b")), Value::Bool(false)),
        ]))
    );
}

#[test]
fn map_key_failure_uses_up_member() {
    let tree = Node::new(
        Kind::Object,
        String::new(),
        vec![plain("a"), leaf(Kind::Number, "1"), plain("b"), leaf(Kind::Number, "2")],
    );
    let mut m = MapAccess::new(&tree);
    assert_eq!(m.next_key(Shape::Number), Err(DecodeError::UnexpectedNodeKind));
    assert_eq!(m.next_key(Shape::Inferred), Ok(Some(Value::Str(String::from("b")))));
    assert_eq!(m.next_value(Shape::Number), Ok(Value::Number(NumberLit::Decimal(String::from("2")))));
    assert_eq!(m.next_key(Shape::Inferred), Ok(None));
}

#[test]
fn empty_object_is_not_an_enum() {
    let empty = Node::new(Kind::Object, String::new(), vec![]);
    assert!(matches!(variant_access(&empty), Err(DecodeError::NotAnEnum)));
    assert!(matches!(variant_access(&leaf(Kind::Number, "1")), Err(DecodeError::NotAnEnum)));
    assert!(matches!(variant_access(&leaf(Kind::Null, "null")), Err(DecodeError::NotAnEnum)));
}

#[test]
fn variant_payload_errors() {
    let bare = plain("A");
    let (_, v) = variant_access(&bare).unwrap();
    assert_eq!(v.newtype_variant(Shape::Inferred), Err(DecodeError::MissingPayload));
    let (_, v) = variant_access(&bare).unwrap();
    assert!(matches!(v.tuple_variant(), Err(DecodeError::MissingPayload)));
    let (_, v) = variant_access(&bare).unwrap();
    assert!(matches!(v.struct_variant(), Err(DecodeError::MissingPayload)));

    let scalar = Node::new(Kind::Object, String::new(), vec![plain("C"), leaf(Kind::Number, "3")]);
    let (_, v) = variant_access(&scalar).unwrap();
    assert!(matches!(v.tuple_variant(), Err(DecodeError::NotATuple)));
    let (_, v) = variant_access(&scalar).unwrap();
    assert!(matches!(v.struct_variant(), Err(DecodeError::NotAStruct)));
}

#[test]
fn decoding_twice_gives_equal_values() {
    let build = || {
        Node::new(
            Kind::Array,
            String::new(),
            vec![plain("x"), leaf(Kind::Number, "0x10"), leaf(Kind::Boolean, "true")],
        )
    };
    let first = decode_any(&build());
    let second = decode_any(&build());
    assert_eq!(first, second);
    assert!(first.is_ok());
}

#[test]
fn malformed_trees_are_rejected() {
    let odd = Node::new(Kind::Object, String::new(), vec![plain("a")]);
    assert!(!is_well_formed(&odd));
    let bad_key = Node::new(Kind::Object, String::new(), vec![leaf(Kind::Number, "1"), leaf(Kind::Null, "null")]);
    assert!(!is_well_formed(&bad_key));
    let bad_piece = string(vec![leaf(Kind::Null, "null")]);
    assert!(!is_well_formed(&bad_piece));
    assert!(!is_well_formed(&leaf(Kind::CharLiteral, "x")));
}

#[test]
fn adapters_hand_out_nodes_in_order() {
    let arr = Node::new(Kind::Array, String::new(), vec![plain("x"), leaf(Kind::Number, "1")]);
    let mut items = SeqAccess::new(&arr);
    assert_eq!(items.next_node().unwrap().kind, Kind::Str);
    assert_eq!(items.next_node().unwrap().text, "1");
    assert!(items.next_node().is_none());

    let obj = Node::new(Kind::Object, String::new(), vec![plain("k"), leaf(Kind::Boolean, "true")]);
    let mut members = MapAccess::new(&obj);
    assert!(!members.is_pending());
    assert_eq!(members.next_key_node().unwrap().kind, Kind::Str);
    assert!(members.is_pending());
    assert_eq!(members.next_value_node().kind, Kind::Boolean);
    assert!(!members.is_pending());
    assert!(members.next_key_node().is_none());

    let tagged = Node::new(Kind::Object, String::new(), vec![plain("B"), leaf(Kind::Number, "2")]);
    let (tag, v) = variant_access(&tagged).unwrap();
    assert_eq!(tag, "B");
    assert_eq!(v.newtype_node().unwrap().text, "2");
    let bare = plain("A");
    let (_, v) = variant_access(&bare).unwrap();
    assert!(matches!(v.newtype_node(), Err(DecodeError::MissingPayload)));
}

#[test]
fn hex_literals_of_any_width() {
    let big = leaf(Kind::Number, "0x100000000");
    assert!(is_well_formed(&big));
    let n = decode_number(&big).unwrap();
    assert_eq!(n, NumberLit::Hex(String::from("100000000")));
    match n {
        NumberLit::Hex(d) => assert_eq!(hex_f64(&d), 4294967296.0),
        _ => panic!("not hex"),
    }
    let wide = leaf(Kind::Number, "0XFFFFFFFFFFFFFFFFFF");
    assert!(is_well_formed(&wide));
    assert_eq!(parse_number(&wide), NumberLit::Hex(String::from("FFFFFFFFFFFFFFFFFF")));
}

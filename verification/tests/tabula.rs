use imperium::tabula::{is_number_text, parse, ErrorKind, Kind, Node, Op, ParseError, ParseResult, Value};

fn parse_one(src: &str) -> Vec<Node> {
    let result = parse(src);
    assert!(result.is_ok(), "unexpected errors: {:?}", result.errors);
    result.roots
}

/// The number an atom reads as, as `f32::from_str` gives it.
fn number(value: &Value) -> f32 {
    if value.is_number {
        value.text.parse::<f32>().unwrap()
    } else {
        0.0
    }
}

/// The number of the first child with this key, if it is a numeric atom.
fn get_number(node: &Node, key: &str) -> Option<f32> {
    node.get_value(key).filter(|v| v.is_number).map(number)
}

#[test]
fn key_value_atoms() {
    let items = parse_one("a = 1\nname = brutus\ndate = 1444.11.11");
    assert_eq!(items.len(), 3);
    assert_eq!((items[0].key.as_str(), items[0].op, items[0].value.text.as_str()), ("a", Op::Eq, "1"));
    assert_eq!(items[1].value.text, "brutus");
    assert_eq!(items[2].value.text, "1444.11.11");
    assert!(items.iter().all(|n| n.kind == Kind::Atom));
}

#[test]
fn numbers() {
    let items = parse_one("a = 4800 b = -0.5 c = brutus d = \"12\" e = 1444.11.11");
    let value = |i: usize| &items[i].value;
    assert!(value(0).is_number && number(value(0)) == 4800.0);
    assert!(value(1).is_number && number(value(1)) == -0.5);
    assert!(!value(2).is_number);
    assert!(!value(3).is_number, "quoted numbers stay text");
    assert!(!value(4).is_number, "dates are not numbers");
    assert_eq!(value(4).text, "1444.11.11");
}

#[test]
fn value_display() {
    let items = parse_one("a = 4800 b = \"Ave, Roma\"");
    assert_eq!(items[0].value.to_string(), "4800");
    assert_eq!(format!("{:>10}", items[1].value.to_string()), " Ave, Roma");
}

#[test]
fn quoted_strings() {
    let items = parse_one(r#"title = "Ave, Roma" "bare string""#);
    assert_eq!((items[0].kind, items[0].value.text.as_str()), (Kind::Atom, "Ave, Roma"));
    assert_eq!(
        (items[1].key.as_str(), items[1].kind, items[1].value.text.as_str()),
        ("", Kind::Atom, "bare string")
    );
}

#[test]
fn nested_blocks_and_arrays() {
    let items = parse_one(
        "legion = { name = \"Legio I\" strength = 4800 cohorts = { 1 2 3 } camp = { site = rome } }",
    );
    let legion = &items[0];
    assert!(legion.is_block());
    assert_eq!(legion.get_text("name"), Some("Legio I"));
    assert_eq!(get_number(legion, "strength"), Some(4800.0));
    assert_eq!(get_number(legion, "name"), None, "text atom is not a number");

    let cohorts = legion.get("cohorts").unwrap();
    let vals: Vec<_> = cohorts.children.iter().map(|c| number(&c.value)).collect();
    assert_eq!(vals, [1.0, 2.0, 3.0]);
    assert!(cohorts.children.iter().all(|c| c.key.is_empty() && c.op == Op::Bare));

    assert_eq!(legion.get("camp").unwrap().get_text("site"), Some("rome"));
}

#[test]
fn duplicate_keys() {
    let items = parse_one("root = { option = { x = 1 } option = { x = 2 } }");
    let opts = items[0].get_all("option");
    assert_eq!(opts.len(), 2);
    assert_eq!(opts[1].get_text("x"), Some("2"));
}

#[test]
fn comparison_operators() {
    let items = parse_one("a > 1 b < 2 c >= 3 d <= 4 e != 5 f = 6");
    let ops: Vec<_> = items.iter().map(|n| n.op).collect();
    assert_eq!(ops, [Op::Gt, Op::Lt, Op::Ge, Op::Le, Op::Ne, Op::Eq]);
}

#[test]
fn comments_and_whitespace() {
    let items = parse_one("# header\na = 1 # trailing\n\n\t b = 2\n# eof comment");
    assert_eq!(items.len(), 2);
    assert_eq!(items[1].value.text, "2");
}

#[test]
fn anonymous_blocks_and_empty_block() {
    let items = parse_one("{ 1 2 } empty = { }");
    assert_eq!((items[0].key.as_str(), items[0].kind), ("", Kind::Block));
    assert_eq!(items[0].children.len(), 2);
    assert!(items[1].is_block() && items[1].children.is_empty());
}

#[test]
fn quoted_keys() {
    let items = parse_one(r#""my key" = value"#);
    assert_eq!((items[0].key.as_str(), items[0].value.text.as_str()), ("my key", "value"));
}

#[test]
fn empty_input() {
    assert!(parse_one("").is_empty());
    assert!(parse_one("  # just a comment").is_empty());
}

#[test]
fn tree_outlives_source() {
    let items = {
        let src = String::from("a = { b = \"hi\" }");
        parse_one(&src)
        // src dropped here; the tree must not borrow it
    };
    assert_eq!(items[0].get_text("b"), Some("hi"));
}

#[test]
fn zii_default_node() {
    let node = Node::default();
    assert_eq!(
        (node.key.as_str(), node.op, node.kind, node.value.text.as_str()),
        ("", Op::Bare, Kind::Atom, "")
    );
    assert!(!node.value.is_number);
    assert!(node.children.is_empty());
}

#[test]
fn zii_default_result() {
    let result = ParseResult::default();
    assert!(result.is_ok());
    assert!(result.roots.is_empty());
}

#[test]
fn errors() {
    let kind = |src: &str| parse(src).errors[0].kind;
    assert_eq!(kind("a = { b = 1"), ErrorKind::UnclosedBlock);
    assert_eq!(kind("a = \"oops"), ErrorKind::UnclosedString);
    assert_eq!(kind("} b = 1"), ErrorKind::UnexpectedCloseBrace);
    assert_eq!(kind("a = }"), ErrorKind::ExpectedValue);
    assert_eq!(kind("a ="), ErrorKind::ExpectedValue);
    assert_eq!(kind("= 1"), ErrorKind::UnexpectedChar);
    assert_eq!(kind("a ! b"), ErrorKind::UnexpectedChar);
}

#[test]
fn error_position() {
    let result = parse("a = 1\nb = \"unclosed");
    assert_eq!((result.errors[0].line, result.errors[0].kind), (2, ErrorKind::UnclosedString));
}

#[test]
fn recovery_keeps_parsing() {
    let result = parse("a = 1\n= oops\nb = 2");
    assert!(!result.is_ok());
    assert_eq!(result.errors[0].kind, ErrorKind::UnexpectedChar);
    // 'a = 1', bare 'oops', 'b = 2' — the bad '=' is skipped.
    let items = result.roots;
    assert_eq!(items.len(), 3);
    assert_eq!((items[0].key.as_str(), items[0].value.text.as_str()), ("a", "1"));
    assert_eq!((items[2].key.as_str(), items[2].value.text.as_str()), ("b", "2"));
}

#[test]
fn recovery_keeps_partial_block() {
    let result = parse("a = { b = 1"); // EOF inside block
    assert_eq!(
        result.errors,
        [ParseError {
            kind: ErrorKind::UnclosedBlock,
            offset: 11,
            line: 1,
            col: 12,
        }]
    );
    // The partial block is still in the tree.
    assert_eq!(result.roots[0].get_text("b"), Some("1"));
}

#[test]
fn junk_input_does_not_loop_or_panic() {
    for src in ["}}}}", "= = = =", "{{{", "a = = 1", "!!!", "\"", "{ } }"] {
        let result = parse(src);
        assert!(!result.is_ok(), "expected errors for {src:?}");
    }
}

#[test]
fn utf8_in_atoms() {
    let items = parse_one("città = \"Römisches Reich\" 皇帝 = 帝国");
    assert_eq!(items[0].key, "città");
    assert_eq!(items[0].value.text, "Römisches Reich");
    assert_eq!((items[1].key.as_str(), items[1].value.text.as_str()), ("皇帝", "帝国"));
}

#[test]
fn error_messages_read_line_column_and_kind() {
    let result = parse("a = 1\nb = \"unclosed");
    assert_eq!(result.errors[0].to_string(), "2:14: unclosed string");
    let stray = parse("} b = 1");
    assert_eq!(stray.errors[0].to_string(), "1:1: unexpected '}'");
}

#[test]
fn offsets_and_columns_count_bytes() {
    // 'à' is two bytes: the stray '}' sits at byte 7, column 8.
    let result = parse("città } ");
    assert_eq!(
        result.errors,
        [ParseError { kind: ErrorKind::UnexpectedCloseBrace, offset: 7, line: 1, col: 8 }]
    );
}

#[test]
fn number_spellings_follow_f32_parsing() {
    for text in ["1", "-2", "+3.5", ".5", "5.", "1e3", "1E-3", "inf", "-Infinity", "NaN", "4.8e3"] {
        let chars: Vec<char> = text.chars().collect();
        assert!(is_number_text(&chars), "{text} should read as a number");
        assert!(text.parse::<f32>().is_ok());
    }
    for text in ["", ".", "e3", "1e", "1.2.3", "1444.11.11", "brutus", "--1", "1e+", "infinit", "0x10"] {
        let chars: Vec<char> = text.chars().collect();
        assert!(!is_number_text(&chars), "{text} should not read as a number");
        assert!(text.parse::<f32>().is_err());
    }
}

#[test]
fn values_from_text_read_numbers_but_keep_spelling() {
    let v = Value::from_text("4.8e3");
    assert!(v.is_number);
    assert_eq!(v.to_string(), "4.8e3");
    assert!(!Value::from_text("Roma").is_number);
}

#[test]
fn blocks_past_the_depth_limit_are_errors() {
    let deep = "{".repeat(501);
    let result = parse(&deep);
    assert!(result.errors.iter().any(|e| e.kind == ErrorKind::TooDeep));
}

#[test]
fn error_count_stops_growing_near_the_cap() {
    let junk = "} ".repeat(500);
    let result = parse(&junk);
    assert_eq!(result.errors.len(), 100);
}

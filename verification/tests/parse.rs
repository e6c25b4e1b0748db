use stc::error::ParseError;
use stc::leaf::Leaf;
use stc::parse_stc;
use stc::value::Value;

fn s(text: &str) -> String {
    text.to_string()
}

fn path(segments: &[&str]) -> Vec<String> {
    segments.iter().map(|p| p.to_string()).collect()
}

fn object(entries: Vec<(&str, Value)>) -> Value {
    Value::Object(entries.into_iter().map(|(k, v)| (k.to_string(), v)).collect())
}

#[test]
fn empty_object_literal() {
    assert_eq!(parse_stc("{}"), Ok(Value::Object(vec![])));
}

#[test]
fn empty_object_literal_in_whitespace() {
    assert_eq!(parse_stc("  \n\t{}\n\n  "), Ok(Value::Object(vec![])));
    assert_eq!(parse_stc("\u{a0}{}\u{3000}"), Ok(Value::Object(vec![])));
}

#[test]
fn empty_object_literal_is_no_line() {
    assert_eq!(
        parse_stc("{}\na: 1"),
        Err(ParseError::MissingColon { line: 1, content: s("{}") })
    );
}

#[test]
fn empty_input_is_empty_object() {
    assert_eq!(parse_stc(""), Ok(Value::Object(vec![])));
    assert_eq!(parse_stc("\n  \n\t\n"), Ok(Value::Object(vec![])));
}

#[test]
fn end_to_end() {
    let got = parse_stc("name: 1\nlist.$0: 2\nlist.$1: 3\n");
    let want = object(vec![
        ("list", Value::Array(vec![Value::Int(2), Value::Int(3)])),
        ("name", Value::Int(1)),
    ]);
    assert_eq!(got, Ok(want));
}

#[test]
fn every_scalar_form() {
    let got = parse_stc("t: `true`\nf: `false`\nl: []\no: {}\ni: -42\nx: 2.5e3\n");
    let want = object(vec![
        ("f", Value::Bool(false)),
        ("i", Value::Int(-42)),
        ("l", Value::Array(vec![])),
        ("o", Value::Object(vec![])),
        ("t", Value::Bool(true)),
        ("x", Value::Float(s("2.5e3"))),
    ]);
    assert_eq!(got, Ok(want));
}

#[test]
fn whitespace_around_key_and_value() {
    let got = parse_stc("   a.b  :   7  \r\n\t c :\t`true`\t\r\n");
    let want = object(vec![("a", object(vec![("b", Value::Int(7))])), ("c", Value::Bool(true))]);
    assert_eq!(got, Ok(want));
}

#[test]
fn value_may_hold_a_colon() {
    assert_eq!(
        parse_stc("a: b: 1"),
        Err(ParseError::InvalidValue { line: 1, value: s("b: 1") })
    );
}

#[test]
fn nested_objects_and_lists() {
    let got = parse_stc("a.$1.x: 1\na.$0.$0: 2\na.$1.y: 3\nb.c.d: 4");
    let want = object(vec![
        (
            "a",
            Value::Array(vec![
                Value::Array(vec![Value::Int(2)]),
                object(vec![("x", Value::Int(1)), ("y", Value::Int(3))]),
            ]),
        ),
        ("b", object(vec![("c", object(vec![("d", Value::Int(4))]))])),
    ]);
    assert_eq!(got, Ok(want));
}

#[test]
fn root_may_be_a_list() {
    let got = parse_stc("$1: 2\n$0: 1");
    assert_eq!(got, Ok(Value::Array(vec![Value::Int(1), Value::Int(2)])));
}

#[test]
fn object_keys_are_sorted() {
    let got = parse_stc("b: 1\n_a: 2\nB: 3\na1: 4\na: 5\nab: 6");
    let want = object(vec![
        ("B", Value::Int(3)),
        ("_a", Value::Int(2)),
        ("a", Value::Int(5)),
        ("a1", Value::Int(4)),
        ("ab", Value::Int(6)),
        ("b", Value::Int(1)),
    ]);
    assert_eq!(got, Ok(want));
}

#[test]
fn missing_colon() {
    assert_eq!(
        parse_stc("a: 1\n\nno colon here \nb: 2"),
        Err(ParseError::MissingColon { line: 3, content: s("no colon here ") })
    );
}

#[test]
fn invalid_keys() {
    assert_eq!(parse_stc(": 1"), Err(ParseError::InvalidKey { line: 1, key: s("") }));
    assert_eq!(parse_stc("a..b: 1"), Err(ParseError::InvalidKey { line: 1, key: s("a..b") }));
    assert_eq!(parse_stc("\n.: 1"), Err(ParseError::InvalidKey { line: 2, key: s(".") }));
    assert_eq!(parse_stc("1a: 1"), Err(ParseError::InvalidKey { line: 1, key: s("1a") }));
    assert_eq!(parse_stc("a b: 1"), Err(ParseError::InvalidKey { line: 1, key: s("a b") }));
    assert_eq!(parse_stc("a.é: 1"), Err(ParseError::InvalidKey { line: 1, key: s("a.é") }));
}

#[test]
fn invalid_indices() {
    assert_eq!(parse_stc("a.$: 1"), Err(ParseError::InvalidIndex { line: 1, key: s("a.$") }));
    assert_eq!(parse_stc("a.$x: 1"), Err(ParseError::InvalidIndex { line: 1, key: s("a.$x") }));
    assert_eq!(parse_stc("a.$-1: 1"), Err(ParseError::InvalidIndex { line: 1, key: s("a.$-1") }));
    assert_eq!(parse_stc("$1$: 1"), Err(ParseError::InvalidIndex { line: 1, key: s("$1$") }));
}

#[test]
fn first_faulty_segment_decides() {
    assert_eq!(parse_stc("$x.1a: 1"), Err(ParseError::InvalidIndex { line: 1, key: s("$x.1a") }));
    assert_eq!(parse_stc("1a.$x: 1"), Err(ParseError::InvalidKey { line: 1, key: s("1a.$x") }));
}

#[test]
fn invalid_values() {
    assert_eq!(parse_stc("a: true"), Err(ParseError::InvalidValue { line: 1, value: s("true") }));
    assert_eq!(parse_stc("a:"), Err(ParseError::InvalidValue { line: 1, value: s("") }));
    assert_eq!(parse_stc("a: ``"), Err(ParseError::InvalidValue { line: 1, value: s("``") }));
    assert_eq!(parse_stc("a: \"x\""), Err(ParseError::InvalidValue { line: 1, value: s("\"x\"") }));
    assert_eq!(parse_stc("a: 1_000"), Err(ParseError::InvalidValue { line: 1, value: s("1_000") }));
}

#[test]
fn key_is_checked_before_value() {
    assert_eq!(parse_stc("1a: true"), Err(ParseError::InvalidKey { line: 1, key: s("1a") }));
}

#[test]
fn conflict_value_then_longer_key() {
    assert_eq!(
        parse_stc("a: 1\na.b: 2"),
        Err(ParseError::PrefixConflict { line: 2, path: path(&["a"]) })
    );
    assert_eq!(
        parse_stc("a.b: 1\n\na.b.c.d: 2"),
        Err(ParseError::PrefixConflict { line: 3, path: path(&["a", "b"]) })
    );
}

#[test]
fn conflict_longer_key_then_value() {
    assert_eq!(
        parse_stc("a.b: 2\na: 1"),
        Err(ParseError::PrefixConflict { line: 2, path: path(&["a"]) })
    );
}

#[test]
fn conflict_same_key_twice() {
    assert_eq!(
        parse_stc("a: 1\na: 1"),
        Err(ParseError::DuplicateValue {
            line: 2,
            path: path(&["a"]),
            existing: Leaf::Int(1),
            new: Leaf::Int(1),
        })
    );
    assert_eq!(
        parse_stc("x.y: `true`\nz: 0\nx.y: ```\nhi\n```"),
        Err(ParseError::DuplicateValue {
            line: 5,
            path: path(&["x", "y"]),
            existing: Leaf::Bool(true),
            new: Leaf::Str(s("hi")),
        })
    );
}

#[test]
fn empty_containers_are_values() {
    assert_eq!(
        parse_stc("a: {}\na.b: 1"),
        Err(ParseError::PrefixConflict { line: 2, path: path(&["a"]) })
    );
    assert_eq!(
        parse_stc("a: []\na.$0: 1"),
        Err(ParseError::PrefixConflict { line: 2, path: path(&["a"]) })
    );
}

#[test]
fn first_failing_line_decides() {
    assert_eq!(
        parse_stc("a: 1\na: 2\nbroken"),
        Err(ParseError::DuplicateValue {
            line: 2,
            path: path(&["a"]),
            existing: Leaf::Int(1),
            new: Leaf::Int(2),
        })
    );
    assert_eq!(
        parse_stc("a: 1\nbroken\na: 2"),
        Err(ParseError::MissingColon { line: 2, content: s("broken") })
    );
}

#[test]
fn mixed_list_and_object() {
    assert_eq!(
        parse_stc("a.$0: 1\na.x: 2"),
        Err(ParseError::MixedKeys { path: path(&["a"]) })
    );
    assert_eq!(parse_stc("x: 2\n$0: 1"), Err(ParseError::MixedKeys { path: path(&[]) }));
}

#[test]
fn gap_in_indices() {
    assert_eq!(
        parse_stc("a.$0: 1\na.$2: 2"),
        Err(ParseError::MissingIndices { path: path(&["a"]), count: 2 })
    );
    assert_eq!(
        parse_stc("a.b.$1: 1"),
        Err(ParseError::MissingIndices { path: path(&["a", "b"]), count: 1 })
    );
}

#[test]
fn indices_that_name_one_slot_twice() {
    assert_eq!(
        parse_stc("a.$0: 1\na.$00: 2"),
        Err(ParseError::MissingIndices { path: path(&["a"]), count: 2 })
    );
    assert_eq!(
        parse_stc("a.$0: 1\na.$00: 2\na.$2: 3"),
        Err(ParseError::MissingIndices { path: path(&["a"]), count: 3 })
    );
}

#[test]
fn indices_with_leading_zeros() {
    let got = parse_stc("a.$01: 1\na.$000: 0");
    assert_eq!(got, Ok(object(vec![("a", Value::Array(vec![Value::Int(0), Value::Int(1)]))])));
}

#[test]
fn index_too_large_for_the_machine() {
    assert_eq!(
        parse_stc("a.$99999999999999999999999999999999999999: 1"),
        Err(ParseError::MissingIndices { path: path(&["a"]), count: 1 })
    );
}

#[test]
fn container_is_checked_before_its_children() {
    assert_eq!(
        parse_stc("a.x.$1: 1\na.$0: 2"),
        Err(ParseError::MixedKeys { path: path(&["a"]) })
    );
}

#[test]
fn children_are_finalized_in_key_order() {
    assert_eq!(
        parse_stc("b.$1: 1\na.$1: 2"),
        Err(ParseError::MissingIndices { path: path(&["a"]), count: 1 })
    );
    assert_eq!(
        parse_stc("l.$2.$5: 1\nl.$10.$7: 1\nl.$0: 0\nl.$1: 0\nl.$3: 0\nl.$4: 0\nl.$5: 0\nl.$6: 0\nl.$7: 0\nl.$8: 0\nl.$9: 0"),
        Err(ParseError::MissingIndices { path: path(&["l", "$10"]), count: 1 })
    );
}

#[test]
fn string_block_keeps_its_lines() {
    let got = parse_stc("a: ```\nhello\nworld\n```");
    assert_eq!(got, Ok(object(vec![("a", Value::Str(s("hello\nworld")))])));
}

#[test]
fn string_block_lines_are_verbatim() {
    let got = parse_stc("a: ```\n  b: 1  \n\n`true`\n\t``` x\n```  \nc: 2");
    assert_eq!(
        got,
        Ok(object(vec![
            ("a", Value::Str(s("  b: 1  \n\n`true`\n\t``` x"))),
            ("c", Value::Int(2)),
        ]))
    );
}

#[test]
fn string_block_of_one_empty_line() {
    let got = parse_stc("a: ```\n\n```");
    assert_eq!(got, Ok(object(vec![("a", Value::Str(s("")))])));
}

#[test]
fn string_block_without_lines() {
    assert_eq!(parse_stc("a: ```\n```"), Err(ParseError::EmptyStringBlock { line: 2 }));
}

#[test]
fn fence_of_the_same_width_closes() {
    let got = parse_stc("a: ````\n```\n`````\n````\nb: 1");
    assert_eq!(
        got,
        Ok(object(vec![("a", Value::Str(s("```\n`````"))), ("b", Value::Int(1))]))
    );
}

#[test]
fn fence_with_leading_space_does_not_close() {
    assert_eq!(
        parse_stc("a: ```\nx\n ```\n"),
        Err(ParseError::UnclosedStringBlock { lines: 3 })
    );
}

#[test]
fn opening_fence_may_be_followed_by_text() {
    let got = parse_stc("a: ```text\nx\n```");
    assert_eq!(got, Ok(object(vec![("a", Value::Str(s("x")))])));
}

#[test]
fn unclosed_string_block() {
    assert_eq!(parse_stc("a: ```"), Err(ParseError::UnclosedStringBlock { lines: 1 }));
    assert_eq!(parse_stc("a: ```\nx\ny"), Err(ParseError::UnclosedStringBlock { lines: 3 }));
    assert_eq!(parse_stc("a: ```\nx\ny\n"), Err(ParseError::UnclosedStringBlock { lines: 3 }));
    assert_eq!(parse_stc("a: ```\nx\ny\n\n"), Err(ParseError::UnclosedStringBlock { lines: 4 }));
}

#[test]
fn string_block_with_carriage_returns() {
    let got = parse_stc("a: ```\r\nx\r\ny\r\n```\r\n");
    assert_eq!(got, Ok(object(vec![("a", Value::Str(s("x\r\ny\r")))])));
}

#[test]
fn string_block_with_wide_characters() {
    let got = parse_stc("a: ```\nça va ? 日本語\n```");
    assert_eq!(got, Ok(object(vec![("a", Value::Str(s("ça va ? 日本語")))])));
}

#[test]
fn integer_stays_integer() {
    assert_eq!(parse_stc("a: 3"), Ok(object(vec![("a", Value::Int(3))])));
}

#[test]
fn float_stays_float() {
    assert_eq!(parse_stc("a: 3.0"), Ok(object(vec![("a", Value::Float(s("3.0")))])));
}

#[test]
fn non_finite_floats_are_rejected() {
    assert_eq!(parse_stc("a: nan"), Err(ParseError::NonFiniteFloat { path: path(&["a"]) }));
    assert_eq!(parse_stc("a.b: -inf"), Err(ParseError::NonFiniteFloat { path: path(&["a", "b"]) }));
    assert_eq!(parse_stc("$0: +Infinity"), Err(ParseError::NonFiniteFloat { path: path(&["$0"]) }));
    assert_eq!(parse_stc("a: NaN"), Err(ParseError::NonFiniteFloat { path: path(&["a"]) }));
}

#[test]
fn non_finite_float_is_found_after_the_last_line() {
    assert_eq!(
        parse_stc("a: inf\nbroken"),
        Err(ParseError::MissingColon { line: 2, content: s("broken") })
    );
}

#[test]
fn any_order_of_lines_gives_the_same_value() {
    let lines = ["a.b: 1", "a.c.$0: `true`", "a.c.$1: []", "d: 2.5", "e.$0.f: {}"];
    let want = parse_stc(&lines.join("\n"));
    assert!(want.is_ok());
    let orders: [[usize; 5]; 5] =
        [[4, 3, 2, 1, 0], [1, 0, 3, 2, 4], [2, 4, 0, 3, 1], [3, 1, 4, 0, 2], [0, 2, 1, 4, 3]];
    for order in orders {
        let text: Vec<&str> = order.iter().map(|&i| lines[i]).collect();
        assert_eq!(parse_stc(&text.join("\n")), want);
    }
}

fn list_of_twelve() -> Value {
    object(vec![(
        "path",
        object(vec![("to", Value::Array((0..12).map(|i| Value::Int(i * 10)).collect()))]),
    )])
}

#[test]
fn list_items_land_at_their_indices() {
    let orders: [[i64; 12]; 3] = [
        [0, 1, 2, 3, 4, 5, 6, 7, 8, 9, 10, 11],
        [11, 10, 9, 8, 7, 6, 5, 4, 3, 2, 1, 0],
        [7, 2, 10, 0, 5, 11, 3, 8, 1, 9, 4, 6],
    ];
    for order in orders {
        let lines: Vec<String> =
            order.iter().map(|i| format!("path.to.${}: {}", i, i * 10)).collect();
        assert_eq!(parse_stc(&lines.join("\n")), Ok(list_of_twelve()));
    }
}

#[test]
fn list_of_one_item() {
    assert_eq!(parse_stc("a.$0: `true`"), Ok(object(vec![("a", Value::Array(vec![Value::Bool(true)]))])));
}

#[test]
fn value_is_canonical() {
    fn check(v: &Value) {
        match v {
            Value::Null => panic!("a null in a parsed value"),
            Value::Array(items) => items.iter().for_each(check),
            Value::Object(entries) => {
                for pair in entries.windows(2) {
                    assert!(pair[0].0 < pair[1].0);
                }
                entries.iter().for_each(|(_, v)| check(v));
            }
            Value::Float(text) => assert!(text.parse::<f64>().unwrap().is_finite()),
            _ => {}
        }
    }
    let text = "z.$2: 1\nz.$0.b: 2\nz.$0.a: 3.5\nz.$1: []\ny: {}\nA: `true`\n_: 1e308\nz.$0.B.$0: ```\nx\n```";
    check(&parse_stc(text).unwrap());
}

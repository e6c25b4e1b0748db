use stc::error::ParseError;
use stc::finalize::{finalize_map, finalize_node};
use stc::key::{is_identifier, parse_key};
use stc::leaf::Leaf;
use stc::literal::{parse_i64, parse_value, ParsedValue};
use stc::message::existing_short;
use stc::node::{fill_in_value, Node};
use stc::scan::{scan_line, ScanState};
use stc::text::{split, to_chars, to_string, trim};
use stc::value::Value;

fn strings(segments: &[&str]) -> Vec<String> {
    segments.iter().map(|p| p.to_string()).collect()
}

fn chars(text: &str) -> Vec<char> {
    text.chars().collect()
}

#[test]
fn chars_and_back() {
    assert_eq!(to_chars("a→b"), vec!['a', '→', 'b']);
    assert_eq!(to_string(&['a', '→', 'b']), "a→b");
    assert_eq!(to_string(&[]), "");
}

#[test]
fn trim_agrees_with_std() {
    let samples = [
        "",
        " ",
        "a",
        "  a b  ",
        "\t\r\n x \u{b}\u{c}",
        "\u{85}x\u{a0}",
        "\u{1680}\u{2000}\u{2001}\u{200a}x\u{2028}\u{2029}\u{202f}\u{205f}\u{3000}",
        "\u{200b}x\u{200b}",
        "\u{feff}x",
        "\u{1c}x\u{1f}",
    ];
    for sample in samples {
        let want: Vec<char> = sample.trim().chars().collect();
        assert_eq!(trim(&chars(sample)).to_vec(), want, "{:?}", sample);
    }
}

#[test]
fn split_agrees_with_std() {
    let samples = ["", "a", "\n", "a\nb", "a\n\nb\n", "\n\n", "a.b\nc"];
    for sample in samples {
        let want: Vec<Vec<char>> = sample.split('\n').map(|p| p.chars().collect()).collect();
        let text = chars(sample);
        let got: Vec<Vec<char>> = split(&text, '\n').iter().map(|p| p.to_vec()).collect();
        assert_eq!(got, want, "{:?}", sample);
    }
}

#[test]
fn identifiers() {
    for good in ["a", "_", "_1", "aB_9", "Z"] {
        assert!(is_identifier(&chars(good)), "{}", good);
    }
    for bad in ["", "1", "1a", "a-b", "a b", "$a", "é", "a."] {
        assert!(!is_identifier(&chars(bad)), "{}", bad);
    }
}

#[test]
fn key_paths() {
    assert_eq!(parse_key("a", 1), Ok(strings(&["a"])));
    assert_eq!(parse_key("a.$0.b_1.$12", 1), Ok(strings(&["a", "$0", "b_1", "$12"])));
    assert_eq!(parse_key("$007", 1), Ok(strings(&["$007"])));
    assert_eq!(parse_key("", 4), Err(ParseError::InvalidKey { line: 4, key: "".to_string() }));
    assert_eq!(parse_key("a.", 4), Err(ParseError::InvalidKey { line: 4, key: "a.".to_string() }));
    assert_eq!(parse_key("a b", 4), Err(ParseError::InvalidKey { line: 4, key: "a b".to_string() }));
    assert_eq!(parse_key("$", 5), Err(ParseError::InvalidIndex { line: 5, key: "$".to_string() }));
    assert_eq!(parse_key("$1a", 5), Err(ParseError::InvalidIndex { line: 5, key: "$1a".to_string() }));
    assert_eq!(parse_key("$+1", 5), Err(ParseError::InvalidIndex { line: 5, key: "$+1".to_string() }));
}

#[test]
fn integers_agree_with_std() {
    let samples = [
        "0",
        "-0",
        "+0",
        "7",
        "+7",
        "-7",
        "007",
        "9223372036854775807",
        "9223372036854775808",
        "-9223372036854775808",
        "-9223372036854775809",
        "+9223372036854775807",
        "18446744073709551616",
        "99999999999999999999999999",
        "00000000000000000000000009223372036854775807",
        "",
        "+",
        "-",
        "--1",
        "+-1",
        "1 ",
        " 1",
        "1.0",
        "1e3",
        "0x10",
        "١٢٣",
        "1_000",
    ];
    for sample in samples {
        assert_eq!(parse_i64(&chars(sample)), sample.parse::<i64>().ok(), "{:?}", sample);
    }
}

#[test]
fn numbers_agree_with_std() {
    let samples = [
        "0", "1", "-1", "+1", "1.", ".1", "1.5", "-1.5", "+1.5", "1e5", "1E5", "1e+5", "1e-5",
        "1.e5", ".5e5", "1.5E-10", "00.00", "1e", "1e+", "e5", ".", "+.", "-.e1", ".e1", "1..2",
        "1.2.3", "1e5e5", "1e5.5", "inf", "-inf", "+inf", "Inf", "INF", "infinity", "Infinity",
        "-INFINITY", "nan", "NaN", "-nan", "+NAN", "infinit", "infinityy", "in", "na", "nanx", "",
        "+", "-", "++1", "1f", "1d", "0x1p3", "1_0.0", " 1.0", "1.0 ", "9223372036854775808",
        "-9223372036854775809", "1,5", "١.٥", "1e٥", "+e", "ｅ", "1e-", "..", "5.e", "1E+05",
        "İnf", "ınf",
    ];
    for sample in samples {
        let want = if let Ok(n) = sample.parse::<i64>() {
            Some(Leaf::Int(n))
        } else if sample.parse::<f64>().is_ok() {
            Some(Leaf::Float(sample.to_string()))
        } else {
            None
        };
        let got = match parse_value(sample, 1) {
            Ok(ParsedValue::Immediate(leaf)) => Some(leaf),
            _ => None,
        };
        assert_eq!(got, want, "{:?}", sample);
    }
}

#[test]
fn value_forms() {
    assert_eq!(parse_value("`true`", 1), Ok(ParsedValue::Immediate(Leaf::Bool(true))));
    assert_eq!(parse_value("`false`", 1), Ok(ParsedValue::Immediate(Leaf::Bool(false))));
    assert_eq!(parse_value("[]", 1), Ok(ParsedValue::Immediate(Leaf::EmptyList)));
    assert_eq!(parse_value("{}", 1), Ok(ParsedValue::Immediate(Leaf::EmptyObject)));
    assert_eq!(parse_value("12", 1), Ok(ParsedValue::Immediate(Leaf::Int(12))));
    assert_eq!(
        parse_value("12.", 1),
        Ok(ParsedValue::Immediate(Leaf::Float("12.".to_string())))
    );
    assert_eq!(parse_value("```", 1), Ok(ParsedValue::StringStart { bt_count: 3 }));
    assert_eq!(parse_value("`````", 1), Ok(ParsedValue::StringStart { bt_count: 5 }));
    assert_eq!(parse_value("````x`", 1), Ok(ParsedValue::StringStart { bt_count: 4 }));
    for bad in ["", "`", "``", "`true", "true", "`TRUE`", "[ ]", "{ }", "x```", "` ``"] {
        assert_eq!(
            parse_value(bad, 9),
            Err(ParseError::InvalidValue { line: 9, value: bad.to_string() }),
            "{:?}",
            bad
        );
    }
}

#[test]
fn tree_grows_and_refuses() {
    let mut root = Node::new_map();
    assert_eq!(fill_in_value(&mut root, &strings(&["a", "b"]), Leaf::Int(1), 1), Ok(()));
    assert_eq!(fill_in_value(&mut root, &strings(&["a", "c"]), Leaf::Int(2), 2), Ok(()));
    assert_eq!(fill_in_value(&mut root, &strings(&["d"]), Leaf::EmptyList, 3), Ok(()));
    assert_eq!(
        fill_in_value(&mut root, &strings(&["a"]), Leaf::Int(3), 4),
        Err(ParseError::PrefixConflict { line: 4, path: strings(&["a"]) })
    );
    assert_eq!(
        fill_in_value(&mut root, &strings(&["a", "b", "c"]), Leaf::Int(3), 5),
        Err(ParseError::PrefixConflict { line: 5, path: strings(&["a", "b"]) })
    );
    assert_eq!(
        fill_in_value(&mut root, &strings(&["d", "x", "y"]), Leaf::Int(3), 6),
        Err(ParseError::PrefixConflict { line: 6, path: strings(&["d"]) })
    );
    assert_eq!(
        fill_in_value(&mut root, &strings(&["a", "c"]), Leaf::Bool(false), 7),
        Err(ParseError::DuplicateValue {
            line: 7,
            path: strings(&["a", "c"]),
            existing: Leaf::Int(2),
            new: Leaf::Bool(false),
        })
    );
    let want = Value::Object(vec![
        (
            "a".to_string(),
            Value::Object(vec![
                ("b".to_string(), Value::Int(1)),
                ("c".to_string(), Value::Int(2)),
            ]),
        ),
        ("d".to_string(), Value::Array(vec![])),
    ]);
    assert_eq!(finalize_node(root, &vec![]), Ok(want));
}

#[test]
fn refused_assignment_leaves_no_trace() {
    let mut root = Node::new_map();
    assert_eq!(fill_in_value(&mut root, &strings(&["a"]), Leaf::Int(1), 1), Ok(()));
    assert!(fill_in_value(&mut root, &strings(&["a", "b", "c"]), Leaf::Int(2), 2).is_err());
    assert!(fill_in_value(&mut root, &strings(&["a"]), Leaf::Int(2), 3).is_err());
    let want = Value::Object(vec![("a".to_string(), Value::Int(1))]);
    assert_eq!(finalize_node(root, &vec![]), Ok(want));
}

#[test]
fn finalize_names_the_place() {
    let entries = vec![
        ("$0".to_string(), Node::Leaf(Leaf::Int(1))),
        ("$3".to_string(), Node::Leaf(Leaf::Int(2))),
    ];
    assert_eq!(
        finalize_map(entries, &strings(&["x", "$4"])),
        Err(ParseError::MissingIndices { path: strings(&["x", "$4"]), count: 2 })
    );
    let node = Node::Container(vec![(
        "k".to_string(),
        Node::Container(vec![("$0".to_string(), Node::Leaf(Leaf::Float("-NaN".to_string())))]),
    )]);
    assert_eq!(
        finalize_node(node, &strings(&["x"])),
        Err(ParseError::NonFiniteFloat { path: strings(&["x", "k", "$0"]) })
    );
}

#[test]
fn finalize_leaves() {
    assert_eq!(finalize_node(Node::Leaf(Leaf::Bool(true)), &vec![]), Ok(Value::Bool(true)));
    assert_eq!(finalize_node(Node::Leaf(Leaf::Int(-5)), &vec![]), Ok(Value::Int(-5)));
    assert_eq!(
        finalize_node(Node::Leaf(Leaf::Float("1e3".to_string())), &vec![]),
        Ok(Value::Float("1e3".to_string()))
    );
    assert_eq!(
        finalize_node(Node::Leaf(Leaf::Str("x".to_string())), &vec![]),
        Ok(Value::Str("x".to_string()))
    );
    assert_eq!(finalize_node(Node::Leaf(Leaf::EmptyList), &vec![]), Ok(Value::Array(vec![])));
    assert_eq!(finalize_node(Node::Leaf(Leaf::EmptyObject), &vec![]), Ok(Value::Object(vec![])));
    assert_eq!(finalize_node(Node::new_map(), &vec![]), Ok(Value::Object(vec![])));
}

#[test]
fn scanner_steps() {
    let (state, made) = scan_line(ScanState::Normal, &chars("  "), 1).unwrap();
    assert!(matches!(state, ScanState::Normal));
    assert_eq!(made, None);

    let (state, made) = scan_line(ScanState::Normal, &chars(" a.b : 5 "), 2).unwrap();
    assert!(matches!(state, ScanState::Normal));
    assert_eq!(made, Some((strings(&["a", "b"]), Leaf::Int(5))));

    let (state, made) = scan_line(ScanState::Normal, &chars("k: ````"), 3).unwrap();
    assert_eq!(made, None);
    let (state, made) = scan_line(state, &chars("```"), 4).unwrap();
    assert_eq!(made, None);
    let (state, made) = scan_line(state, &chars(" x"), 5).unwrap();
    assert_eq!(made, None);
    match &state {
        ScanState::InStringBlock { fence_width, path, content } => {
            assert_eq!(*fence_width, 4);
            assert_eq!(*path, strings(&["k"]));
            assert_eq!(*content, chars("```\n x\n"));
        }
        ScanState::Normal => panic!("the block is still open"),
    }
    let (state, made) = scan_line(state, &chars("```` \t"), 6).unwrap();
    assert!(matches!(state, ScanState::Normal));
    assert_eq!(made, Some((strings(&["k"]), Leaf::Str("```\n x".to_string()))));
}

#[test]
fn fence_width_decides() {
    for (line, closes) in [("```", true), ("```  ", true), ("``", false), ("````", false), (" ```", false), ("```x", false), ("", false)] {
        let open = ScanState::InStringBlock {
            fence_width: 3,
            path: strings(&["k"]),
            content: chars("x\n"),
        };
        let (state, _) = scan_line(open, &chars(line), 2).unwrap();
        assert_eq!(matches!(state, ScanState::Normal), closes, "{:?}", line);
    }
}

#[test]
fn leaf_descriptions() {
    assert_eq!(existing_short(&Leaf::Bool(true)), "Bool(true)");
    assert_eq!(existing_short(&Leaf::Bool(false)), "Bool(false)");
    assert_eq!(existing_short(&Leaf::Int(0)), "Int(0)");
    assert_eq!(existing_short(&Leaf::Int(-120)), "Int(-120)");
    assert_eq!(existing_short(&Leaf::Int(i64::MAX)), "Int(9223372036854775807)");
    assert_eq!(existing_short(&Leaf::Int(i64::MIN)), "Int(-9223372036854775808)");
    assert_eq!(existing_short(&Leaf::Float("1.5".to_string())), "Float(1.5)");
    assert_eq!(existing_short(&Leaf::Str("a b".to_string())), "Str(\"a b\")");
    assert_eq!(existing_short(&Leaf::EmptyList), "EmptyList");
    assert_eq!(existing_short(&Leaf::EmptyObject), "EmptyDict");
}

#[test]
fn messages() {
    let at = |segments: &[&str]| strings(segments);
    assert_eq!(
        ParseError::MissingColon { line: 12, content: "oops".to_string() }.message(),
        "Line 12 missing `:`. Line content:\n oops"
    );
    assert_eq!(
        ParseError::InvalidKey { line: 3, key: "a..b".to_string() }.message(),
        "Line 3: Invalid key: a..b. Key must be a valid identifier."
    );
    assert_eq!(
        ParseError::InvalidIndex { line: 100, key: "a.$x".to_string() }.message(),
        "Line 100: Invalid key: a.$x. List index must be $numeric."
    );
    assert!(ParseError::InvalidValue { line: 7, value: "yes".to_string() }
        .message()
        .starts_with("Line 7: Invalid value: yes. Value must be:\n- `true`, `false` for boolean\n"));
    assert_eq!(
        ParseError::EmptyStringBlock { line: 2 }.message(),
        "Line 2: Empty string block should be formatted as `key: ```\\n\\n```, not ```\\n```."
    );
    assert_eq!(
        ParseError::UnclosedStringBlock { lines: 40 }.message(),
        "Unclosed string block starting at line 40."
    );
    assert_eq!(
        ParseError::PrefixConflict { line: 5, path: at(&["a", "b"]) }.message(),
        "Line 5: Key `a.b` is set both a value and at least one list item / dict attribute."
    );
    assert_eq!(
        ParseError::DuplicateValue {
            line: 6,
            path: at(&["a", "$0"]),
            existing: Leaf::Int(1),
            new: Leaf::Str("x".to_string()),
        }
        .message(),
        "Line 6: Key `a.$0` is set at least two values Int(1) | Str(\"x\")."
    );
    assert_eq!(
        ParseError::MixedKeys { path: at(&[]) }.message(),
        "<root> is set both as a list and a dict."
    );
    assert_eq!(
        ParseError::MixedKeys { path: at(&["a", "b", "c"]) }.message(),
        "a.b.c is set both as a list and a dict."
    );
    assert_eq!(
        ParseError::MissingIndices { path: at(&["a"]), count: 3 }.message(),
        "a is set as a list, but not all indices 0..2 are present."
    );
    assert_eq!(
        ParseError::NonFiniteFloat { path: at(&["a"]) }.message(),
        "a is set to a float value (NaN/inf) that is not representable in JSON."
    );
}

#[test]
fn finiteness_agrees_with_std() {
    let samples = [
        "0",
        "0.0",
        "-0.0",
        "0e999999999999999999999999999999",
        "0.000e-99999999999999999999999999",
        "1",
        "1e308",
        "1e309",
        "-1e309",
        "+1e309",
        "1e999",
        "1E+999",
        "1e-999",
        "1e99999999999999999999999999999999999",
        "1e-99999999999999999999999999999999999",
        "000000000000000000000000000000001e308",
        "1.7976931348623157e308",
        "1.7976931348623158e308",
        "1.7976931348623159e308",
        "-1.7976931348623159e308",
        "1.797693134862315807e308",
        "1.797693134862315808e308",
        "17976931348623157e292",
        "17976931348623159e292",
        "0.00017976931348623157e312",
        "0.00017976931348623159e312",
        "179769313486231570814527423731704356798070567525844996598917476803157260780028538760589558632766878171540458953514382464234321326889464182768467546703537516986049910576551282076245490090389328944075868508455133942304583236903222948165808559332123348274797826204144723168738177180919299881250404026184124858368",
        "179769313486231580793728971405303415079934132710037826936173778980444968292764750946649017977587207096330286416692887910946555547851940402630657488671505820681908902000708383676273854845817711531764475730270069855571366959622842914819860834936475292719074168444365510704342711559699508093042880177904174497790",
        "179769313486231580793728971405303415079934132710037826936173778980444968292764750946649017977587207096330286416692887910946555547851940402630657488671505820681908902000708383676273854845817711531764475730270069855571366959622842914819860834936475292719074168444365510704342711559699508093042880177904174497791",
        "179769313486231580793728971405303415079934132710037826936173778980444968292764750946649017977587207096330286416692887910946555547851940402630657488671505820681908902000708383676273854845817711531764475730270069855571366959622842914819860834936475292719074168444365510704342711559699508093042880177904174497792",
        "179769313486231580793728971405303415079934132710037826936173778980444968292764750946649017977587207096330286416692887910946555547851940402630657488671505820681908902000708383676273854845817711531764475730270069855571366959622842914819860834936475292719074168444365510704342711559699508093042880177904174497791.999",
        "179769313486231580793728971405303415079934132710037826936173778980444968292764750946649017977587207096330286416692887910946555547851940402630657488671505820681908902000708383676273854845817711531764475730270069855571366959622842914819860834936475292719074168444365510704342711559699508093042880177904174497792.000",
        "1797693134862315807937289714053034150799341327100378269361737789804449682927647509466490179775872070963302864166928879109465555478519404026306574886715058206819089020007083836762738548458177115317644757302700698555713669596228429148198608349364752927190741684443655107043427115596995080930428801779041744977920e-1",
        "17976931348623158079372897140530341507993413271003782693617377898044496829276475094664901797758720709633028641669288791094655554785194040263065748867150582068190890200070838367627385484581771153176447573027006985557136695962284291481986083893647529271907416844436551070434271155969950809304288017790417449779.1e-2",
        "1797693134862315807937289714053034150799341327100378269361737789804449682927647509466490179775872070963302864166928879109465555478519404026306574886715058206819089020007083836762738548458177115317644757302700698555713669596228429148198608349364752927190741684443655107043427115596995080930428801779041744.97792e5",
        "1797693134862315807937289714053034150799341327100378269361737789804449682927647509466490179775872070963302864166928879109465555478519404026306574886715058206819089020007083836762738548458177115317644757302700698555713669596228429148198608349364752927190741684443655107043427115596995080930428801779041744.97791e5",
        ".17976931348623158079372897140530341507993413271003782693617377898044496829276475094664901797758720709633028641669288791094655554785194040263065748867150582068190890200070838367627385484581771153176447573027006985557136695962284291481986083893647529271907416844436551070434271155969950809304288017790417449779200e309",
        ".179769313486231580793728971405303415079934132710037826936173778980444968292764750946649017977587207096330286416692887910946555547851940402630657488671505820681908902000708383676273854845817711531764475730270069855571366959622842914819860834936475292719074168444365510704342711559699508093042880177904174497789e309",
        "2e308",
        "9e307",
        "9.99999e307",
        "1e1024",
        "1e1025",
        "123456789012345678901234567890e279",
        "123456789012345678901234567890e278",
        "4.9e-324",
        "inf",
        "-Infinity",
        "nan",
    ];
    for sample in samples {
        let want = !sample.parse::<f64>().unwrap().is_finite();
        assert_eq!(stc::finite::is_not_finite(&chars(sample)), want, "{:?}", sample);
    }
}

#[test]
fn overflowing_floats_are_rejected() {
    assert_eq!(
        stc::parse_stc("a: 1e999"),
        Err(ParseError::NonFiniteFloat { path: strings(&["a"]) })
    );
    assert_eq!(
        stc::parse_stc("a: -1.7976931348623159e308"),
        Err(ParseError::NonFiniteFloat { path: strings(&["a"]) })
    );
    assert_eq!(
        stc::parse_stc("a: 1.7976931348623158e308"),
        Ok(Value::Object(vec![("a".to_string(), Value::Float("1.7976931348623158e308".to_string()))]))
    );
}

use clausewitz::parser::{parse, ParseError};
use clausewitz::value::{Filter, Value};

fn parse_full(string: &str) -> Result<Value, ParseError> {
    parse(string, &Filter::Bool(true))
}

fn vstr(x: &str) -> Value {
    Value::Str(x.to_string())
}

fn vobj(entries: Vec<(&str, Value)>) -> Value {
    Value::Object(entries.into_iter().map(|(k, v)| (k.to_string(), v)).collect())
}

fn fobj(entries: Vec<(&str, Filter)>) -> Filter {
    Filter::Object(entries.into_iter().map(|(k, f)| (k.to_string(), f)).collect())
}

#[test]
fn test_basic_map() {
    let actual = parse_full("foo = bar").unwrap();
    let expected = vobj(vec![("foo", vstr("bar"))]);
    assert_eq!(actual, expected);
}

#[test]
fn test_basic_map_with_string_value() {
    let actual = parse_full(r#"foo = "bar""#).unwrap();
    let expected = vobj(vec![("foo", vstr("bar"))]);
    assert_eq!(actual, expected);
}

#[test]
fn test_basic_map_with_string_key() {
    let actual = parse_full(r#""foo" = bar"#).unwrap();
    let expected = vobj(vec![("foo", vstr("bar"))]);
    assert_eq!(actual, expected);
}

#[test]
fn test_basic_map_with_multiple_key_vals() {
    let actual = parse_full(r#"foo = bar baz = bax"#).unwrap();
    let expected = vobj(vec![("foo", vstr("bar")), ("baz", vstr("bax"))]);
    assert_eq!(actual, expected);
}

#[test]
fn test_basic_map_with_unassigned_keys() {
    let actual = parse_full(
        r#"
			foo = FOO
			bar =
			baz = BAZ
			bax =
		"#,
    )
    .unwrap();
    let expected = vobj(vec![("foo", vstr("FOO")), ("baz", vstr("BAZ"))]);
    assert_eq!(actual, expected);
}

#[test]
fn test_assignment_with_no_keys_fails() {
    let actual = parse_full("= value");
    assert!(actual.is_err());
}

#[test]
fn test_simple_nested_map() {
    let actual = parse_full(
        r#"
			foo = {
				0 = f
				1 = o
				2 = o
			}
		"#,
    )
    .unwrap();
    let expected = vobj(vec![(
        "foo",
        vobj(vec![("0", vstr("f")), ("1", vstr("o")), ("2", vstr("o"))]),
    )]);
    assert_eq!(actual, expected);
}

#[test]
fn test_complex_nested_map() {
    let actual = parse_full(
        r#"
			bar = BAR
			foo = {
				0 = f
				1 = o
				2 = o
				capsArray = { F O O }
				caps = FOO
			}
		"#,
    )
    .unwrap();
    let expected = vobj(vec![
        ("bar", vstr("BAR")),
        (
            "foo",
            vobj(vec![
                ("0", vstr("f")),
                ("1", vstr("o")),
                ("2", vstr("o")),
                ("capsArray", Value::Array(vec![vstr("F"), vstr("O"), vstr("O")])),
                ("caps", vstr("FOO")),
            ]),
        ),
    ]);
    assert_eq!(actual, expected);
}

#[test]
fn test_array_basic() {
    let actual = parse_full(r#"foo bar"#).unwrap();
    let expected = Value::Array(vec![vstr("foo"), vstr("bar")]);
    assert_eq!(actual, expected);
}

#[test]
fn test_array_of_objects() {
    let actual = parse_full(r#"{foo=FOO}{bar=BAR}"#).unwrap();
    let expected = Value::Array(vec![
        vobj(vec![("foo", vstr("FOO"))]),
        vobj(vec![("bar", vstr("BAR"))]),
    ]);
    assert_eq!(actual, expected);
}

#[test]
fn test_array_mixed() {
    let actual = parse_full(r#"1 two { three = THREE } { 4 four FOUR }"#).unwrap();
    let expected = Value::Array(vec![
        Value::UInt(1),
        vstr("two"),
        vobj(vec![("three", vstr("THREE"))]),
        Value::Array(vec![Value::UInt(4), vstr("four"), vstr("FOUR")]),
    ]);
    assert_eq!(actual, expected);
}

#[test]
fn test_mixed_array_and_map_fails() {
    let actual = parse_full("1 2 3 foo = FOO 4 5 6");
    assert!(actual.is_err());
}

#[test]
fn test_multi_keys() {
    let actual = parse_full(
        r#"
			foo = 1
			foo = 2
			foo = 3
			bar = {
				b = b
				b = b
			}
			baz = 4
			baz = 5
			baz = 6
			foo = 7
		"#,
    )
    .unwrap();
    let expected = vobj(vec![
        ("foo", Value::UInt(1)),
        (
            "bar",
            vobj(vec![
                ("b", vstr("b")),
                ("$multiKeys", vobj(vec![("b", Value::Array(vec![vstr("b")]))])),
            ]),
        ),
        ("baz", Value::UInt(4)),
        (
            "$multiKeys",
            vobj(vec![
                (
                    "foo",
                    Value::Array(vec![Value::UInt(2), Value::UInt(3), Value::UInt(7)]),
                ),
                ("baz", Value::Array(vec![Value::UInt(5), Value::UInt(6)])),
            ]),
        ),
    ]);
    assert_eq!(actual, expected);
}

#[test]
fn test_filter() {
    let actual = parse(
        r#"
			foo = FOO
			bar = BAR
			baz = BAZ
			bax = BAX
		"#,
        &fobj(vec![("foo", Filter::Bool(true)), ("baz", Filter::Bool(true))]),
    )
    .unwrap();
    let expected = vobj(vec![("foo", vstr("FOO")), ("baz", vstr("BAZ"))]);
    assert_eq!(actual, expected);
}

#[test]
fn test_filter_with_unassigned_keys() {
    let actual = parse(
        r#"
			foo =
			bar =
			baz = BAZ
			bax =
		"#,
        &fobj(vec![("foo", Filter::Bool(true)), ("baz", Filter::Bool(true))]),
    )
    .unwrap();
    let expected = vobj(vec![("baz", vstr("BAZ"))]);
    assert_eq!(actual, expected);
}

#[test]
fn test_filter_with_complex_map() {
    let actual = parse(
        r#"
			foo = { deeply = { nested = { even = deeper } } }
			bar = { also = { deeply = nested } }
		"#,
        &fobj(vec![("bar", fobj(vec![("notAlso", Filter::Bool(true))]))]),
    )
    .unwrap();
    let expected = vobj(vec![("bar", vobj(vec![]))]);
    assert_eq!(actual, expected);
}

#[test]
fn test_filter_with_arrays() {
    let actual = parse(
        r#"
			foo = { 1 2 3 }
			bar = { 4 5 6 }
			baz = {
				{ upper = B lower = b }
				{ upper = A lower = a }
				{ upper = Z lower = z }
			}
			bax = { this will be skipped }
		"#,
        &fobj(vec![
            ("foo", Filter::Bool(true)),
            ("bar", Filter::Array(vec![])),
            (
                "baz",
                Filter::Array(vec![fobj(vec![("upper", Filter::Bool(true))])]),
            ),
        ]),
    )
    .unwrap();
    let expected = vobj(vec![
        (
            "foo",
            Value::Array(vec![Value::UInt(1), Value::UInt(2), Value::UInt(3)]),
        ),
        (
            "bar",
            Value::Array(vec![Value::UInt(4), Value::UInt(5), Value::UInt(6)]),
        ),
        (
            "baz",
            Value::Array(vec![
                vobj(vec![("upper", vstr("B"))]),
                vobj(vec![("upper", vstr("A"))]),
                vobj(vec![("upper", vstr("Z"))]),
            ]),
        ),
    ]);
    assert_eq!(actual, expected);
}

#[test]
fn test_filter_with_wildcard() {
    let actual = parse(
        r#"
			1 = { digit = 1 word = One }
			2 = { digit = 2 word = Two }
			3 = { digit = 3 word = Three }
		"#,
        &fobj(vec![("*", fobj(vec![("word", Filter::Bool(true))]))]),
    )
    .unwrap();
    let expected = vobj(vec![
        ("1", vobj(vec![("word", vstr("One"))])),
        ("2", vobj(vec![("word", vstr("Two"))])),
        ("3", vobj(vec![("word", vstr("Three"))])),
    ]);
    assert_eq!(actual, expected);
}

#[test]
fn test_filter_multi_keys() {
    let actual = parse(
        r#"
			foo = 1
			foo = 2
			foo = 3
			bar = 4
			bar = 5
			bar = 6
		"#,
        &fobj(vec![("bar", Filter::Bool(false))]),
    )
    .unwrap();
    let expected = vobj(vec![
        ("bar", Value::UInt(4)),
        (
            "$multiKeys",
            vobj(vec![("bar", Value::Array(vec![Value::UInt(5), Value::UInt(6)]))]),
        ),
    ]);
    assert_eq!(actual, expected);
}

#[test]
fn test_filter_array_key_resolves_empty_block_ambiguity() {
    let actual = parse(
        r#"
			empty_array = {}
			empty_object = {}
		"#,
        &fobj(vec![
            ("empty_array", Filter::Array(vec![Filter::Bool(false)])),
            ("empty_object", Filter::Bool(false)),
        ]),
    )
    .unwrap();
    let expected = vobj(vec![
        ("empty_array", Value::Array(vec![])),
        ("empty_object", vobj(vec![])),
    ]);
    assert_eq!(actual, expected);
}

#[test]
fn test_parses_numbers_and_bools() {
    let actual = parse_full(
        r#"
			one = 1
			decimal = 1.23
			true = yes
			false = no
			array = { 1 1.23 yes no }
		"#,
    )
    .unwrap();
    let expected = vobj(vec![
        ("one", Value::UInt(1)),
        ("decimal", Value::Float("1.23".to_string())),
        ("true", Value::Bool(true)),
        ("false", Value::Bool(false)),
        (
            "array",
            Value::Array(vec![
                Value::UInt(1),
                Value::Float("1.23".to_string()),
                Value::Bool(true),
                Value::Bool(false),
            ]),
        ),
    ]);
    assert_eq!(actual, expected);
}

#[test]
fn test_parses_drop_null_values() {
    let actual = parse_full(
        r#"
			notnull = foo
			null = none
			implicit_null =
			array = { notnull none }
		"#,
    )
    .unwrap();
    let expected = vobj(vec![
        ("notnull", vstr("foo")),
        ("array", Value::Array(vec![vstr("notnull"), Value::Null])),
    ]);
    assert_eq!(actual, expected);
}

#[test]
fn test_comments() {
    let actual = parse_full(
        r#"
			foo = { 1 2 3 } # here's a comment
			bar = { 4 5 6 }
			# here's a comment on its own line
			baz = {
				{ upper = B lower = b }
				{ upper = A lower = a }
				# here's a nested comment
				{ upper = Z lower = z }
			}
		"#,
    )
    .unwrap();
    let expected = vobj(vec![
        (
            "foo",
            Value::Array(vec![Value::UInt(1), Value::UInt(2), Value::UInt(3)]),
        ),
        (
            "bar",
            Value::Array(vec![Value::UInt(4), Value::UInt(5), Value::UInt(6)]),
        ),
        (
            "baz",
            Value::Array(vec![
                vobj(vec![("upper", vstr("B")), ("lower", vstr("b"))]),
                vobj(vec![("upper", vstr("A")), ("lower", vstr("a"))]),
                vobj(vec![("upper", vstr("Z")), ("lower", vstr("z"))]),
            ]),
        ),
    ]);
    assert_eq!(actual, expected);
}

#[test]
fn test_array_filter_appends_repeated_keys() {
    let actual = parse(
        "foo = { i=1 iword=one } foo = { i=2 iword=two } bar = BAR",
        &fobj(vec![
            ("foo", Filter::Array(vec![fobj(vec![("i", Filter::Bool(true))])])),
            ("bar", Filter::Array(vec![])),
        ]),
    )
    .unwrap();
    let expected = vobj(vec![
        (
            "foo",
            Value::Array(vec![
                vobj(vec![("i", Value::UInt(1))]),
                vobj(vec![("i", Value::UInt(2))]),
            ]),
        ),
        ("bar", Value::Array(vec![vstr("BAR")])),
    ]);
    assert_eq!(actual, expected);
}

#[test]
fn test_repeated_scalar_keys_without_filter() {
    let actual = parse_full("foo = 1\nfoo = 2\nfoo = 3").unwrap();
    let expected = vobj(vec![
        ("foo", Value::UInt(1)),
        (
            "$multiKeys",
            vobj(vec![("foo", Value::Array(vec![Value::UInt(2), Value::UInt(3)]))]),
        ),
    ]);
    assert_eq!(actual, expected);
}

#[test]
fn test_empty_input_is_an_empty_object() {
    let actual = parse_full("").unwrap();
    assert_eq!(actual, vobj(vec![]));
}

#[test]
fn test_unterminated_string_fails_the_parse() {
    let actual = parse_full("foo = \"unfinished");
    match actual {
        Err(ParseError::Lex(e)) => {
            assert_eq!(e.kind, clausewitz::lexer::LexErrorKind::UnterminatedString);
        }
        other => panic!("expected a lex error, got {:?}", other),
    }
}

#[test]
fn test_unexpected_token_reports_offset() {
    let actual = parse_full("= value");
    assert_eq!(actual, Err(ParseError::UnexpectedToken(0)));
}

#[test]
fn test_close_inside_skipped_value_fails() {
    let actual = parse("a = }", &fobj(vec![("b", Filter::Bool(true))]));
    assert!(matches!(actual, Err(ParseError::UnexpectedToken(_))));
}

#[test]
fn test_unclosed_block_fails() {
    let actual = parse_full("foo = { a = b");
    assert_eq!(actual, Err(ParseError::UnexpectedEof));
}

#[test]
fn test_key_skipped_by_filter_before_equals_is_recovered() {
    // The skipped key `foo` has no value, so the skip swallows `baz`,
    // which must then be recognised as the next key.
    let actual = parse(
        "foo =\nbaz = BAZ",
        &fobj(vec![("baz", Filter::Bool(true))]),
    )
    .unwrap();
    assert_eq!(actual, vobj(vec![("baz", vstr("BAZ"))]));
}

#[test]
fn test_object_keys_may_come_in_any_order() {
    // The two objects hold the same entries; only presentation order
    // differs, and lookups cannot tell them apart.
    let a = parse_full("x = 1\ny = 2").unwrap();
    let b = parse_full("y = 2\nx = 1").unwrap();
    assert_eq!(a.get(&"x".to_string()), b.get(&"x".to_string()));
    assert_eq!(a.get(&"y".to_string()), b.get(&"y".to_string()));
    assert_eq!(a, vobj(vec![("x", Value::UInt(1)), ("y", Value::UInt(2))]));
    assert_eq!(b, vobj(vec![("y", Value::UInt(2)), ("x", Value::UInt(1))]));
}

#[test]
fn test_object_lookup() {
    let v = parse_full("a = 1\nb = { c = 2 }").unwrap();
    assert_eq!(v.get(&"a".to_string()), Some(&Value::UInt(1)));
    let inner = v.get(&"b".to_string()).unwrap();
    assert_eq!(inner.get(&"c".to_string()), Some(&Value::UInt(2)));
    assert_eq!(v.get(&"missing".to_string()), None);
    assert_eq!(Value::UInt(1).get(&"a".to_string()), None);
}

#[test]
fn test_array_items_keep_their_order() {
    let a = parse_full("1 2 3").unwrap();
    let b = parse_full("3 2 1").unwrap();
    assert_eq!(
        a,
        Value::Array(vec![Value::UInt(1), Value::UInt(2), Value::UInt(3)])
    );
    assert_eq!(
        b,
        Value::Array(vec![Value::UInt(3), Value::UInt(2), Value::UInt(1)])
    );
    assert_ne!(a, b);
}

#[test]
fn test_filter_true_keeps_every_key() {
    let actual = parse_full("a = 1\nb = 2\nc = 3").unwrap();
    let expected = vobj(vec![
        ("a", Value::UInt(1)),
        ("b", Value::UInt(2)),
        ("c", Value::UInt(3)),
    ]);
    assert_eq!(actual, expected);
}

#[test]
fn test_sentinels_never_stay_strings_in_values() {
    // `yes`, `no` and `none` coerce wherever they stand as values, even
    // quoted; as keys they stay words.
    let actual = parse_full("yes = no\nnone = \"yes\"\nlist = { none no }").unwrap();
    let expected = vobj(vec![
        ("yes", Value::Bool(false)),
        ("none", Value::Bool(true)),
        (
            "list",
            Value::Array(vec![Value::Null, Value::Bool(false)]),
        ),
    ]);
    assert_eq!(actual, expected);
}

#[test]
fn test_explicit_array_key_wins_over_wildcard() {
    // A key listed in the filter keeps its own entry; `"*"` covers only
    // the unlisted ones.
    let actual = parse(
        "a = 1\na = 2\nb = 3\nb = 4",
        &fobj(vec![
            ("a", Filter::Array(vec![Filter::Bool(true)])),
            ("*", Filter::Bool(true)),
        ]),
    )
    .unwrap();
    let expected = vobj(vec![
        ("a", Value::Array(vec![Value::UInt(1), Value::UInt(2)])),
        ("b", Value::UInt(3)),
        (
            "$multiKeys",
            vobj(vec![("b", Value::Array(vec![Value::UInt(4)]))]),
        ),
    ]);
    assert_eq!(actual, expected);
}

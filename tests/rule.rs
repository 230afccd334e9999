use coolrule::{new, parse_number, CoolRuleError, EvalError, SyntaxErrorKind, Value};

fn num(text: &str) -> Value {
    Value::Number(parse_number(text).unwrap())
}

fn s(text: &str) -> Value {
    Value::Str(text.to_string())
}

#[test]
fn test_bool_rule_test_suite() {
    let exprs: Vec<(&str, Vec<(Vec<&str>, Value)>, bool)> = vec![
        ("5 > 3", Vec::new(), true),
        ("5 < 3", Vec::new(), false),
        ("5 > 5", Vec::new(), false),
        ("3 >= 5", Vec::new(), false),
        ("5 >= 3", Vec::new(), true),
        ("5 >= 5", Vec::new(), true),
        ("5 <= 3", Vec::new(), false),
        ("3 <= 5", Vec::new(), true),
        ("3 <= 5", Vec::new(), true),
        ("5 ≥ 3", Vec::new(), true),
        ("5 ≥ 5", Vec::new(), true),
        ("3 ≤ 3", Vec::new(), true),
        ("3 ≤ 5", Vec::new(), true),
        ("7 == true", Vec::new(), false),
        ("true == true", Vec::new(), true),
        ("None is None", Vec::new(), true),
        ("1 != 2", Vec::new(), true),
        ("1 != 1", Vec::new(), false),
        ("2 != true", Vec::new(), true),
        ("1 ≠ 2", Vec::new(), true),
        ("1 ≠ 1", Vec::new(), false),
        ("2 ≠ true", Vec::new(), true),
        ("5 > 3 and 3 > 1", Vec::new(), true),
        ("5 > 3 and 3 > 5", Vec::new(), false),
        ("5 > 3 or 3 > 5", Vec::new(), true),
        ("5 > 3 and (3 > 5 or 3 > 1)", Vec::new(), true),
        ("5 > 3 and (3 > 5 and 3 < 1)", Vec::new(), false),
        ("(1=1 or 2=2) and (3 = 3)", Vec::new(), true),
        ("(1=1 or 2=2) and (3 = 4)", Vec::new(), false),
        (
            "foo = \"bar\" AND baz > 10",
            vec![(vec!["foo"], s("bar")), (vec!["baz"], num("20"))],
            true,
        ),
        (
            "foo = \"bar\" AND baz > 10",
            vec![(vec!["foo"], s("bar")), (vec!["baz"], num("9"))],
            false,
        ),
        (
            "foo = \"bar\" AND (\"a\" = \"b\" OR baz > 10)",
            vec![(vec!["foo"], s("bar")), (vec!["baz"], num("11"))],
            true,
        ),
        ("foo.bar = \"bar\"", vec![(vec!["foo", "bar"], s("bar"))], true),
        ("foo.bar isnot none", vec![(vec!["foo", "bar"], num("4"))], true),
        ("foo.bar is none", vec![(vec!["foo", "bar"], Value::Absent)], true),
        ("foo.bar is none", vec![(vec!["foo", "bar"], Value::Absent)], true),
        ("1=1 and 2 in (1, true)", Vec::new(), false),
        ("x in (5, 6, 7)", vec![(vec!["x"], num("5"))], true),
        ("x in (5, 6, 7)", vec![(vec!["x"], num("8"))], false),
        (
            "x in (5, 6, 7, y)",
            vec![(vec!["x"], num("99")), (vec!["y"], num("99"))],
            true,
        ),
        ("x ∈ (5, 6, 7)", vec![(vec!["x"], num("5"))], true),
        ("x ∈ (5, 6, 7)", vec![(vec!["x"], num("8"))], false),
        (
            "x ∈ (5, 6, 7, y)",
            vec![(vec!["x"], num("99")), (vec!["y"], num("99"))],
            true,
        ),
        ("x ∉ (5, 6, 7)", vec![(vec!["x"], num("5"))], false),
        ("x ∉ (5, 6, 7)", vec![(vec!["x"], num("8"))], true),
        (
            "x ∉ (5, 6, 7, y)",
            vec![(vec!["x"], num("99")), (vec!["y"], num("99"))],
            false,
        ),
        ("(1, 2, 3) ⊆ (1, 2, 3)", Vec::new(), true),
        ("(1, 2, 3) ⊇ (1, 2, 3)", Vec::new(), true),
        ("(1, 2, 3) ⊆ (1, 2, 3, 4)", Vec::new(), true),
        ("(1, 2, 3, 4) ⊇ (1, 2, 3)", Vec::new(), true),
        ("(1, 2, 3) ⊆ (1, 2)", Vec::new(), false),
        ("(1, 2) ⊇ (1, 2, 3)", Vec::new(), false),
        ("(1, 2, 3) ∩ (1, 2, 3)", Vec::new(), true),
        ("(4) ∩ (3, 4, 5)", Vec::new(), true),
        ("(1, 2, 3) ∩ (4, 5, 6)", Vec::new(), false),
        ("(4) not∩ (1, 2, 3)", Vec::new(), true),
        ("(1, 2) not∩ (4, 5, 6)", Vec::new(), true),
        ("(3) not∩ (3, 4, 5)", Vec::new(), false),
        ("(3, 4) not∩ (3, 4, 5)", Vec::new(), false),
        ("(1, 2) == (1, 2)", Vec::new(), true),
        ("(4, none) >= (1, none)", Vec::new(), true),
        ("none in (none)", Vec::new(), true),
    ];

    assert_eq!(new("1 == 1").ok().unwrap().test().ok(), Some(true));
    for (expr, ctx, result) in exprs.iter() {
        println!("{}", expr);
        let cr = new(expr).ok().unwrap();
        assert_eq!(cr.test_with_context(ctx).ok(), Some(*result));
    }
}

#[test]
fn later_context_pair_replaces_earlier() {
    let rule = new("x = 2").ok().unwrap();
    let ctx = vec![(vec!["x"], num("1")), (vec!["x"], num("2"))];
    assert_eq!(rule.test_with_context(&ctx).ok(), Some(true));
}

#[test]
fn unicode_strings_from_the_host() {
    let rule = new("name = \"zoë\"").ok().unwrap();
    let ctx = vec![(vec!["name"], s("zoë"))];
    assert_eq!(rule.test_with_context(&ctx).ok(), Some(true));
    let ctx = vec![(vec!["name"], s("zoe"))];
    assert_eq!(rule.test_with_context(&ctx).ok(), Some(false));
}

#[test]
fn test_without_context_reports_missing_path() {
    let rule = new("foo.bar = 1").ok().unwrap();
    match rule.test() {
        Err(CoolRuleError::EvalError(e)) => {
            assert!(matches!(e, EvalError::MissingFromContext(_)));
            assert_eq!(e.missing_path_text(), b"foo.bar".to_vec());
        }
        _ => panic!("expected an evaluation error"),
    }
}

#[test]
fn new_reports_syntax_errors() {
    match new("1 = 1 and") {
        Err(CoolRuleError::ParseError(e)) => {
            assert_eq!(e.kind, SyntaxErrorKind::TrailingInput);
            assert_eq!(e.position, 6);
        }
        _ => panic!("expected a syntax error"),
    }
    match new("  = 1") {
        Err(CoolRuleError::ParseError(e)) => {
            assert_eq!(e.kind, SyntaxErrorKind::NoMatch);
            assert_eq!(e.position, 2);
        }
        _ => panic!("expected a syntax error"),
    }
}

use coolrule::{eval, eval_with_context, parse, parse_number, Context, EvalError, SimpleValue};

fn num(text: &str) -> SimpleValue {
    SimpleValue::Number(parse_number(text).unwrap())
}

fn text(s: &str) -> SimpleValue {
    SimpleValue::Str(s.as_bytes().to_vec())
}

fn path(dotted: &str) -> Vec<Vec<u8>> {
    dotted.split('.').map(|p| p.as_bytes().to_vec()).collect()
}

#[test]
fn test_eval() {
    let exprs = [
        ("5 > 3", true),
        ("5 < 3", false),
        ("5 > 5", false),
        ("3 >= 5", false),
        ("5 >= 3", true),
        ("5 >= 5", true),
        ("5 <= 3", false),
        ("3 <= 5", true),
        ("3 <= 5", true),
        ("5 ≥ 3", true),
        ("5 ≥ 5", true),
        ("3 ≤ 3", true),
        ("3 ≤ 5", true),
        ("7 == true", false),
        ("true == true", true),
        ("none is none", true),
        ("1 != 2", true),
        ("1 != 1", false),
        ("2 != true", true),
        ("1 ≠ 2", true),
        ("1 ≠ 1", false),
        ("2 ≠ true", true),
        ("5 > 3 and 3 > 1", true),
        ("5 > 3 and 3 > 5", false),
        ("5 > 3 or 3 > 5", true),
        ("5 > 3 and (3 > 5 or 3 > 1)", true),
        ("5 > 3 and (3 > 5 and 3 < 1)", false),
        ("(1=1 or 2=2) and (3 = 3)", true),
        ("(1=1 or 2=2) and (3 = 4)", false),
        ("(1, 2, 3) ⊆ (1, 2, 3)", true),
        ("(1, 2, 3) ⊇ (1, 2, 3)", true),
        ("(1, 2, 3) ⊆ (1, 2, 3, 4)", true),
        ("(1, 2, 3, 4) ⊇ (1, 2, 3)", true),
        ("(1, 2, 3) ⊆ (1, 2)", false),
        ("(1, 2) ⊇ (1, 2, 3)", false),
        ("(1, 2, 3) ∩ (1, 2, 3)", true),
        ("(4) ∩ (3, 4, 5)", true),
        ("(1, 2, 3) ∩ (4, 5, 6)", false),
        ("(4) not∩ (1, 2, 3)", true),
        ("(1, 2) not∩ (4, 5, 6)", true),
        ("(3) not∩ (3, 4, 5)", false),
        ("(3, 4) not∩ (3, 4, 5)", false),
    ];
    let exprs_with_context = [
        (
            "foo = \"bar\" and baz > 10",
            vec![("foo", text("bar")), ("baz", num("20"))],
            true,
        ),
        (
            "foo = \"bar\" and baz > 10",
            vec![("foo", text("bar")), ("baz", num("9"))],
            false,
        ),
        ("foo.bar = \"bar\"", vec![("foo.bar", text("bar"))], true),
        (
            "foo.bar.zoo isnot none and true is true",
            vec![("foo.bar.zoo", num("4"))],
            true,
        ),
        ("x in (5, 6, 7)", vec![("x", num("5"))], true),
        ("x ∈ (5, 6, 7)", vec![("x", num("5"))], true),
        ("x ∉ (5, 6, 7)", vec![("x", num("5"))], false),
        ("(a) == (a)", vec![("a", num("5"))], true),
        ("(a) == 1", vec![("a", num("5"))], false),
        ("1 == (a)", vec![("a", num("5"))], false),
    ];

    for (expr, test) in exprs.iter() {
        let boolean_expression = parse(expr).unwrap();
        let result = eval(&boolean_expression);
        assert!(result.ok() == Some(*test), "{expr} should eval to {test}");
    }
    for (expr, ctx, test) in exprs_with_context.iter() {
        let boolean_expression = parse(expr).unwrap();
        let mut context = Context::new();
        for (k, v) in ctx {
            context.insert(path(k), v.clone());
        }
        let result = eval_with_context(&boolean_expression, &context);
        assert!(result.ok() == Some(*test), "{expr} should eval to {test}");
    }

    assert!(eval(&parse("true = a").unwrap()).is_err());
}

#[test]
fn missing_context_path_is_reported() {
    let e = parse("foo.bar = 1").unwrap();
    match eval(&e) {
        Err(err) => {
            assert!(matches!(err, EvalError::MissingFromContext(_)));
            assert_eq!(err.missing_path_text(), b"foo.bar".to_vec());
        }
        Ok(_) => panic!("expected a missing-context error"),
    }
}

#[test]
fn no_short_circuit_on_false_and() {
    let e = parse("1 = 2 and missing = 1").unwrap();
    assert!(matches!(eval(&e), Err(EvalError::MissingFromContext(_))));
    let e = parse("1 = 1 or missing = 1").unwrap();
    assert!(eval(&e).is_err());
    let mut ctx = Context::new();
    ctx.insert(path("missing"), num("1"));
    assert_eq!(eval_with_context(&e, &ctx).ok(), Some(true));
}

#[test]
fn right_associative_chains() {
    // Right grouping gives true or (false and false) = true;
    // a left fold would give (true or false) and false = false.
    assert_eq!(eval(&parse("5 > 3 or 3 > 5 and 3 > 5").unwrap()).ok(), Some(true));
    assert_eq!(eval(&parse("5 > 3 and 3 > 5 or 3 > 1").unwrap()).ok(), Some(true));
    assert_eq!(eval(&parse("3 > 5 or 5 > 3 and 3 > 5").unwrap()).ok(), Some(false));
}

#[test]
fn mismatched_variants_are_unequal() {
    assert_eq!(eval(&parse("7 == true").unwrap()).ok(), Some(false));
    assert_eq!(eval(&parse("none is none").unwrap()).ok(), Some(true));
    assert_eq!(eval(&parse("\"a\" < 1").unwrap()).ok(), Some(false));
    assert_eq!(eval(&parse("\"a\" >= 1").unwrap()).ok(), Some(false));
}

#[test]
fn group_membership_against_context() {
    let e = parse("x in (5,6,7)").unwrap();
    let mut ctx = Context::new();
    ctx.insert(path("x"), num("5"));
    assert_eq!(eval_with_context(&e, &ctx).ok(), Some(true));
    let mut ctx = Context::new();
    ctx.insert(path("x"), num("8"));
    assert_eq!(eval_with_context(&e, &ctx).ok(), Some(false));
}

#[test]
fn set_relations() {
    assert_eq!(eval(&parse("(1,2,3) ⊆ (1,2,3,4)").unwrap()).ok(), Some(true));
    assert_eq!(eval(&parse("(1,2,3) ⊆ (1,2)").unwrap()).ok(), Some(false));
    assert_eq!(eval(&parse("(4) ∩ (3,4,5)").unwrap()).ok(), Some(true));
    assert_eq!(eval(&parse("(4) not∩ (1,2,3)").unwrap()).ok(), Some(true));
    assert_eq!(eval(&parse("(1, 1, 2) ⊆ (2, 1)").unwrap()).ok(), Some(true));
}

#[test]
fn evaluation_is_repeatable() {
    let e = parse("x > 1 and (y = \"a\" or x in (1, 2))").unwrap();
    let mut ctx = Context::new();
    ctx.insert(path("x"), num("2"));
    ctx.insert(path("y"), text("b"));
    let first = eval_with_context(&e, &ctx).ok();
    let second = eval_with_context(&e, &ctx).ok();
    assert_eq!(first, Some(true));
    assert_eq!(first, second);
}

#[test]
fn shape_errors() {
    assert!(matches!(eval(&parse("1 in 2").unwrap()), Err(EvalError::NotIterable(_))));
    assert!(matches!(eval(&parse("1 > (1, 2)").unwrap()), Err(EvalError::NotIterable(_))));
    assert!(matches!(eval(&parse("(1, 2) in 2").unwrap()), Err(EvalError::NotIterable(_))));
    assert!(matches!(eval(&parse("1 ⊆ 2").unwrap()), Err(EvalError::NotIterable(_))));
    assert_eq!(eval(&parse("(1, 2) in (1, 2)").unwrap()).ok(), Some(false));
    assert_eq!(eval(&parse("(1, 2) notin (1, 2)").unwrap()).ok(), Some(true));
}

#[test]
fn path_stored_in_context_is_an_error() {
    let e = parse("x = 1").unwrap();
    let mut ctx = Context::new();
    ctx.insert(path("x"), SimpleValue::PropertyPath(path("y")));
    assert!(matches!(eval_with_context(&e, &ctx), Err(EvalError::PathInContext)));
}

#[test]
fn group_ordering_uses_common_prefix() {
    assert_eq!(eval(&parse("(4, none) >= (1, none)").unwrap()).ok(), Some(true));
    assert_eq!(eval(&parse("(4, 5, 6) > (1, 2)").unwrap()).ok(), Some(true));
    assert_eq!(eval(&parse("(4, 1) > (1, 2)").unwrap()).ok(), Some(false));
    assert_eq!(eval(&parse("(1, 2) < (2, 3, 0)").unwrap()).ok(), Some(true));
}

#[test]
fn numbers_compare_by_value() {
    assert_eq!(eval(&parse("1.50 = 1.5").unwrap()).ok(), Some(true));
    assert_eq!(eval(&parse("-0 = 0").unwrap()).ok(), Some(true));
    assert_eq!(eval(&parse("1e2 = 100").unwrap()).ok(), Some(true));
    assert_eq!(eval(&parse("-2 < -1").unwrap()).ok(), Some(true));
    assert_eq!(eval(&parse("0.05 < 0.5").unwrap()).ok(), Some(true));
    assert_eq!(eval(&parse("12 > 9").unwrap()).ok(), Some(true));
    assert_eq!(eval(&parse("2.5E-1 = 0.25").unwrap()).ok(), Some(true));
    assert_eq!(eval(&parse("\"ab\" < \"b\"").unwrap()).ok(), Some(true));
    assert_eq!(eval(&parse("false < true").unwrap()).ok(), Some(true));
}

#[test]
fn paths_inside_a_group_compared_with_a_scalar_are_looked_up() {
    assert!(matches!(eval(&parse("(a) == 1").unwrap()), Err(EvalError::MissingFromContext(_))));
    assert!(matches!(eval(&parse("(1, a) != 1").unwrap()), Err(EvalError::MissingFromContext(_))));
    let e = parse("(a) == 1").unwrap();
    let mut ctx = Context::new();
    ctx.insert(path("a"), SimpleValue::PropertyPath(path("b")));
    assert!(matches!(eval_with_context(&e, &ctx), Err(EvalError::PathInContext)));
    let mut ctx = Context::new();
    ctx.insert(path("a"), num("5"));
    assert_eq!(eval_with_context(&e, &ctx).ok(), Some(false));
}

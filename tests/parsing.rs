use coolrule::{
    parse, parse_number, AndOr, BinOp, BooleanCondition, PropertyVal, SimpleValue,
    SyntaxErrorKind,
};

#[test]
fn test_parse() {
    let valid_exprs = [
        "5 > 3",
        "3.5 >= 5",
        "true == true",
        "true == True",
        "false == False",
        "None is None",
        "5 > 3 and 3 > 1",
        "(1=1 or 2=2) and (3 = 3)",
        "foo = \"bar\" AND baz > 10",
        "foo = \"bar\" OR baz > 10",
        "foo.bar = \"bar\"",
        "foo.bar isnot none",
        "x in (5, 6, 7)",
        "(3, 4) not∩ (3, 4, 5)",
    ];

    let mut pass = true;
    for expr in valid_exprs.iter() {
        match parse(expr) {
            Ok(_) => (),
            Err(e) => {
                println!("{expr}");
                let spaces = " ".repeat(e.position);
                println!("{} {:?}", format!("{}{}", spaces, "^"), e.kind);
                pass = false;
            }
        };
    }
    assert!(pass);
}

fn op_of(text: &str) -> BinOp {
    match parse(text).unwrap().initial {
        BooleanCondition::Comparison(_, op, _) => op,
        _ => panic!("expected a comparison"),
    }
}

#[test]
fn operator_aliases_collapse() {
    assert_eq!(op_of("1 == 1"), BinOp::Equal);
    assert_eq!(op_of("1 = 1"), BinOp::Equal);
    assert_eq!(op_of("1 eq 1"), BinOp::Equal);
    assert_eq!(op_of("1 ne 1"), BinOp::NotEqual);
    assert_eq!(op_of("1 ≠ 1"), BinOp::NotEqual);
    assert_eq!(op_of("1 ge 1"), BinOp::GreaterThanOrEqual);
    assert_eq!(op_of("1 gt 1"), BinOp::GreaterThan);
    assert_eq!(op_of("1 le 1"), BinOp::LessThanOrEqual);
    assert_eq!(op_of("1 lt 1"), BinOp::LessThan);
    assert_eq!(op_of("1 notin (1)"), BinOp::NotIn);
    assert_eq!(op_of("1 isnot 1"), BinOp::IsNot);
    assert_eq!(op_of("(1) ⊇ (1)"), BinOp::SuperSetOf);
}

#[test]
fn keyword_operators_are_lower_case_only() {
    assert!(parse("1 EQ 1").is_err());
    assert!(parse("1 IS 1").is_err());
    assert!(parse("TRUE = tRuE").is_ok());
    assert!(parse("1 = 1 AnD 2 = 2").is_ok());
}

#[test]
fn chain_groups_from_the_right() {
    let e = parse("a = 1 and b = 2 or c = 3").unwrap();
    let (conn, tail) = e.rest.unwrap();
    assert_eq!(conn, AndOr::And);
    let (conn2, last) = tail.rest.unwrap();
    assert_eq!(conn2, AndOr::Or);
    assert!(last.rest.is_none());
}

#[test]
fn false_literal_is_false() {
    match parse("false = 1").unwrap().initial {
        BooleanCondition::Comparison(PropertyVal::SimpleValue(SimpleValue::Bool(b)), _, _) => {
            assert!(!b)
        }
        _ => panic!("expected a boolean operand"),
    }
}

#[test]
fn syntax_errors() {
    let e = parse("5 > 3 )").err().unwrap();
    assert_eq!(e.kind, SyntaxErrorKind::TrailingInput);
    assert_eq!(e.position, 6);
    assert_eq!(parse("").err().unwrap().kind, SyntaxErrorKind::NoMatch);
    assert_eq!(parse("(1 = 1").err().unwrap().kind, SyntaxErrorKind::NoMatch);
    assert_eq!(parse("x in ()").err().unwrap().kind, SyntaxErrorKind::NoMatch);
    assert!(parse("1 = 1 )").is_err());
    assert!(parse("x.1 = 1").is_err());
}

#[test]
fn number_literals_are_normalized() {
    assert!(parse_number("-0012").is_none());
    let small = parse_number("0.0012").unwrap();
    assert_eq!(*small.digits(), b"12".to_vec());
    assert_eq!(small.exponent(), -2);
    let n = parse_number("-12.3400e2").unwrap();
    assert!(n.is_negative());
    assert_eq!(*n.digits(), b"1234".to_vec());
    assert_eq!(n.exponent(), 4);
    let z = parse_number("-0.000").unwrap();
    assert!(!z.is_negative());
    assert!(z.digits().is_empty());
    assert_eq!(z.exponent(), 0);
    assert!(parse_number("1.").is_none());
    assert!(parse_number(" 1").is_none());
    let big = parse_number("1e99999999999999999999").unwrap();
    assert_eq!(big.exponent(), 1_000_000_000_000_000);
    let tiny = parse_number("0.0001e-999999999999999999").unwrap();
    assert_eq!(tiny.exponent(), -1_000_000_000_000_000);
}

#[test]
fn strings_keep_their_bytes() {
    match parse("\"a b,c\" = x").unwrap().initial {
        BooleanCondition::Comparison(PropertyVal::SimpleValue(SimpleValue::Str(s)), _, _) => {
            assert_eq!(s, b"a b,c".to_vec())
        }
        _ => panic!("expected a string operand"),
    }
}

fn reprint(text: &str) -> String {
    let e = parse(text).unwrap();
    String::from_utf8(coolrule::to_source(&e)).unwrap()
}

#[test]
fn printed_source_parses_back_to_the_same_text() {
    let sources = [
        "5 > 3",
        "foo.bar = \"bar\" AND (baz ≥ 10 or baz ∈ (1, 2.5, -3e2))",
        "x notin (true, FALSE, None) or y isnot none",
        "(1, 2) not∩ (4, 5) and (a ⊆ (1) or b ⊇ (2, 3))",
        "0.001 eq 1e-3",
    ];
    for src in sources.iter() {
        let once = reprint(src);
        let twice = reprint(&once);
        assert_eq!(once, twice);
    }
}

#[test]
fn printed_source_uses_one_spelling() {
    assert_eq!(reprint("a eq 1"), "a == 0.1e1");
    assert_eq!(reprint("a=1 AND b ≠ -25"), "a == 0.1e1 and b != -0.25e2");
    assert_eq!(reprint("x in (0, 0.5)"), "x in (0, 0.5e0)");
    assert_eq!(reprint("((p.q ≤ 1e-3))"), "((p.q <= 0.1e-2))");
    assert_eq!(reprint("t = True or f = FALSE and n is NONE"), "t == true or f == false and n is none");
}

#[test]
fn paths_may_start_with_literal_words() {
    for src in ["nonexistent = 1", "trueish = 1", "Nonetheless = 2", "False_flag = 1", "none.x = 1", "true.y.z = 2"].iter() {
        match parse(src).unwrap().initial {
            BooleanCondition::Comparison(PropertyVal::SimpleValue(SimpleValue::PropertyPath(_)), _, _) => {}
            _ => panic!("expected a path operand in {src}"),
        }
    }
    match parse("none = 1").unwrap().initial {
        BooleanCondition::Comparison(PropertyVal::SimpleValue(SimpleValue::Absent), _, _) => {}
        _ => panic!("expected none"),
    }
    assert_eq!(op_of("nonexistent = 1"), op_of("nonexistent == 1"));
    assert_eq!(reprint("trueish eq 1"), "trueish == 0.1e1");
}

#[test]
fn huge_exponents_print_back_to_the_same_tree() {
    let once = reprint("1e99999999999999999999 = 1");
    assert_eq!(once, "0.1e1000000000000000 == 0.1e1");
    assert_eq!(reprint(&once), once);
}

#[test]
fn syntax_error_messages() {
    let e = parse("1 = 1 )").err().unwrap();
    assert_eq!(e.message(), "unexpected input after the expression");
    let e = parse("").err().unwrap();
    assert_eq!(e.message(), "no expression could be read here");
}

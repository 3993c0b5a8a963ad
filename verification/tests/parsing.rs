use calc::parser::{parse_line, ParseError, Parser};
use calc::repr::{Expr, Operation, Operator};

fn num(t: &str) -> Expr {
    Expr::Num(t.to_string())
}

fn node(op: Operator, params: Vec<Expr>) -> Expr {
    Expr::Op(Operation::new(op, params))
}

#[test]
fn parse_spaces() {
    for (input, output) in [
        ("abc", "abc"),
        (" abc", "abc"),
        ("  abc", "abc"), //
    ] {
        let mut p = Parser::new(input);
        p.spaces();
        assert_eq!(p.rest(), output, "input was {input:?}",);
    }
}

#[test]
fn parse_float() {
    for (input, expected) in [
        ("1", Some(("1", ""))),
        ("1.2", Some(("1.2", ""))),
        ("-1.2", Some(("-1.2", ""))),
        ("-1.2 ", Some(("-1.2", " "))),
        ("-1.2+3.4", Some(("-1.2", "+3.4"))),
        ("-1.5.abc", Some(("-1.5", ".abc"))),
        ("-1.abc", Some(("-1", ".abc"))),
        ("+1.2", None),
    ] {
        let mut p = Parser::new(input);

        let res = p.float();
        if let Some((output, rest)) = expected {
            assert_eq!(
                (res.as_deref(), p.rest()),
                (Some(output), rest),
                "parsing failed for {input:?}"
            );
        } else {
            assert_eq!(res, None, "parsing did not fail for {input:?}");
        }
    }
}

#[test]
fn parser_next_and_consume() {
    let mut p = Parser::new("ab");
    assert_eq!(p.consume('b'), None);
    assert_eq!(p.next(), Some('a'));
    assert_eq!(p.consume('b'), Some(()));
    assert_eq!(p.next(), None);
    assert_eq!(p.rest(), "");
}

#[test]
fn add_2() {
    for (input, (a, b)) in [("1+2", ("1", "2")), ("1 + 2", ("1", "2"))] {
        assert_eq!(
            parse_line(input),
            Ok(node(Operator::Add, vec![num(a), num(b)])),
            "failed to parse {input:?}"
        );
    }
}

#[test]
fn add_2_paren() {
    for (input, (a, b)) in [
        ("(1)+2", ("1", "2")),
        ("1+(2)", ("1", "2")),
        ("(1)+(2)", ("1", "2")),
        ("(-1.5)+(-2.5)", ("-1.5", "-2.5")),
    ] {
        assert_eq!(
            parse_line(input),
            Ok(node(Operator::Add, vec![num(a), num(b)])),
            "failed to parse {input:?}"
        );
    }
}

#[test]
fn add_3() {
    for (input, (a, b, c)) in [("1+2+3", ("1", "2", "3")), ("1 + 2 + 3", ("1", "2", "3"))] {
        assert_eq!(
            parse_line(input),
            Ok(node(
                Operator::Add,
                vec![node(Operator::Add, vec![num(a), num(b)]), num(c)]
            )),
            "failed to parse {input:?}"
        );
    }
}

#[test]
fn add_4() {
    for (input, (a, b, c, d)) in [
        ("1+2+3+4", ("1", "2", "3", "4")),
        ("1 + 2 + 3 + 4", ("1", "2", "3", "4")),
    ] {
        // a + b + c + d = (((a + b) + c) + d)
        let ab = node(Operator::Add, vec![num(a), num(b)]);
        let abc = node(Operator::Add, vec![ab, num(c)]);
        let abcd = node(Operator::Add, vec![abc, num(d)]);
        assert_eq!(parse_line(input), Ok(abcd), "failed to parse {input:?}");
    }
}

#[test]
fn add_3_paren() {
    assert_eq!(
        parse_line("(1+2)+3"),
        Ok(node(
            Operator::Add,
            vec![node(Operator::Add, vec![num("1"), num("2")]), num("3")]
        )),
        "failed to parse {:?}",
        "(1+2)+3"
    );
    assert_eq!(
        parse_line("1+(2+3)"),
        Ok(node(
            Operator::Add,
            vec![num("1"), node(Operator::Add, vec![num("2"), num("3")])]
        )),
        "failed to parse {:?}",
        "1+(2+3)"
    );
}

#[test]
fn add_mul_order() {
    assert_eq!(
        parse_line("1*2+3"),
        Ok(node(
            Operator::Add,
            vec![node(Operator::Mul, vec![num("1"), num("2")]), num("3")]
        )),
        "failed to parse {:?}",
        "1*2+3"
    );
    assert_eq!(
        parse_line("1+2*3"),
        Ok(node(
            Operator::Add,
            vec![num("1"), node(Operator::Mul, vec![num("2"), num("3")])]
        )),
        "failed to parse {:?}",
        "1+2*3"
    );
}

#[test]
fn literal_parses_to_leaf() {
    for input in ["1", "-12.5", "0", "-0", "3.25"] {
        assert_eq!(
            parse_line(input),
            Ok(num(input)),
            "failed to parse {input:?}"
        );
    }
}

#[test]
fn whitespace_insensitive() {
    let spaced = parse_line("1 + 2");
    let tight = parse_line("1+2");
    assert!(spaced.is_ok());
    assert_eq!(spaced, tight);
}

#[test]
fn nested_parentheses() {
    assert_eq!(parse_line("((1))"), Ok(num("1")));
    assert_eq!(parse_line("((((((-2.5))))))"), Ok(num("-2.5")));
    assert_eq!(
        parse_line("((1+2))"),
        Ok(node(Operator::Add, vec![num("1"), num("2")]))
    );
}

#[test]
fn invalid_term_error() {
    let err = parse_line("1+*").unwrap_err();
    assert_eq!(err, ParseError::InvalidTerm("*".to_string()));
    assert_eq!(err.message(), "invalid term: \"*\"");
    assert_eq!(
        parse_line("1 + *"),
        Err(ParseError::InvalidTerm("*".to_string()))
    );
}

#[test]
fn empty_line_error() {
    assert_eq!(parse_line(""), Err(ParseError::InvalidTerm(String::new())));
    assert_eq!(parse_line("   "), Err(ParseError::InvalidTerm(String::new())));
}

#[test]
fn unconsumed_suffix_error() {
    let err = parse_line("1 2").unwrap_err();
    assert_eq!(err, ParseError::UnconsumedSuffix("2".to_string()));
    assert_eq!(err.message(), "unconsumed input: \"2\"");
    assert_eq!(
        parse_line("1)"),
        Err(ParseError::UnconsumedSuffix(")".to_string()))
    );
}

#[test]
fn unclosed_parenthesis_error() {
    let err = parse_line("(1+2").unwrap_err();
    assert_eq!(err, ParseError::UnclosedParenthesis(String::new()));
    assert_eq!(err.message(), "unclosed parenthesis: \"\"");
    assert_eq!(
        parse_line("(1 x"),
        Err(ParseError::UnclosedParenthesis("x".to_string()))
    );
}

#[test]
fn no_crash_on_strange_input() {
    for input in ["", "(", ")", "(((", "1+", "+1", "--1", "1..2", ".5", "a+b", "1+ ", "é", "1+é"] {
        assert!(parse_line(input).is_err(), "expected an error for {input:?}");
    }
}

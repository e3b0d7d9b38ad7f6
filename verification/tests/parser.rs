use sexpr::lexer::tokenize;
use sexpr::object::Object;
use sexpr::parser::{parse, parse_tokens, ParseError};
use sexpr::token::Token;

fn symbol(name: &str) -> Object {
    Object::Symbol(name.to_string())
}

/// A floating-point node by its spelling, after checking that the spelling
/// reads as the given number.
fn float(text: &str, value: f64) -> Object {
    assert_eq!(text.parse::<f64>().unwrap(), value);
    Object::Float(text.to_string())
}

fn message(result: Result<Object, ParseError>) -> String {
    match result {
        Ok(tree) => panic!("parsed to {:?}", tree),
        Err(e) => e.0,
    }
}

#[test]
fn parser_test_add() {
    let list = parse("(+ 1 2)").unwrap();
    assert_eq!(
        list,
        Object::List(vec![symbol("+"), Object::Integer(1), Object::Integer(2)])
    );
}

#[test]
fn test_booleans() {
    let list = parse("(and #t #f)").unwrap();
    assert_eq!(
        list,
        Object::List(vec![symbol("and"), Object::Bool(true), Object::Bool(false)]),
    );
}

#[test]
fn test_mult() {
    let list = parse("(* 1.2 2.4)").unwrap();
    assert_eq!(
        list,
        Object::List(vec![symbol("*"), float("1.2", 1.2), float("2.4", 2.4)])
    );
}

#[test]
fn parser_test_lambda() {
    let program = "(lambda (x y) (+ y x))";
    let list = parse(program).unwrap();
    assert_eq!(
        list,
        Object::List(vec![Object::Lambda(
            vec!["x".to_string(), "y".to_string()],
            vec![symbol("+"), symbol("y"), symbol("x")]
        ),]),
    );
}

#[test]
fn test_simple_nesting() {
    let program = "(* 1 (+ 2.3 5))";
    let list = parse(program).unwrap();
    assert_eq!(
        list,
        Object::List(vec![
            symbol("*"),
            Object::Integer(1),
            Object::List(vec![symbol("+"), float("2.3", 2.3), Object::Integer(5)])
        ])
    );
}

#[test]
fn test_list_of_lists() {
    let program = "((1 2 3) (4 5 6))";
    let list = parse(program).unwrap();
    assert_eq!(
        list,
        Object::List(vec![
            Object::List(vec![
                Object::Integer(1),
                Object::Integer(2),
                Object::Integer(3),
            ]),
            Object::List(vec![
                Object::Integer(4),
                Object::Integer(5),
                Object::Integer(6),
            ])
        ])
    );
}

#[test]
fn test_area_of_a_circle() {
    let program = "(
      (define r 10)
      (define pi 3.14)
      (* pi (* r r))
    )";

    let list = parse(program).unwrap();
    assert_eq!(
        list,
        Object::List(vec![
            Object::List(vec![symbol("define"), symbol("r"), Object::Integer(10)]),
            Object::List(vec![symbol("define"), symbol("pi"), float("3.14", 3.14)]),
            Object::List(vec![
                symbol("*"),
                symbol("pi"),
                Object::List(vec![symbol("*"), symbol("r"), symbol("r")]),
            ]),
        ])
    );
}

#[test]
fn empty_list_parses_to_no_items() {
    assert_eq!(parse("()").unwrap(), Object::List(vec![]));
    assert_eq!(parse("  \n ( )").unwrap(), Object::List(vec![]));
}

#[test]
fn strings_become_string_nodes() {
    assert_eq!(
        parse("(print \"hello world\" \"\")").unwrap(),
        Object::List(vec![
            symbol("print"),
            Object::String("hello world".to_string()),
            Object::String(String::new()),
        ])
    );
}

#[test]
fn children_keep_source_order_and_count() {
    let tree = parse("(a (b c) 1 \"s\" #t 2.5 (d))").unwrap();
    match tree {
        Object::List(items) => {
            assert_eq!(items.len(), 7);
            assert_eq!(items[0], symbol("a"));
            assert_eq!(items[1], Object::List(vec![symbol("b"), symbol("c")]));
            assert_eq!(items[2], Object::Integer(1));
            assert_eq!(items[3], Object::String("s".to_string()));
            assert_eq!(items[4], Object::Bool(true));
            assert_eq!(items[5], float("2.5", 2.5));
            assert_eq!(items[6], Object::List(vec![symbol("d")]));
        }
        other => panic!("not a list: {:?}", other),
    }
}

#[test]
fn only_exact_truth_words_are_booleans() {
    assert_eq!(
        parse("(#t #f #T #F #true #tt # t)").unwrap(),
        Object::List(vec![
            Object::Bool(true),
            Object::Bool(false),
            symbol("#T"),
            symbol("#F"),
            symbol("#true"),
            symbol("#tt"),
            symbol("#"),
            symbol("t"),
        ])
    );
}

#[test]
fn tokens_after_the_closing_parenthesis_are_ignored() {
    assert_eq!(
        parse("(1 2) 3 (4").unwrap(),
        Object::List(vec![Object::Integer(1), Object::Integer(2)])
    );
    assert_eq!(parse("() )))").unwrap(), Object::List(vec![]));
}

#[test]
fn input_without_tokens_is_an_error() {
    assert_eq!(message(parse("")), "expected `(`, found end of input");
    assert_eq!(message(parse(" \n  ")), "expected `(`, found end of input");
    assert_eq!(
        message(parse_tokens(vec![])),
        "expected `(`, found end of input"
    );
}

#[test]
fn input_that_does_not_open_a_list_is_an_error() {
    assert_eq!(message(parse("+ 1 2)")), "expected `(`, found +");
    assert_eq!(message(parse("42 ")), "expected `(`, found 42");
    assert_eq!(message(parse("-17)")), "expected `(`, found -17");
    assert_eq!(message(parse("2.50 ")), "expected `(`, found 2.50");
    assert_eq!(message(parse(")")), "expected `(`, found )");
    assert_eq!(message(parse("\"text\" (1)")), "expected `(`, found text");
    assert_eq!(message(parse("lambda (x) (x))")), "expected `(`, found lambda");
    assert_eq!(message(parse("#t ")), "expected `(`, found #t");
}

#[test]
fn unclosed_lists_are_an_error() {
    let missing = "unexpected end of input: missing `)`";
    assert_eq!(message(parse("(")), missing);
    assert_eq!(message(parse("(+ 1 2")), missing);
    assert_eq!(message(parse("(+ 1 (2 3)")), missing);
    assert_eq!(message(parse("((((")), missing);
    assert_eq!(message(parse("(a \"b")), missing);
    assert_eq!(message(parse("(lambda (x) (x)")), missing);
    assert_eq!(message(parse("(lambda")), missing);
}

#[test]
fn lambda_takes_the_rest_of_its_list() {
    assert_eq!(
        parse("(f lambda (x) (x))").unwrap(),
        Object::List(vec![
            symbol("f"),
            Object::Lambda(vec!["x".to_string()], vec![symbol("x")]),
        ])
    );
    assert_eq!(
        parse("((lambda (x) (* 2 x)) 5)").unwrap(),
        Object::List(vec![
            Object::List(vec![Object::Lambda(
                vec!["x".to_string()],
                vec![symbol("*"), Object::Integer(2), symbol("x")]
            )]),
            Object::Integer(5),
        ])
    );
}

#[test]
fn lambda_may_have_no_parameters_and_an_empty_body() {
    assert_eq!(
        parse("(lambda () ())").unwrap(),
        Object::List(vec![Object::Lambda(vec![], vec![])])
    );
}

#[test]
fn lambda_body_may_hold_a_lambda() {
    assert_eq!(
        parse("(lambda (x) (lambda (y) (+ x y)))").unwrap(),
        Object::List(vec![Object::Lambda(
            vec!["x".to_string()],
            vec![Object::Lambda(
                vec!["y".to_string()],
                vec![symbol("+"), symbol("x"), symbol("y")]
            )]
        )])
    );
}

#[test]
fn malformed_lambdas_are_an_error() {
    let malformed = "malformed lambda expression";
    // No parameter list or no body.
    assert_eq!(message(parse("(lambda)")), malformed);
    assert_eq!(message(parse("(lambda (x))")), malformed);
    // More than the two parts.
    assert_eq!(message(parse("(lambda (x) (y) (z))")), malformed);
    assert_eq!(message(parse("(lambda (x) (y) 5)")), malformed);
    // Parts that are not lists.
    assert_eq!(message(parse("(lambda x (x))")), malformed);
    assert_eq!(message(parse("(lambda (x) x)")), malformed);
    // Parameters that are not symbols.
    assert_eq!(message(parse("(lambda (1) (x))")), malformed);
    assert_eq!(message(parse("(lambda (x 2.5) (x))")), malformed);
    assert_eq!(message(parse("(lambda (x \"y\") (x))")), malformed);
    assert_eq!(message(parse("(lambda (#t) (x))")), malformed);
    assert_eq!(message(parse("(lambda ((x)) (x))")), malformed);
    assert_eq!(message(parse("(lambda lambda (x) (x))")), malformed);
}

#[test]
fn the_first_failure_is_reported() {
    // The lambda is malformed where its list closes; the outer list is still open.
    assert_eq!(message(parse("((lambda (1) (x)) (")), "malformed lambda expression");
    // The tokens run out inside the lambda, before its shape is looked at.
    assert_eq!(
        message(parse("(lambda (1) (x)")),
        "unexpected end of input: missing `)`"
    );
}

#[test]
fn error_text_has_a_fixed_prefix() {
    let error = parse("(").unwrap_err();
    assert_eq!(
        error.to_text(),
        "invalid expression: unexpected end of input: missing `)`"
    );
    assert_eq!(ParseError("x".to_string()).to_text(), "invalid expression: x");
    assert_eq!(ParseError(String::new()).to_text(), "invalid expression: ");
}

#[test]
fn parse_is_parse_tokens_after_tokenize() {
    for text in ["(+ 1 2)", "(lambda (x) (x))", "(a (b", "x", "", "(lambda 1)"] {
        let direct = parse(text).map_err(|e| e.0);
        let staged = parse_tokens(tokenize(text)).map_err(|e| e.0);
        assert_eq!(direct, staged);
    }
}

#[test]
fn parse_tokens_reads_tokens_built_by_hand() {
    let tokens = vec![
        Token::LParen,
        Token::Symbol("#t".to_string()),
        Token::String("#t".to_string()),
        Token::Float("1e3".to_string()),
        Token::LParen,
        Token::RParen,
        Token::RParen,
    ];
    assert_eq!(
        parse_tokens(tokens).unwrap(),
        Object::List(vec![
            Object::Bool(true),
            Object::String("#t".to_string()),
            Object::Float("1e3".to_string()),
            Object::List(vec![]),
        ])
    );
}

#[test]
fn parsing_twice_gives_equal_trees() {
    for text in ["(* 1 (+ 2.3 5))", "(lambda (x y) (+ y x))", "((", "(lambda (1) (x))"] {
        let first = parse(text).map_err(|e| e.0);
        let second = parse(text).map_err(|e| e.0);
        assert_eq!(first, second);
    }
}

#[test]
fn deep_nesting_does_not_exhaust_the_call_stack() {
    let depth = 2_000;
    let mut text = String::new();
    for _ in 0..depth {
        text.push('(');
    }
    for _ in 0..depth {
        text.push(')');
    }
    let mut tree = parse(&text).unwrap();
    let mut seen = 1;
    loop {
        match tree {
            Object::List(mut items) => {
                if items.is_empty() {
                    break;
                }
                assert_eq!(items.len(), 1);
                tree = items.pop().unwrap();
                seen += 1;
            }
            other => panic!("not a list: {:?}", other),
        }
    }
    assert_eq!(seen, depth);
}

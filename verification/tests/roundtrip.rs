use sexpr::object::Object;
use sexpr::parser::{parse, parse_tokens};
use sexpr::token::Token;

fn symbol(name: &str) -> Object {
    Object::Symbol(name.to_string())
}

fn names(list: &[&str]) -> Vec<String> {
    list.iter().map(|name| name.to_string()).collect()
}

fn samples() -> Vec<Object> {
    vec![
        Object::List(vec![]),
        Object::List(vec![Object::Integer(0)]),
        Object::List(vec![
            symbol("+"),
            Object::Integer(1),
            Object::Integer(-2),
            Object::Integer(i64::MAX),
            Object::Integer(i64::MIN),
        ]),
        Object::List(vec![
            symbol("*"),
            Object::Float("1.2".to_string()),
            Object::Float("-2.5e3".to_string()),
            Object::Float("inf".to_string()),
        ]),
        Object::List(vec![
            symbol("and"),
            Object::Bool(true),
            Object::Bool(false),
        ]),
        Object::List(vec![
            Object::String("foo".to_string()),
            Object::String(String::new()),
            Object::String("a (b) c".to_string()),
        ]),
        Object::List(vec![
            Object::List(vec![
                Object::List(vec![]),
                Object::List(vec![Object::List(vec![symbol("x")])]),
            ]),
            symbol("y"),
        ]),
        Object::List(vec![Object::Lambda(
            names(&["x", "y"]),
            vec![symbol("+"), symbol("y"), symbol("x")],
        )]),
        Object::List(vec![
            symbol("define"),
            symbol("twice"),
            Object::Lambda(
                names(&["f"]),
                vec![Object::Lambda(
                    names(&["x"]),
                    vec![
                        symbol("f"),
                        Object::List(vec![symbol("f"), symbol("x")]),
                    ],
                )],
            ),
        ]),
        Object::List(vec![Object::Lambda(vec![], vec![])]),
    ]
}

#[test]
fn trees_are_written_as_text() {
    let expected = [
        "()",
        "(0)",
        "(+ 1 -2 9223372036854775807 -9223372036854775808)",
        "(* 1.2 -2.5e3 inf)",
        "(and #t #f)",
        "(\"foo\" \"\" \"a (b) c\")",
        "((() ((x))) y)",
        "(lambda (x y) (+ y x))",
        "(define twice lambda (f) (lambda (x) (f (f x))))",
        "(lambda () ())",
    ];
    let trees = samples();
    assert_eq!(trees.len(), expected.len());
    for (tree, text) in trees.iter().zip(expected) {
        assert_eq!(tree.to_text(), text);
    }
}

#[test]
fn atoms_are_written_as_text() {
    assert_eq!(Object::Integer(-40).to_text(), "-40");
    assert_eq!(Object::Float("2.50".to_string()).to_text(), "2.50");
    assert_eq!(symbol("car").to_text(), "car");
    assert_eq!(Object::String("a b".to_string()).to_text(), "\"a b\"");
    assert_eq!(Object::Bool(true).to_text(), "#t");
    assert_eq!(Object::Bool(false).to_text(), "#f");
    assert_eq!(
        Object::Lambda(names(&["x"]), vec![symbol("x")]).to_text(),
        "lambda (x) (x)"
    );
}

#[test]
fn written_text_parses_back_to_the_tree() {
    for tree in samples() {
        let text = tree.to_text();
        let again = parse(&text).unwrap();
        assert_eq!(again, tree, "{}", text);
        match (&again, &tree) {
            (Object::List(read), Object::List(written)) => assert_eq!(read.len(), written.len()),
            _ => panic!("not a list: {}", text),
        }
    }
}

#[test]
fn parsed_text_is_written_back_one_space_apart() {
    let tree = parse("  (define   (r)\n 10 \"a  b\"   (lambda (x)   (x)))  trailing").unwrap();
    assert_eq!(tree.to_text(), "(define (r) 10 \"a  b\" (lambda (x) (x)))");
}

#[test]
fn the_text_of_a_parsed_tree_parses_to_the_same_tree() {
    for text in [
        "(+ 1 2)",
        "(and #t #f)",
        "(lambda (x y) (+ y x))",
        "(* 1 (+ 2.3 5))",
        "((1 2 3) (4 5 6))",
        "(\n (define r 10)\n (define pi 3.14)\n (* pi (* r r))\n)",
        "(a\"b (c",
        "(x\ny z) w",
        "(-.5e-3 +inf 1x 007 -0 +5 \"()\" #t#f)",
        "(f lambda () ())",
    ] {
        match parse(text) {
            Ok(tree) => assert_eq!(parse(&tree.to_text()).unwrap(), tree, "{:?}", text),
            Err(_) => assert_eq!(text, "(a\"b (c"),
        }
    }
}

#[test]
fn tokens_of_a_tree_parse_back_to_the_tree() {
    // ( a ( 1 ) lambda ( x ) ( #t ) ) and then more
    let tokens = vec![
        Token::LParen,
        Token::Symbol("a".to_string()),
        Token::LParen,
        Token::Integer(1),
        Token::RParen,
        Token::Lambda,
        Token::LParen,
        Token::Symbol("x".to_string()),
        Token::RParen,
        Token::LParen,
        Token::Symbol("#t".to_string()),
        Token::RParen,
        Token::RParen,
        Token::Symbol("more".to_string()),
        Token::RParen,
    ];
    assert_eq!(
        parse_tokens(tokens).unwrap(),
        Object::List(vec![
            symbol("a"),
            Object::List(vec![Object::Integer(1)]),
            Object::Lambda(names(&["x"]), vec![Object::Bool(true)]),
        ])
    );
}

#[test]
fn tokens_that_never_close_the_first_list_do_not_parse() {
    // After every token from the second on, a list is open.
    let open = vec![
        Token::LParen,
        Token::LParen,
        Token::RParen,
        Token::Integer(1),
        Token::LParen,
        Token::LParen,
        Token::RParen,
    ];
    assert!(parse_tokens(open).is_err());
    // Closing it makes the same tokens parse.
    let closed = vec![
        Token::LParen,
        Token::LParen,
        Token::RParen,
        Token::Integer(1),
        Token::LParen,
        Token::LParen,
        Token::RParen,
        Token::RParen,
        Token::RParen,
    ];
    assert!(parse_tokens(closed).is_ok());
}

#[test]
fn text_that_does_not_open_with_a_parenthesis_does_not_parse() {
    for text in ["", " ", "\n", "a", " a (b)", ") (", "\"(\" (a)", "1 (2)", "\t(a)", "lambda (x) (x)"] {
        assert!(parse(text).is_err(), "{:?}", text);
    }
    for text in ["()", " ()", "\n\n (a)", "(a) b"] {
        assert!(parse(text).is_ok(), "{:?}", text);
    }
}

#[test]
fn a_copy_is_equal_and_its_own() {
    for tree in samples() {
        let copy = tree.clone();
        assert_eq!(copy, tree);
        assert_eq!(copy.to_text(), tree.to_text());
    }
    let mut copy = Object::List(vec![symbol("a")]);
    let tree = copy.clone();
    if let Object::List(items) = &mut copy {
        items.push(symbol("b"));
    }
    assert_eq!(tree, Object::List(vec![symbol("a")]));
    assert_eq!(copy, Object::List(vec![symbol("a"), symbol("b")]));
}

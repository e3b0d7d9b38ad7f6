use sexpr::lexer::{classify_word, tokenize};
use sexpr::token::Token;

fn symbol(name: &str) -> Token {
    Token::Symbol(name.to_string())
}

fn string(text: &str) -> Token {
    Token::String(text.to_string())
}

/// A floating-point token by its spelling, after checking that the spelling
/// reads as the given number.
fn float(text: &str, value: f64) -> Token {
    assert_eq!(text.parse::<f64>().unwrap(), value);
    Token::Float(text.to_string())
}

fn word(text: &str) -> Token {
    let chars: Vec<char> = text.chars().collect();
    classify_word(&chars)
}

#[test]
fn lexer_test_string() {
    let tokens_1 = tokenize("(\"foo\")");
    assert_eq!(tokens_1, vec![Token::LParen, string("foo"), Token::RParen,]);
    let tokens_2 = tokenize("(\"foo\" \"bar\" \"baz\")");
    assert_eq!(
        tokens_2,
        vec![
            Token::LParen,
            string("foo"),
            string("bar"),
            string("baz"),
            Token::RParen,
        ]
    );
}

#[test]
fn two_strings_in_a_list() {
    assert_eq!(
        tokenize("(\"foo\" \"bar\")"),
        vec![Token::LParen, string("foo"), string("bar"), Token::RParen]
    );
}

#[test]
fn lexer_test_add() {
    let tokens = tokenize("(+ 1 2)");
    assert_eq!(
        tokens,
        vec![
            Token::LParen,
            symbol("+"),
            Token::Integer(1),
            Token::Integer(2),
            Token::RParen,
        ]
    );
}

#[test]
fn lexer_test_lambda() {
    let tokens = tokenize("(lambda (x) (* 2 x))");
    assert_eq!(
        tokens,
        vec![
            Token::LParen,
            Token::Lambda,
            Token::LParen,
            symbol("x"),
            Token::RParen,
            Token::LParen,
            symbol("*"),
            Token::Integer(2),
            symbol("x"),
            Token::RParen,
            Token::RParen,
        ]
    );
}

#[test]
fn test_bool() {
    let program = "(#t #f)";
    let tokens = tokenize(program);
    assert_eq!(
        tokens,
        vec![Token::LParen, symbol("#t"), symbol("#f"), Token::RParen,]
    );
}

#[test]
fn lexer_test_area_of_circle() {
    let program = "
            (
                (define r 10)
                (define pi 3.14)
                (* pi (* r r))
            )
        ";

    let tokens = tokenize(program);
    assert_eq!(
        tokens,
        vec![
            Token::LParen,
            Token::LParen,
            symbol("define"),
            symbol("r"),
            Token::Integer(10),
            Token::RParen,
            Token::LParen,
            symbol("define"),
            symbol("pi"),
            float("3.14", 3.14),
            Token::RParen,
            Token::LParen,
            symbol("*"),
            symbol("pi"),
            Token::LParen,
            symbol("*"),
            symbol("r"),
            symbol("r"),
            Token::RParen,
            Token::RParen,
            Token::RParen,
        ],
    );
}

#[test]
fn empty_and_blank_text_have_no_tokens() {
    assert_eq!(tokenize(""), vec![]);
    assert_eq!(tokenize("   \n\n  "), vec![]);
}

#[test]
fn parentheses_need_no_spaces() {
    assert_eq!(
        tokenize("(()())"),
        vec![
            Token::LParen,
            Token::LParen,
            Token::RParen,
            Token::LParen,
            Token::RParen,
            Token::RParen,
        ]
    );
}

#[test]
fn a_word_at_the_end_of_the_text_is_a_token() {
    assert_eq!(tokenize("abc"), vec![symbol("abc")]);
    assert_eq!(tokenize("(+ 1 2"), vec![Token::LParen, symbol("+"), Token::Integer(1), Token::Integer(2)]);
    assert_eq!(tokenize("x"), vec![symbol("x")]);
    assert_eq!(tokenize("lambda"), vec![Token::Lambda]);
    assert_eq!(tokenize("1.5"), vec![float("1.5", 1.5)]);
}

#[test]
fn an_unterminated_string_is_a_token() {
    assert_eq!(tokenize("\"abc"), vec![string("abc")]);
    assert_eq!(tokenize("(\"a b)"), vec![Token::LParen, string("a b)")]);
    assert_eq!(tokenize("\""), vec![string("")]);
}

#[test]
fn strings_keep_every_character_but_the_quotes() {
    assert_eq!(
        tokenize("\"a (b) \n c\\\" d"),
        vec![string("a (b) \n c\\"), symbol("d")]
    );
    assert_eq!(tokenize("\"\"\"\""), vec![string(""), string("")]);
    assert_eq!(tokenize("\"12\" \"lambda\""), vec![string("12"), string("lambda")]);
}

#[test]
fn the_parenthesis_that_ends_a_word_is_a_token() {
    assert_eq!(tokenize("ab)"), vec![symbol("ab"), Token::RParen]);
    assert_eq!(tokenize("lambda)"), vec![Token::Lambda, Token::RParen]);
    assert_eq!(tokenize("7))"), vec![Token::Integer(7), Token::RParen, Token::RParen]);
}

#[test]
fn only_a_space_or_a_closing_parenthesis_ends_a_word() {
    assert_eq!(tokenize("a(b c"), vec![symbol("a(b"), symbol("c")]);
    assert_eq!(tokenize("a\"b\" c"), vec![symbol("a\"b\""), symbol("c")]);
    assert_eq!(tokenize("a\nb c"), vec![symbol("a\nb"), symbol("c")]);
    assert_eq!(tokenize("a\tb"), vec![symbol("a\tb")]);
    assert_eq!(tokenize("\ta"), vec![symbol("\ta")]);
}

#[test]
fn text_outside_ascii_is_kept() {
    assert_eq!(
        tokenize("(λ \"héllo\" 日本)"),
        vec![
            Token::LParen,
            symbol("λ"),
            string("héllo"),
            symbol("日本"),
            Token::RParen
        ]
    );
}

#[test]
fn the_reserved_word_is_exact() {
    assert_eq!(word("lambda"), Token::Lambda);
    assert_eq!(word("Lambda"), symbol("Lambda"));
    assert_eq!(word("lambdas"), symbol("lambdas"));
    assert_eq!(word("lambd"), symbol("lambd"));
    assert_eq!(word("lambdA"), symbol("lambdA"));
}

#[test]
fn integers_are_signed_digit_runs_that_fit() {
    assert_eq!(word("0"), Token::Integer(0));
    assert_eq!(word("42"), Token::Integer(42));
    assert_eq!(word("+42"), Token::Integer(42));
    assert_eq!(word("-42"), Token::Integer(-42));
    assert_eq!(word("007"), Token::Integer(7));
    assert_eq!(word("-0"), Token::Integer(0));
    assert_eq!(word("9223372036854775807"), Token::Integer(i64::MAX));
    assert_eq!(word("-9223372036854775808"), Token::Integer(i64::MIN));
    assert_eq!(
        word("00000000000000000000000000009223372036854775807"),
        Token::Integer(i64::MAX)
    );
}

#[test]
fn integers_that_do_not_fit_are_floats() {
    assert_eq!(
        word("9223372036854775808"),
        float("9223372036854775808", 9223372036854775808.0)
    );
    assert_eq!(
        word("-9223372036854775809"),
        float("-9223372036854775809", -9223372036854775809.0)
    );
    assert_eq!(
        word("123456789012345678901234567890"),
        float("123456789012345678901234567890", 123456789012345678901234567890.0)
    );
}

#[test]
fn floats_follow_the_decimal_grammar() {
    assert_eq!(word("3.14"), float("3.14", 3.14));
    assert_eq!(word("-3.14"), float("-3.14", -3.14));
    assert_eq!(word("+3.14"), float("+3.14", 3.14));
    assert_eq!(word("5."), float("5.", 5.0));
    assert_eq!(word(".5"), float(".5", 0.5));
    assert_eq!(word("-.5"), float("-.5", -0.5));
    assert_eq!(word("1e5"), float("1e5", 100000.0));
    assert_eq!(word("1E5"), float("1E5", 100000.0));
    assert_eq!(word("1e+5"), float("1e+5", 100000.0));
    assert_eq!(word("25e-1"), float("25e-1", 2.5));
    assert_eq!(word("2.5e3"), float("2.5e3", 2500.0));
    assert_eq!(word(".5e1"), float(".5e1", 5.0));
    assert_eq!(word("5.e1"), float("5.e1", 50.0));
    assert_eq!(word("0.0"), float("0.0", 0.0));
}

#[test]
fn floats_have_three_names() {
    for text in ["inf", "+inf", "INF", "Inf", "infinity", "Infinity", "+INFINITY"] {
        assert_eq!(word(text), float(text, f64::INFINITY));
    }
    for text in ["-inf", "-Infinity"] {
        assert_eq!(word(text), float(text, f64::NEG_INFINITY));
    }
    for text in ["nan", "NaN", "-nan", "+NAN"] {
        assert!(text.parse::<f64>().unwrap().is_nan());
        assert_eq!(word(text), Token::Float(text.to_string()));
    }
}

#[test]
fn other_words_are_symbols() {
    for text in [
        "+", "-", ".", "+.", "-.", "e", "e5", "1e", "1e+", "1e-", "1e5.", "1e5e5", "1.2.3", "1..2",
        "1x", "x1", "0x10", "1_000", "1,5", "--1", "+-1", "1-", "1+", "in", "infi", "infinit",
        "infinityy", "na", "nann", "i", ".e1", "+.e1", "1 ", "#t", "#f", "*", "<=", "define",
        "١٢٣", "1٢",
    ] {
        assert!(text.parse::<i64>().is_err(), "{:?}", text);
        assert!(text.parse::<f64>().is_err(), "{:?}", text);
        if text.contains(' ') {
            continue;
        }
        assert_eq!(word(text), symbol(text), "{:?}", text);
    }
}

/// What the number readers of std make of a word.
fn expected(text: &str) -> Token {
    if text == "lambda" {
        return Token::Lambda;
    }
    match text.parse::<i64>() {
        Ok(n) => Token::Integer(n),
        Err(_) => match text.parse::<f64>() {
            Ok(_) => Token::Float(text.to_string()),
            Err(_) => Token::Symbol(text.to_string()),
        },
    }
}

/// Checks every word of up to `length` characters over `alphabet`.
fn check_all_words(alphabet: &[char], length: usize) {
    let mut digits: Vec<usize> = vec![0];
    loop {
        let text: String = digits.iter().map(|&d| alphabet[d]).collect();
        assert_eq!(word(&text), expected(&text), "{:?}", text);
        let mut place = digits.len();
        loop {
            if place == 0 {
                if digits.len() == length {
                    return;
                }
                digits = vec![0; digits.len() + 1];
                break;
            }
            place -= 1;
            if digits[place] + 1 < alphabet.len() {
                digits[place] += 1;
                break;
            }
            digits[place] = 0;
        }
    }
}

#[test]
fn short_words_over_number_characters_are_classified_as_std_reads_them() {
    check_all_words(
        &['0', '7', '+', '-', '.', 'e', 'E', 'i', 'n', 'f', 'a', 'N', 'x'],
        5,
    );
}

#[test]
fn words_of_two_characters_are_classified_as_std_reads_them() {
    let printable: Vec<char> = (33u8..127).map(|b| b as char).filter(|&c| c != ')').collect();
    check_all_words(&printable, 2);
}

#[test]
fn long_numbers_are_classified_as_std_reads_them() {
    for text in [
        "100000000000000000000000000000000000000000000000000000000000000000000000000000000",
        "-0.000000000000000000000000000000000000000000000000000000000000000000000000000001",
        "1e400",
        "-1e400",
        "1e-400",
        "1e99999999999999999999999",
        "4.9406564584124654e-324",
        "1.7976931348623157e308",
        "0000000000000000000000000000000000000000000000000000000000000000000000000000001.5",
        "+00000000000000000000000000000000000000000000000000000000000000000000000000000042",
        "iNfInItY",
        "+nAn",
        "infinit",
        "infinityy",
        "12345678901234567890e",
        "18446744073709551616",
        "-18446744073709551616",
    ] {
        assert_eq!(word(text), expected(text), "{:?}", text);
    }
}

#[test]
fn every_token_of_a_text_is_classified_as_its_spelling() {
    let text = "(a 1 2.5 \"s\" lambda inf -7 +x 1e5 (b))";
    for token in tokenize(text) {
        match &token {
            Token::Float(spelling) => {
                assert!(spelling.parse::<i64>().is_err());
                assert!(spelling.parse::<f64>().is_ok());
                assert_eq!(word(spelling), token);
            }
            Token::Symbol(spelling) => {
                assert!(spelling.parse::<f64>().is_err());
                assert_eq!(word(spelling), token);
            }
            Token::String(contents) => assert!(!contents.contains('"')),
            _ => {}
        }
    }
}

#[test]
fn tokenizing_twice_gives_equal_tokens() {
    for text in ["(+ 1 2)", "(\"foo\" \"bar\")", "(lambda (x) 1.5", "\"open"] {
        assert_eq!(tokenize(text), tokenize(text));
    }
}

#[test]
fn tokens_show_as_text() {
    assert_eq!(Token::Integer(0).to_text(), "0");
    assert_eq!(Token::Integer(7).to_text(), "7");
    assert_eq!(Token::Integer(10).to_text(), "10");
    assert_eq!(Token::Integer(-1).to_text(), "-1");
    assert_eq!(Token::Integer(1234567890).to_text(), "1234567890");
    assert_eq!(Token::Integer(i64::MAX).to_text(), "9223372036854775807");
    assert_eq!(Token::Integer(i64::MIN).to_text(), "-9223372036854775808");
    assert_eq!(Token::Float("3.140".to_string()).to_text(), "3.140");
    assert_eq!(symbol("define").to_text(), "define");
    assert_eq!(string("a b").to_text(), "a b");
    assert_eq!(Token::LParen.to_text(), "(");
    assert_eq!(Token::RParen.to_text(), ")");
    assert_eq!(Token::Lambda.to_text(), "lambda");
}

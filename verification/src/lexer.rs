//! The lexer: from source text to a flat run of tokens.
//!
//! Lexing never fails. A string or a word that the end of the text cuts short
//! still gives its token, made of what was read.

use crate::numeral::{integer_of, is_float_literal, is_float_word, parse_integer};
use crate::text::string_of;
use crate::token::{token_views, Token, TokenView};
use vstd::prelude::*;
use vstd::std_specs::iter::IteratorSpec;

verus! {

/// A character that separates tokens and gives none: a space or a newline.
pub open spec fn is_blank(c: char) -> bool {
    c == ' ' || c == '\n'
}

/// A character that ends a bare word: a space or a closing parenthesis.
pub open spec fn ends_word(c: char) -> bool {
    c == ' ' || c == ')'
}

/// Where the string contents that start at `from` end: at the next double
/// quote, or at the end of the text when there is none.
pub open spec fn string_end(s: Seq<char>, from: int) -> int
    decreases s.len() - from,
{
    if 0 <= from < s.len() && s[from] != '"' {
        string_end(s, from + 1)
    } else {
        from
    }
}

/// Where the bare word that runs through `from` ends: at the next space or
/// closing parenthesis, or at the end of the text when there is none.
pub open spec fn word_end(s: Seq<char>, from: int) -> int
    decreases s.len() - from,
{
    if 0 <= from < s.len() && !ends_word(s[from]) {
        word_end(s, from + 1)
    } else {
        from
    }
}

/// A spelling that is read as one bare word: it is not empty, does not begin
/// with a blank, an opening parenthesis or a double quote, and holds no space
/// and no closing parenthesis.
pub open spec fn is_word(w: Seq<char>) -> bool {
    &&& w.len() > 0
    &&& !is_blank(w[0])
    &&& w[0] != '('
    &&& w[0] != '"'
    &&& forall|i: int| 0 <= i < w.len() ==> !ends_word(#[trigger] w[i])
}

/// The token a bare word stands for. The reserved word comes first, then
/// integers, then floating-point literals; any other word is a symbol.
pub open spec fn classify(word: Seq<char>) -> TokenView {
    if word == "lambda"@ {
        TokenView::Lambda
    } else if integer_of(word) is Some {
        TokenView::Integer(integer_of(word).unwrap())
    } else if is_float_literal(word) {
        TokenView::Float(word)
    } else {
        TokenView::Symbol(word)
    }
}

/// The tokens of the text from position `from` on.
pub open spec fn lex_from(s: Seq<char>, from: int) -> Seq<TokenView>
    decreases s.len() - from,
{
    if from < 0 || from >= s.len() {
        Seq::empty()
    } else if is_blank(s[from]) {
        lex_from(s, from + 1)
    } else if s[from] == '(' {
        seq![TokenView::LParen] + lex_from(s, from + 1)
    } else if s[from] == ')' {
        seq![TokenView::RParen] + lex_from(s, from + 1)
    } else if s[from] == '"' {
        let end = string_end(s, from + 1);
        proof {
            lemma_string_end(s, from + 1);
        }
        let rest = if end < s.len() {
            lex_from(s, end + 1)
        } else {
            Seq::empty()
        };
        seq![TokenView::String(s.subrange(from + 1, end))] + rest
    } else {
        let end = word_end(s, from + 1);
        proof {
            lemma_word_end(s, from + 1);
        }
        let word = classify(s.subrange(from, end));
        if end >= s.len() {
            seq![word]
        } else if s[end] == ')' {
            seq![word, TokenView::RParen] + lex_from(s, end + 1)
        } else {
            seq![word] + lex_from(s, end + 1)
        }
    }
}

/// The tokens of a text.
pub open spec fn tokens_of(s: Seq<char>) -> Seq<TokenView> {
    lex_from(s, 0)
}

/// String contents end inside the text, at a double quote or at the very end,
/// and hold no double quote.
pub proof fn lemma_string_end(s: Seq<char>, from: int)
    requires
        0 <= from <= s.len(),
    ensures
        from <= string_end(s, from) <= s.len(),
        string_end(s, from) < s.len() ==> s[string_end(s, from)] == '"',
        forall|k: int| from <= k < string_end(s, from) ==> s[k] != '"',
    decreases s.len() - from,
{
    if from < s.len() && s[from] != '"' {
        lemma_string_end(s, from + 1);
    }
}

/// A word ends inside the text, at a space or a closing parenthesis or at the
/// very end, and holds neither of the two.
pub proof fn lemma_word_end(s: Seq<char>, from: int)
    requires
        0 <= from <= s.len(),
    ensures
        from <= word_end(s, from) <= s.len(),
        word_end(s, from) < s.len() ==> ends_word(s[word_end(s, from)]),
        forall|k: int| from <= k < word_end(s, from) ==> !ends_word(s[k]),
    decreases s.len() - from,
{
    if from < s.len() && !ends_word(s[from]) {
        lemma_word_end(s, from + 1);
    }
}

/// Tells whether a word is the reserved word.
fn is_lambda_word(word: &Vec<char>) -> (yes: bool)
    ensures
        yes == (word@ == "lambda"@),
{
    proof {
        reveal_strlit("lambda");
    }
    let yes: bool = word.len() == 6 && word[0] == 'l' && word[1] == 'a' && word[2] == 'm'
        && word[3] == 'b' && word[4] == 'd' && word[5] == 'a';
    proof {
        if yes {
            assert(word@ =~= "lambda"@);
        }
    }
    yes
}

/// The token that a bare word stands for.
pub fn classify_word(word: &Vec<char>) -> (token: Token)
    ensures
        token@ == classify(word@),
{
    if is_lambda_word(word) {
        Token::Lambda
    } else {
        match parse_integer(word) {
            Some(n) => Token::Integer(n),
            None => {
                if is_float_word(word) {
                    Token::Float(string_of(word))
                } else {
                    Token::Symbol(string_of(word))
                }
            },
        }
    }
}

/// Splits source text into tokens.
///
/// Spaces and newlines separate tokens. Each parenthesis is a token. A double
/// quote opens a string that runs to the next double quote, with no escapes.
/// Any other character opens a bare word that runs to the next space or
/// closing parenthesis; the parenthesis that ends a word is a token too.
pub fn tokenize(input: &str) -> (tokens: Vec<Token>)
    ensures
        token_views(tokens@) == tokens_of(input@),
        all_lexed(token_views(tokens@)),
{
    let ghost s = input@;
    let mut chars = input.chars();
    let mut tokens: Vec<Token> = Vec::new();
    let ghost mut at: int = 0;
    assert(s.skip(0) =~= s);
    assert(token_views(tokens@) + lex_from(s, 0) =~= lex_from(s, 0));
    loop
        invariant
            s == input@,
            0 <= at <= s.len(),
            chars.remaining() == s.skip(at),
            token_views(tokens@) + lex_from(s, at) == lex_from(s, 0),
        decreases s.len() - at,
    {
        let ghost done = token_views(tokens@);
        let ghost here = at;
        match chars.next() {
            None => {
                assert(done + lex_from(s, at) =~= done);
                proof {
                    lemma_tokens_are_lexed(s, 0);
                }
                return tokens;
            },
            Some(c) => {
                assert(c == s[here]);
                assert(s.skip(here).drop_first() =~= s.skip(here + 1));
                if c == ' ' || c == '\n' {
                    proof {
                        at = here + 1;
                    }
                } else if c == '(' {
                    tokens.push(Token::LParen);
                    proof {
                        at = here + 1;
                        assert(token_views(tokens@) =~= done.push(TokenView::LParen));
                        assert(token_views(tokens@) + lex_from(s, at) =~= done + lex_from(s, here));
                    }
                } else if c == ')' {
                    tokens.push(Token::RParen);
                    proof {
                        at = here + 1;
                        assert(token_views(tokens@) =~= done.push(TokenView::RParen));
                        assert(token_views(tokens@) + lex_from(s, at) =~= done + lex_from(s, here));
                    }
                } else if c == '"' {
                    let mut text = String::new();
                    let ghost end = string_end(s, here + 1);
                    proof {
                        at = here + 1;
                        lemma_string_end(s, here + 1);
                        assert(s.subrange(here + 1, at) =~= Seq::<char>::empty());
                    }
                    loop
                        invariant_except_break
                            at <= end,
                            text@ == s.subrange(here + 1, at),
                        invariant
                            here + 1 <= at,
                            s == input@,
                            0 <= here < s.len(),
                            end == string_end(s, here + 1),
                            end <= s.len(),
                            end < s.len() ==> s[end] == '"',
                            forall|k: int| here + 1 <= k < end ==> s[k] != '"',
                            0 <= at <= s.len(),
                            chars.remaining() == s.skip(at),
                        ensures
                            text@ == s.subrange(here + 1, end),
                            at == if end < s.len() {
                                end + 1
                            } else {
                                end
                            },
                        decreases s.len() - at,
                    {
                        let ghost j = at;
                        match chars.next() {
                            None => {
                                break;
                            },
                            Some(cc) => {
                                assert(cc == s[j]);
                                assert(s.skip(j).drop_first() =~= s.skip(j + 1));
                                proof {
                                    at = j + 1;
                                }
                                if cc == '"' {
                                    break;
                                }
                                text.push(cc);
                                assert(s.subrange(here + 1, j).push(cc) =~= s.subrange(
                                    here + 1,
                                    j + 1,
                                ));
                            },
                        }
                    }
                    tokens.push(Token::String(text));
                    proof {
                        assert(token_views(tokens@) =~= done.push(
                            TokenView::String(s.subrange(here + 1, end)),
                        ));
                        assert(token_views(tokens@) + lex_from(s, at) =~= done + lex_from(s, here));
                    }
                } else {
                    let mut word: Vec<char> = Vec::new();
                    word.push(c);
                    let mut closing: bool = false;
                    let ghost end = word_end(s, here + 1);
                    proof {
                        at = here + 1;
                        lemma_word_end(s, here + 1);
                        assert(word@ =~= s.subrange(here, at));
                    }
                    loop
                        invariant_except_break
                            at <= end,
                            word@ == s.subrange(here, at),
                            !closing,
                        invariant
                            here + 1 <= at,
                            s == input@,
                            0 <= here < s.len(),
                            end == word_end(s, here + 1),
                            end <= s.len(),
                            end < s.len() ==> ends_word(s[end]),
                            forall|k: int| here + 1 <= k < end ==> !ends_word(s[k]),
                            0 <= at <= s.len(),
                            chars.remaining() == s.skip(at),
                        ensures
                            word@ == s.subrange(here, end),
                            closing == (end < s.len() && s[end] == ')'),
                            at == if end < s.len() {
                                end + 1
                            } else {
                                end
                            },
                        decreases s.len() - at,
                    {
                        let ghost j = at;
                        match chars.next() {
                            None => {
                                break;
                            },
                            Some(cc) => {
                                assert(cc == s[j]);
                                assert(s.skip(j).drop_first() =~= s.skip(j + 1));
                                proof {
                                    at = j + 1;
                                }
                                if cc == ' ' || cc == ')' {
                                    closing = cc == ')';
                                    break;
                                }
                                word.push(cc);
                                assert(s.subrange(here, j).push(cc) =~= s.subrange(here, j + 1));
                            },
                        }
                    }
                    let token = classify_word(&word);
                    let ghost shown = token@;
                    tokens.push(token);
                    if closing {
                        tokens.push(Token::RParen);
                    }
                    proof {
                        if closing {
                            assert(token_views(tokens@) =~= done + seq![shown, TokenView::RParen]);
                        } else {
                            assert(token_views(tokens@) =~= done + seq![shown]);
                        }
                        assert(token_views(tokens@) + lex_from(s, at) =~= done + lex_from(s, here));
                    }
                }
            },
        }
    }
}

/// The text holds no double quote.
pub open spec fn has_no_quote(x: Seq<char>) -> bool {
    forall|i: int| 0 <= i < x.len() ==> #[trigger] x[i] != '"'
}

/// What holds of every token that lexing gives: the spelling of a decimal
/// literal or of a symbol is a word, and the token is what that word is
/// classified as, so a decimal literal spells a floating-point number and no
/// integer, and a symbol spells neither a number nor the reserved word; a
/// string holds no double quote.
pub open spec fn is_lexed(t: TokenView) -> bool {
    match t {
        TokenView::Float(w) => is_word(w) && classify(w) == t,
        TokenView::Symbol(w) => is_word(w) && classify(w) == t,
        TokenView::String(x) => has_no_quote(x),
        _ => true,
    }
}

/// Every token of the run is as `is_lexed` says.
pub open spec fn all_lexed(tokens: Seq<TokenView>) -> bool {
    forall|i: int| 0 <= i < tokens.len() ==> is_lexed(#[trigger] tokens[i])
}

/// Every token of a text is as `is_lexed` says.
pub proof fn lemma_tokens_are_lexed(s: Seq<char>, from: int)
    requires
        0 <= from <= s.len(),
    ensures
        all_lexed(lex_from(s, from)),
    decreases s.len() - from,
{
    if from < s.len() {
        let c = s[from];
        let rest = if is_blank(c) || c == '(' || c == ')' {
            from + 1
        } else if c == '"' {
            string_end(s, from + 1) + 1
        } else {
            word_end(s, from + 1) + 1
        };
        lemma_string_end(s, from + 1);
        lemma_word_end(s, from + 1);
        let tail = if rest <= s.len() {
            lex_from(s, rest)
        } else {
            Seq::empty()
        };
        if rest <= s.len() {
            lemma_tokens_are_lexed(s, rest);
        }
        let head = lex_from(s, from).take(lex_from(s, from).len() - tail.len());
        assert(lex_from(s, from) =~= head + tail);
        assert(all_lexed(head)) by {
            if c == '"' {
                assert(head =~= seq![
                    TokenView::String(s.subrange(from + 1, string_end(s, from + 1))),
                ]);
            } else if !(is_blank(c) || c == '(' || c == ')') {
                let spelling = s.subrange(from, word_end(s, from + 1));
                let word = classify(spelling);
                assert(is_word(spelling)) by {
                    assert(spelling[0] == c);
                    assert forall|i: int| 0 <= i < spelling.len() implies !ends_word(
                        #[trigger] spelling[i],
                    ) by {
                        assert(spelling[i] == s[from + i]);
                    }
                }
                assert(is_lexed(word));
                assert(head =~= seq![word] || head =~= seq![word, TokenView::RParen]);
            }
        }
        assert forall|i: int| 0 <= i < lex_from(s, from).len() implies is_lexed(
            #[trigger] lex_from(s, from)[i],
        ) by {
            if i < head.len() {
                assert(lex_from(s, from)[i] == head[i]);
            } else {
                assert(lex_from(s, from)[i] == tail[i - head.len()]);
            }
        }
    }
}

/// Lexing depends on the text alone: two runs of tokens that `tokenize` may
/// give for one text are equally long and show the same, place by place.
pub proof fn lemma_tokenize_repeatable(text: Seq<char>, first: Seq<Token>, second: Seq<Token>)
    requires
        token_views(first) == tokens_of(text),
        token_views(second) == tokens_of(text),
    ensures
        first.len() == second.len(),
        forall|i: int| 0 <= i < first.len() ==> (#[trigger] first[i])@ == second[i]@,
{
    assert(token_views(first).len() == first.len());
    assert(token_views(second).len() == second.len());
    assert forall|i: int| 0 <= i < first.len() implies (#[trigger] first[i])@ == second[i]@ by {
        assert(token_views(first)[i] == first[i]@);
        assert(token_views(second)[i] == second[i]@);
    }
}

} // verus!

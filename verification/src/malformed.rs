//! Input that cannot parse: text that does not open with a parenthesis, and
//! tokens whose first parenthesis is never closed.

use crate::lexer::{classify, is_blank, lex_from, tokens_of, word_end};
use crate::object::ObjectView;
use crate::parser::{parse_items, symbol_object, tree_of, Malformed};
use crate::token::TokenView;
use vstd::prelude::*;

verus! {

/// How many lists are open after the first `upto` tokens: the parentheses
/// opened among them, less the parentheses closed.
pub open spec fn depth(tokens: Seq<TokenView>, upto: int) -> int
    decreases upto,
{
    if upto <= 0 {
        0
    } else {
        depth(tokens, upto - 1) + match tokens[upto - 1] {
            TokenView::LParen => 1int,
            TokenView::RParen => -1int,
            _ => 0int,
        }
    }
}

/// The place of the first character at or after `from` that is not blank, or
/// the length of the text when only blanks are left.
pub open spec fn first_mark(s: Seq<char>, from: int) -> int
    decreases s.len() - from,
{
    if 0 <= from < s.len() && is_blank(s[from]) {
        first_mark(s, from + 1)
    } else {
        from
    }
}

/// The first character of the text that is not blank is an opening
/// parenthesis.
pub open spec fn opens_with_parenthesis(s: Seq<char>) -> bool {
    first_mark(s, 0) < s.len() && s[first_mark(s, 0)] == '('
}

/// Reading the items of a list closes one list more than it opens.
pub proof fn lemma_items_close_one(tokens: Seq<TokenView>, pos: int, acc: Seq<ObjectView>)
    requires
        parse_items(tokens, pos, acc) is Ok,
    ensures
        0 <= pos < parse_items(tokens, pos, acc)->Ok_0.1 <= tokens.len(),
        depth(tokens, parse_items(tokens, pos, acc)->Ok_0.1) == depth(tokens, pos) - 1,
    decreases tokens.len() - pos,
{
    assert(depth(tokens, pos + 1) == depth(tokens, pos) + match tokens[pos] {
        TokenView::LParen => 1int,
        TokenView::RParen => -1int,
        _ => 0int,
    });
    match tokens[pos] {
        TokenView::RParen => {},
        TokenView::LParen => {
            lemma_items_close_one(tokens, pos + 1, Seq::empty());
            let (inner, mid) = parse_items(tokens, pos + 1, Seq::empty())->Ok_0;
            lemma_items_close_one(tokens, mid, acc.push(ObjectView::List(inner)));
        },
        TokenView::Lambda => {
            lemma_items_close_one(tokens, pos + 1, Seq::empty());
        },
        TokenView::Integer(n) => {
            lemma_items_close_one(tokens, pos + 1, acc.push(ObjectView::Integer(n)));
        },
        TokenView::Float(s) => {
            lemma_items_close_one(tokens, pos + 1, acc.push(ObjectView::Float(s)));
        },
        TokenView::String(s) => {
            lemma_items_close_one(tokens, pos + 1, acc.push(ObjectView::String(s)));
        },
        TokenView::Symbol(s) => {
            lemma_items_close_one(tokens, pos + 1, acc.push(symbol_object(s)));
        },
    }
}

/// Tokens that parse hold the parenthesis that closes the first one: at some
/// place after the first token no list is open.
pub proof fn lemma_parsed_tokens_close(tokens: Seq<TokenView>)
    requires
        tree_of(tokens) is Ok,
    ensures
        exists|k: int| 1 < k <= tokens.len() && depth(tokens, k) == 0,
{
    lemma_items_close_one(tokens, 1, Seq::empty());
    let next = parse_items(tokens, 1, Seq::empty())->Ok_0.1;
    assert(depth(tokens, 1) == depth(tokens, 0) + 1);
    assert(1 < next <= tokens.len() && depth(tokens, next) == 0);
}

/// Tokens whose first parenthesis is never closed do not parse: when a list
/// is open after every token from the second on, there is an error and no
/// tree.
pub proof fn lemma_unclosed_fails(tokens: Seq<TokenView>)
    requires
        forall|k: int| 1 < k <= tokens.len() ==> depth(tokens, k) > 0,
    ensures
        tree_of(tokens) is Err,
{
    if tree_of(tokens) is Ok {
        lemma_parsed_tokens_close(tokens);
    }
}

/// Tokens that do not begin with an opening parenthesis do not parse, and the
/// error says what stands in its place.
pub proof fn lemma_unopened_fails(tokens: Seq<TokenView>)
    requires
        tokens.len() == 0 || tokens[0] != TokenView::LParen,
    ensures
        tree_of(tokens) == if tokens.len() == 0 {
            Err::<ObjectView, Malformed>(Malformed::Empty)
        } else {
            Err::<ObjectView, Malformed>(Malformed::Unopened(tokens[0]))
        },
{
}

/// A word is never a parenthesis.
proof fn lemma_word_is_no_parenthesis(word: Seq<char>)
    ensures
        classify(word) != TokenView::LParen,
{
}

/// The tokens of a text begin with an opening parenthesis exactly when its
/// first character that is not blank is one.
pub proof fn lemma_first_token(s: Seq<char>, from: int)
    requires
        0 <= from <= s.len(),
    ensures
        (lex_from(s, from).len() > 0 && lex_from(s, from)[0] == TokenView::LParen) <==> (
        first_mark(s, from) < s.len() && s[first_mark(s, from)] == '('),
    decreases s.len() - from,
{
    if from < s.len() {
        if is_blank(s[from]) {
            lemma_first_token(s, from + 1);
        } else if s[from] == '(' || s[from] == ')' || s[from] == '"' {
        } else {
            lemma_word_is_no_parenthesis(s.subrange(from, word_end(s, from + 1)));
        }
    }
}

/// Text whose first character that is not blank is no opening parenthesis
/// does not parse; neither does text that is empty or all blank.
pub proof fn lemma_text_must_open(s: Seq<char>)
    requires
        !opens_with_parenthesis(s),
    ensures
        tree_of(tokens_of(s)) matches Err(e) && (e is Empty || e is Unopened),
{
    lemma_first_token(s, 0);
}

} // verus!

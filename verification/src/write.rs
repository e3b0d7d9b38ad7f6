//! Writing a tree back as text, and reading that text again: the text of a
//! writable list parses to the list.

use crate::lexer::{
    all_lexed, classify, ends_word, has_no_quote, is_lexed, is_word, lemma_tokens_are_lexed,
    lex_from, string_end, tokens_of, word_end,
};
use crate::numeral::{
    decimal_text, digits_text, integer_of, integer_text, is_digit, is_float_literal,
    lemma_decimal_text_reads_back, lemma_digits_text, unsigned_part,
};
use crate::object::{lemma_object_views, object_views, string_views, Object, ObjectView};
use crate::parser::{tree_of, Malformed};
use crate::render::{
    is_plain_name, lemma_parse_inverts_render, lemma_parse_rendered, name_tokens, render,
    render_all, well_formed, well_formed_items,
};
use crate::token::TokenView;
use vstd::prelude::*;
use vstd::string::StringExecFns;

verus! {

/// A name that is written as it is and read back as a symbol.
pub open spec fn is_symbol_word(w: Seq<char>) -> bool {
    is_word(w) && classify(w) == TokenView::Symbol(w) && is_plain_name(w)
}

/// The text of a tree. A list stands between parentheses, its items one
/// space apart. A function is the word `lambda`, its parameters in
/// parentheses and its body in parentheses; the parenthesis of the list
/// around it ends it.
pub open spec fn write(o: ObjectView) -> Seq<char>
    decreases o,
{
    match o {
        ObjectView::Integer(n) => decimal_text(n as int),
        ObjectView::Float(s) => s,
        ObjectView::Symbol(s) => s,
        ObjectView::String(s) => seq!['"'] + s + seq!['"'],
        ObjectView::Bool(b) => if b {
            "#t"@
        } else {
            "#f"@
        },
        ObjectView::List(items) => seq!['('] + write_all(items) + seq![')'],
        ObjectView::Lambda(params, body) => "lambda"@ + seq![' ', '('] + write_names(params)
            + seq![')', ' ', '('] + write_all(body) + seq![')'],
    }
}

/// The texts of a run of trees, one space apart.
pub open spec fn write_all(items: Seq<ObjectView>) -> Seq<char>
    decreases items,
{
    if items.len() == 0 {
        Seq::empty()
    } else if items.len() == 1 {
        write(items[0])
    } else {
        write(items[0]) + seq![' '] + write_all(items.drop_first())
    }
}

/// A run of names, one space apart.
pub open spec fn write_names(names: Seq<Seq<char>>) -> Seq<char>
    decreases names.len(),
{
    if names.len() == 0 {
        Seq::empty()
    } else if names.len() == 1 {
        names[0]
    } else {
        names[0] + seq![' '] + write_names(names.drop_first())
    }
}

/// A tree whose text reads back as the tree: symbols and parameters are
/// words that are symbols, decimal literals are words that are such
/// literals, strings hold no double quote, and a function is the last item
/// of the list it stands in.
pub open spec fn writable(o: ObjectView) -> bool
    decreases o,
{
    match o {
        ObjectView::Integer(_) => true,
        ObjectView::Bool(_) => true,
        ObjectView::Float(s) => is_word(s) && classify(s) == TokenView::Float(s),
        ObjectView::Symbol(s) => is_symbol_word(s),
        ObjectView::String(s) => has_no_quote(s),
        ObjectView::List(items) => writable_items(items),
        ObjectView::Lambda(params, body) => {
            &&& forall|i: int| 0 <= i < params.len() ==> is_symbol_word(#[trigger] params[i])
            &&& writable_items(body)
        },
    }
}

/// The items of a writable list.
pub open spec fn writable_items(items: Seq<ObjectView>) -> bool
    decreases items,
{
    if items.len() == 0 {
        true
    } else {
        &&& writable(items[0])
        &&& (items[0] is Lambda ==> items.len() == 1)
        &&& writable_items(items.drop_first())
    }
}

/// The text `x` stands in `s` at place `at`.
pub open spec fn stands_at(s: Seq<char>, at: int, x: Seq<char>) -> bool {
    0 <= at && at + x.len() <= s.len() && s.subrange(at, at + x.len()) == x
}

/// Where a text of two parts stands, its parts stand one after the other.
proof fn lemma_stands_parts(s: Seq<char>, at: int, x: Seq<char>, y: Seq<char>)
    requires
        stands_at(s, at, x + y),
    ensures
        stands_at(s, at, x),
        stands_at(s, at + x.len(), y),
{
    let whole = s.subrange(at, at + (x + y).len());
    assert forall|i: int| 0 <= i < x.len() implies s[at + i] == x[i] by {
        assert(whole[i] == (x + y)[i]);
    }
    assert forall|i: int| 0 <= i < y.len() implies s[at + x.len() + i] == y[i] by {
        assert(whole[x.len() + i] == (x + y)[x.len() + i]);
    }
    assert(s.subrange(at, at + x.len()) =~= x);
    assert(s.subrange(at + x.len(), at + x.len() + y.len()) =~= y);
}

/// A word ends where the first space or closing parenthesis stands.
proof fn lemma_word_end_is(s: Seq<char>, from: int, end: int)
    requires
        0 <= from <= end <= s.len(),
        forall|k: int| from <= k < end ==> !ends_word(s[k]),
        end == s.len() || ends_word(s[end]),
    ensures
        word_end(s, from) == end,
    decreases end - from,
{
    if from < end {
        lemma_word_end_is(s, from + 1, end);
    }
}

/// String contents end where the first double quote stands.
proof fn lemma_string_end_is(s: Seq<char>, from: int, end: int)
    requires
        0 <= from <= end < s.len(),
        forall|k: int| from <= k < end ==> s[k] != '"',
        s[end] == '"',
    ensures
        string_end(s, from) == end,
    decreases end - from,
{
    if from < end {
        lemma_string_end_is(s, from + 1, end);
    }
}

/// A word that stands in a text before a space, a closing parenthesis or the
/// end gives its one token.
proof fn lemma_lex_word(s: Seq<char>, at: int, w: Seq<char>)
    requires
        is_word(w),
        stands_at(s, at, w),
        at + w.len() == s.len() || ends_word(s[at + w.len()]),
    ensures
        lex_from(s, at) == seq![classify(w)] + lex_from(s, at + w.len()),
{
    let end = at + w.len();
    assert forall|k: int| at <= k < end implies !ends_word(s[k]) by {
        assert(s.subrange(at, end)[k - at] == w[k - at]);
    }
    assert(s[at] == w[0]) by {
        assert(s.subrange(at, end)[0] == w[0]);
    }
    lemma_word_end_is(s, at + 1, end);
    if end == s.len() {
        assert(lex_from(s, end) =~= Seq::<TokenView>::empty());
        assert(lex_from(s, at) =~= seq![classify(w)] + lex_from(s, end));
    } else if s[end] == ')' {
        assert(lex_from(s, end) == seq![TokenView::RParen] + lex_from(s, end + 1));
        assert(lex_from(s, at) =~= seq![classify(w)] + lex_from(s, end));
    } else {
        assert(lex_from(s, end) == lex_from(s, end + 1));
        assert(lex_from(s, at) =~= seq![classify(w)] + lex_from(s, end));
    }
}

/// The reserved word is a word, and stands for its own token.
proof fn lemma_reserved_word()
    ensures
        is_word("lambda"@),
        "lambda"@.len() == 6,
        classify("lambda"@) == TokenView::Lambda,
{
    reveal_strlit("lambda");
}

/// The two truth words are words, and the lexer takes them for symbols.
proof fn lemma_truth_words_lex()
    ensures
        is_word("#t"@),
        is_word("#f"@),
        classify("#t"@) == TokenView::Symbol("#t"@),
        classify("#f"@) == TokenView::Symbol("#f"@),
{
    reveal_strlit("#t");
    reveal_strlit("#f");
    reveal_strlit("lambda");
    reveal_strlit("inf");
    reveal_strlit("infinity");
    reveal_strlit("nan");
    let t = "#t"@;
    let f = "#f"@;
    assert(!is_digit(t[0]) && !is_digit(f[0]));
    assert(unsigned_part(t) =~= t);
    assert(unsigned_part(f) =~= f);
    assert(integer_of(t) is None);
    assert(integer_of(f) is None);
    assert(!is_float_literal(t));
    assert(!is_float_literal(f));
}

/// An integer in decimal is a word, and the lexer takes it for that integer.
proof fn lemma_decimal_text_lexes(n: i64)
    ensures
        is_word(decimal_text(n as int)),
        classify(decimal_text(n as int)) == TokenView::Integer(n),
{
    let w = decimal_text(n as int);
    reveal_strlit("lambda");
    lemma_decimal_text_reads_back(n);
    if n < 0 {
        let digits = digits_text((-n) as nat);
        lemma_digits_text((-n) as nat);
        assert forall|i: int| 0 <= i < w.len() implies !ends_word(#[trigger] w[i]) by {
            if i > 0 {
                assert(is_digit(digits[i - 1]));
            }
        }
        assert(w[0] == '-');
    } else {
        lemma_digits_text(n as nat);
        assert forall|i: int| 0 <= i < w.len() implies !ends_word(#[trigger] w[i]) by {
            assert(is_digit(w[i]));
        }
        assert(is_digit(w[0]));
    }
    assert(w != "lambda"@) by {
        assert("lambda"@[0] == 'l');
    }
}

/// Names that stand in a text before a closing parenthesis, one space
/// apart, give their symbol tokens.
proof fn lemma_lex_names(s: Seq<char>, at: int, names: Seq<Seq<char>>)
    requires
        forall|i: int| 0 <= i < names.len() ==> is_symbol_word(#[trigger] names[i]),
        stands_at(s, at, write_names(names)),
        at + write_names(names).len() < s.len(),
        s[at + write_names(names).len()] == ')',
    ensures
        lex_from(s, at) == name_tokens(names) + lex_from(s, at + write_names(names).len()),
    decreases names.len(),
{
    let text = write_names(names);
    if names.len() == 0 {
        assert(name_tokens(names) + lex_from(s, at) =~= lex_from(s, at));
    } else if names.len() == 1 {
        assert(is_symbol_word(names[0]));
        lemma_lex_word(s, at, names[0]);
        assert(name_tokens(names) =~= seq![TokenView::Symbol(names[0])]);
    } else {
        let rest = names.drop_first();
        let after = write_names(rest);
        assert(is_symbol_word(names[0]));
        assert(text == names[0] + seq![' '] + after);
        assert(text =~= names[0] + (seq![' '] + after));
        lemma_stands_parts(s, at, names[0], seq![' '] + after);
        let gap = at + names[0].len();
        lemma_stands_parts(s, gap, seq![' '], after);
        assert(s[gap] == ' ') by {
            assert(s.subrange(gap, gap + 1)[0] == seq![' '][0]);
        }
        lemma_lex_word(s, at, names[0]);
        assert(lex_from(s, gap) == lex_from(s, gap + 1));
        assert forall|i: int| 0 <= i < rest.len() implies is_symbol_word(#[trigger] rest[i]) by {
            assert(is_symbol_word(names[i + 1]));
        }
        lemma_lex_names(s, gap + 1, rest);
        assert(name_tokens(names) =~= seq![TokenView::Symbol(names[0])] + name_tokens(rest));
        assert(lex_from(s, at) =~= name_tokens(names) + lex_from(s, at + text.len()));
    }
}

/// A string between its quotes gives its one token, whatever follows.
proof fn lemma_lex_string(s: Seq<char>, at: int, inner: Seq<char>)
    requires
        has_no_quote(inner),
        stands_at(s, at, seq!['"'] + inner + seq!['"']),
    ensures
        lex_from(s, at) == seq![TokenView::String(inner)] + lex_from(s, at + inner.len() + 2),
{
    let text = seq!['"'] + inner + seq!['"'];
    let end = at + text.len();
    assert forall|k: int| 0 <= k < text.len() implies s[at + k] == text[k] by {
        assert(s.subrange(at, end)[k] == text[k]);
    }
    assert(s[at + 0] == text[0]);
    assert(s[at + (inner.len() + 1)] == text[inner.len() as int + 1]);
    assert forall|k: int| at + 1 <= k < end - 1 implies s[k] != '"' by {
        assert(s[at + (k - at)] == text[k - at]);
        assert(text[k - at] == inner[k - at - 1]);
    }
    lemma_string_end_is(s, at + 1, end - 1);
    assert(s.subrange(at + 1, end - 1) =~= inner) by {
        assert forall|i: int| 0 <= i < inner.len() implies s[at + 1 + i] == inner[i] by {
            assert(s[at + (i + 1)] == text[i + 1]);
        }
    }
}

/// A writable list between its parentheses gives its tokens, whatever
/// follows.
proof fn lemma_lex_list(s: Seq<char>, at: int, items: Seq<ObjectView>)
    requires
        writable_items(items),
        stands_at(s, at, seq!['('] + write_all(items) + seq![')']),
    ensures
        lex_from(s, at) == seq![TokenView::LParen] + render_all(items) + seq![TokenView::RParen]
            + lex_from(s, at + write_all(items).len() + 2),
    decreases items, 1int,
{
    let within = write_all(items);
    let text = seq!['('] + within + seq![')'];
    assert(text =~= seq!['('] + (within + seq![')']));
    lemma_stands_parts(s, at, seq!['('], within + seq![')']);
    lemma_stands_parts(s, at + 1, within, seq![')']);
    assert(s[at] == '(') by {
        assert(s.subrange(at, at + 1)[0] == seq!['('][0]);
    }
    let close = at + 1 + within.len();
    assert(s[close] == ')') by {
        assert(s.subrange(close, close + 1)[0] == seq![')'][0]);
    }
    lemma_lex_written_all(s, at + 1, items);
    assert(lex_from(s, at) == seq![TokenView::LParen] + lex_from(s, at + 1));
    assert(lex_from(s, close) == seq![TokenView::RParen] + lex_from(s, close + 1));
    assert(lex_from(s, at) =~= seq![TokenView::LParen] + render_all(items)
        + seq![TokenView::RParen] + lex_from(s, close + 1));
}

/// The places of the parts of a written function.
proof fn lemma_lambda_parts(s: Seq<char>, at: int, names: Seq<char>, within: Seq<char>)
    requires
        stands_at(
            s,
            at,
            "lambda"@ + seq![' ', '('] + names + seq![')', ' ', '('] + within + seq![')'],
        ),
    ensures
        stands_at(s, at, "lambda"@),
        at + 8 + names.len() + 3 + within.len() < s.len(),
        s[at + 6] == ' ',
        s[at + 7] == '(',
        stands_at(s, at + 8, names),
        s[at + 8 + names.len()] == ')',
        s[at + 8 + names.len() + 1] == ' ',
        s[at + 8 + names.len() + 2] == '(',
        stands_at(s, at + 8 + names.len() + 3, within),
        s[at + 8 + names.len() + 3 + within.len()] == ')',
{
    let word = "lambda"@;
    lemma_reserved_word();
    let text = word + seq![' ', '('] + names + seq![')', ' ', '('] + within + seq![')'];
    let tail4 = within + seq![')'];
    let tail3 = seq![')', ' ', '('] + tail4;
    let tail2 = names + tail3;
    let tail1 = seq![' ', '('] + tail2;
    assert(text =~= word + tail1);
    lemma_stands_parts(s, at, word, tail1);
    let a = at + 6;
    lemma_stands_parts(s, a, seq![' ', '('], tail2);
    assert(s[a] == ' ' && s[a + 1] == '(') by {
        assert(s.subrange(a, a + 2)[0] == seq![' ', '('][0]);
        assert(s.subrange(a, a + 2)[1] == seq![' ', '('][1]);
    }
    let b = a + 2;
    lemma_stands_parts(s, b, names, tail3);
    let c = b + names.len();
    lemma_stands_parts(s, c, seq![')', ' ', '('], tail4);
    assert(s[c] == ')' && s[c + 1] == ' ' && s[c + 2] == '(') by {
        assert(s.subrange(c, c + 3)[0] == seq![')', ' ', '('][0]);
        assert(s.subrange(c, c + 3)[1] == seq![')', ' ', '('][1]);
        assert(s.subrange(c, c + 3)[2] == seq![')', ' ', '('][2]);
    }
    let d = c + 3;
    lemma_stands_parts(s, d, within, seq![')']);
    let e = d + within.len();
    assert(s[e] == ')') by {
        assert(s.subrange(e, e + 1)[0] == seq![')'][0]);
    }
}

/// A written function gives its tokens, whatever follows.
proof fn lemma_lex_lambda(s: Seq<char>, at: int, params: Seq<Seq<char>>, body: Seq<ObjectView>)
    requires
        forall|i: int| 0 <= i < params.len() ==> is_symbol_word(#[trigger] params[i]),
        writable_items(body),
        stands_at(s, at, write(ObjectView::Lambda(params, body))),
    ensures
        lex_from(s, at) == render(ObjectView::Lambda(params, body)) + lex_from(
            s,
            at + write(ObjectView::Lambda(params, body)).len(),
        ),
    decreases body, 1int,
{
    let o = ObjectView::Lambda(params, body);
    let names = write_names(params);
    let within = write_all(body);
    lemma_reserved_word();
    lemma_lambda_parts(s, at, names, within);
    let a = at + 6;
    let b = at + 8;
    let c = b + names.len();
    let d = c + 3;
    let e = d + within.len();
    let end = at + write(o).len();
    assert(end == e + 1);
    lemma_lex_word(s, at, "lambda"@);
    lemma_lex_names(s, b, params);
    lemma_lex_written_all(s, d, body);
    let t0 = lex_from(s, at);
    let t1 = lex_from(s, b);
    let t2 = lex_from(s, c);
    let t3 = lex_from(s, d);
    let t4 = lex_from(s, e);
    let t5 = lex_from(s, end);
    assert(t0 == seq![TokenView::Lambda, TokenView::LParen] + t1) by {
        assert(lex_from(s, a) == lex_from(s, a + 1));
        assert(lex_from(s, a + 1) == seq![TokenView::LParen] + lex_from(s, b));
        assert(seq![TokenView::Lambda] + (seq![TokenView::LParen] + t1) =~= seq![
            TokenView::Lambda,
            TokenView::LParen,
        ] + t1);
    }
    assert(t1 == name_tokens(params) + t2);
    assert(t2 == seq![TokenView::RParen, TokenView::LParen] + t3) by {
        assert(lex_from(s, c) == seq![TokenView::RParen] + lex_from(s, c + 1));
        assert(lex_from(s, c + 1) == lex_from(s, c + 2));
        assert(lex_from(s, c + 2) == seq![TokenView::LParen] + lex_from(s, d));
        assert(seq![TokenView::RParen] + (seq![TokenView::LParen] + t3) =~= seq![
            TokenView::RParen,
            TokenView::LParen,
        ] + t3);
    }
    assert(t3 == render_all(body) + t4);
    assert(t4 == seq![TokenView::RParen] + t5);
    assert(render(o) == seq![TokenView::Lambda, TokenView::LParen] + name_tokens(params)
        + seq![TokenView::RParen, TokenView::LParen] + render_all(body)
        + seq![TokenView::RParen]);
    lemma_join_runs(
        seq![TokenView::Lambda, TokenView::LParen],
        name_tokens(params),
        seq![TokenView::RParen, TokenView::LParen],
        render_all(body),
        seq![TokenView::RParen],
        t5,
    );
}

/// Joining runs of tokens from the right or from the left gives one run.
proof fn lemma_join_runs(
    a: Seq<TokenView>,
    b: Seq<TokenView>,
    c: Seq<TokenView>,
    d: Seq<TokenView>,
    e: Seq<TokenView>,
    f: Seq<TokenView>,
)
    ensures
        a + (b + (c + (d + (e + f)))) == a + b + c + d + e + f,
{
    assert(a + (b + (c + (d + (e + f)))) =~= a + b + c + d + e + f);
}

/// A writable tree that stands in a text before a space, a closing
/// parenthesis or the end gives its tokens.
pub proof fn lemma_lex_written(s: Seq<char>, at: int, o: ObjectView)
    requires
        writable(o),
        stands_at(s, at, write(o)),
        at + write(o).len() == s.len() || ends_word(s[at + write(o).len()]),
    ensures
        lex_from(s, at) == render(o) + lex_from(s, at + write(o).len()),
    decreases o, 0int,
{
    let text = write(o);
    match o {
        ObjectView::Integer(n) => {
            lemma_decimal_text_lexes(n);
            lemma_lex_word(s, at, text);
        },
        ObjectView::Float(w) => {
            lemma_lex_word(s, at, w);
        },
        ObjectView::Symbol(w) => {
            lemma_lex_word(s, at, w);
        },
        ObjectView::Bool(b) => {
            lemma_truth_words_lex();
            lemma_lex_word(s, at, text);
        },
        ObjectView::String(inner) => {
            lemma_lex_string(s, at, inner);
        },
        ObjectView::List(items) => {
            lemma_lex_list(s, at, items);
        },
        ObjectView::Lambda(params, body) => {
            lemma_lex_lambda(s, at, params, body);
        },
    }
}

/// Writable items that stand in a text before a closing parenthesis, one
/// space apart, give their tokens.
pub proof fn lemma_lex_written_all(s: Seq<char>, at: int, items: Seq<ObjectView>)
    requires
        writable_items(items),
        stands_at(s, at, write_all(items)),
        at + write_all(items).len() < s.len(),
        s[at + write_all(items).len()] == ')',
    ensures
        lex_from(s, at) == render_all(items) + lex_from(s, at + write_all(items).len()),
    decreases items, 0int,
{
    let text = write_all(items);
    if items.len() == 0 {
        assert(render_all(items) + lex_from(s, at) =~= lex_from(s, at));
    } else if items.len() == 1 {
        assert(writable(items[0]));
        lemma_lex_written(s, at, items[0]);
        assert(render_all(items.drop_first()) =~= Seq::<TokenView>::empty());
        assert(render_all(items) =~= render(items[0]));
    } else {
        let rest = items.drop_first();
        let after = write_all(rest);
        assert(writable(items[0]));
        assert(text == write(items[0]) + seq![' '] + after);
        assert(text =~= write(items[0]) + (seq![' '] + after));
        lemma_stands_parts(s, at, write(items[0]), seq![' '] + after);
        let gap = at + write(items[0]).len();
        lemma_stands_parts(s, gap, seq![' '], after);
        assert(s[gap] == ' ') by {
            assert(s.subrange(gap, gap + 1)[0] == seq![' '][0]);
        }
        lemma_lex_written(s, at, items[0]);
        assert(lex_from(s, gap) == lex_from(s, gap + 1));
        lemma_lex_written_all(s, gap + 1, rest);
        assert(lex_from(s, at) =~= render_all(items) + lex_from(s, at + text.len()));
    }
}

/// A writable tree is well formed.
pub proof fn lemma_writable_is_well_formed(o: ObjectView)
    requires
        writable(o),
    ensures
        well_formed(o),
    decreases o,
{
    match o {
        ObjectView::List(items) => {
            lemma_writable_items_are_well_formed(items);
        },
        ObjectView::Lambda(params, body) => {
            assert forall|i: int| 0 <= i < params.len() implies is_plain_name(
                #[trigger] params[i],
            ) by {
                assert(is_symbol_word(params[i]));
            }
            lemma_writable_items_are_well_formed(body);
        },
        _ => {},
    }
}

/// Writable items are well formed.
pub proof fn lemma_writable_items_are_well_formed(items: Seq<ObjectView>)
    requires
        writable_items(items),
    ensures
        well_formed_items(items),
    decreases items,
{
    if items.len() > 0 {
        lemma_writable_is_well_formed(items[0]);
        lemma_writable_items_are_well_formed(items.drop_first());
    }
}

/// The text of a writable list has the tokens of the list, and parses to the
/// list: as many children as forms were written, each the tree that was
/// written.
pub proof fn lemma_parse_written(items: Seq<ObjectView>)
    requires
        writable_items(items),
    ensures
        tokens_of(write(ObjectView::List(items))) == render(ObjectView::List(items)),
        tree_of(tokens_of(write(ObjectView::List(items)))) == Ok::<ObjectView, Malformed>(
            ObjectView::List(items),
        ),
{
    let tree = ObjectView::List(items);
    let s = write(tree);
    assert(s.subrange(0, s.len() as int) =~= s);
    lemma_lex_written(s, 0, tree);
    assert(lex_from(s, s.len() as int) =~= Seq::<TokenView>::empty());
    assert(render(tree) + Seq::<TokenView>::empty() =~= render(tree));
    lemma_writable_items_are_well_formed(items);
    lemma_parse_rendered(items, Seq::empty());
}

/// Where every token of a run is as lexing gives it, so is every token of
/// each of its two parts.
proof fn lemma_lexed_parts(a: Seq<TokenView>, b: Seq<TokenView>)
    requires
        all_lexed(a + b),
    ensures
        all_lexed(a),
        all_lexed(b),
{
    assert forall|i: int| 0 <= i < a.len() implies is_lexed(#[trigger] a[i]) by {
        assert((a + b)[i] == a[i]);
    }
    assert forall|i: int| 0 <= i < b.len() implies is_lexed(#[trigger] b[i]) by {
        assert((a + b)[a.len() + i] == b[i]);
    }
}

/// A well-formed tree whose tokens are as lexing gives them is writable.
pub proof fn lemma_lexed_tree_is_writable(o: ObjectView)
    requires
        well_formed(o),
        all_lexed(render(o)),
    ensures
        writable(o),
    decreases o,
{
    let shown = render(o);
    match o {
        ObjectView::List(items) => {
            lemma_lexed_parts(seq![TokenView::LParen] + render_all(items), seq![TokenView::RParen]);
            lemma_lexed_parts(seq![TokenView::LParen], render_all(items));
            lemma_lexed_items_are_writable(items);
        },
        ObjectView::Lambda(params, body) => {
            let a = seq![TokenView::Lambda, TokenView::LParen];
            let b = name_tokens(params);
            let c = seq![TokenView::RParen, TokenView::LParen];
            let d = render_all(body);
            let e = seq![TokenView::RParen];
            assert(shown == a + b + c + d + e);
            lemma_lexed_parts(a + b + c + d, e);
            lemma_lexed_parts(a + b + c, d);
            lemma_lexed_parts(a + b, c);
            lemma_lexed_parts(a, b);
            assert forall|i: int| 0 <= i < params.len() implies is_symbol_word(
                #[trigger] params[i],
            ) by {
                assert(is_lexed(b[i]));
                assert(is_plain_name(params[i]));
            }
            lemma_lexed_items_are_writable(body);
        },
        ObjectView::Float(w) => {
            assert(is_lexed(shown[0]));
        },
        ObjectView::Symbol(w) => {
            assert(is_lexed(shown[0]));
        },
        ObjectView::String(x) => {
            assert(is_lexed(shown[0]));
        },
        _ => {},
    }
}

/// Well-formed items whose tokens are as lexing gives them are writable.
pub proof fn lemma_lexed_items_are_writable(items: Seq<ObjectView>)
    requires
        well_formed_items(items),
        all_lexed(render_all(items)),
    ensures
        writable_items(items),
    decreases items,
{
    if items.len() > 0 {
        assert(render_all(items) == render(items[0]) + render_all(items.drop_first()));
        lemma_lexed_parts(render(items[0]), render_all(items.drop_first()));
        lemma_lexed_tree_is_writable(items[0]);
        lemma_lexed_items_are_writable(items.drop_first());
    }
}

/// A tree that was parsed from text is writable, and its text parses to the
/// same tree again.
pub proof fn lemma_parsed_text_writes_back(text: Seq<char>, tree: ObjectView)
    requires
        tree_of(tokens_of(text)) == Ok::<ObjectView, Malformed>(tree),
    ensures
        writable(tree),
        tree_of(tokens_of(write(tree))) == Ok::<ObjectView, Malformed>(tree),
{
    let tokens = tokens_of(text);
    lemma_tokens_are_lexed(text, 0);
    lemma_parse_inverts_render(tokens, tree);
    let shown = render(tree);
    assert(tokens =~= shown + tokens.skip(shown.len() as int));
    lemma_lexed_parts(shown, tokens.skip(shown.len() as int));
    lemma_lexed_tree_is_writable(tree);
    lemma_parse_written(tree->List_0);
}

/// Appends a run of names, one space apart.
fn append_names(names: &Vec<String>, out: &mut String)
    ensures
        final(out)@ == old(out)@ + write_names(string_views(names@)),
{
    let ghost start = out@;
    let ghost all = string_views(names@);
    let n: usize = names.len();
    let mut i: usize = 0;
    assert(all.skip(0) =~= all);
    while i < n
        invariant
            n == names.len(),
            all == string_views(names@),
            i <= n,
            start + write_names(all) == out@ + (if 0 < i < n {
                seq![' ']
            } else {
                Seq::<char>::empty()
            }) + write_names(all.skip(i as int)),
        decreases n - i,
    {
        let ghost before = out@;
        let ghost rest = all.skip(i as int);
        if i > 0 {
            out.push(' ');
        }
        out.append(names[i].as_str());
        proof {
            assert(rest[0] == names@[i as int]@);
            assert(rest.drop_first() =~= all.skip(i + 1));
            if i + 1 < n {
                assert(write_names(rest) == rest[0] + seq![' '] + write_names(rest.drop_first()));
            } else {
                assert(write_names(rest) == rest[0]);
                assert(write_names(all.skip(i + 1)) =~= Seq::<char>::empty());
            }
            assert(start + write_names(all) =~= out@ + (if 0 < i + 1 < n {
                seq![' ']
            } else {
                Seq::<char>::empty()
            }) + write_names(all.skip(i + 1)));
        }
        i += 1;
    }
    assert(write_names(all.skip(n as int)) =~= Seq::<char>::empty());
    assert(start + write_names(all) =~= out@);
}

/// Appends the texts of a run of trees, one space apart.
fn append_items(items: &Vec<Object>, out: &mut String)
    ensures
        final(out)@ == old(out)@ + write_all(object_views(items@)),
    decreases items, 0int,
{
    let ghost start = out@;
    let ghost all = object_views(items@);
    let n: usize = items.len();
    let mut i: usize = 0;
    proof {
        lemma_object_views(items@);
        assert(all.skip(0) =~= all);
    }
    while i < n
        invariant
            n == items.len(),
            all == object_views(items@),
            all.len() == n,
            forall|k: int| 0 <= k < n ==> (#[trigger] all[k]) == items@[k]@,
            i <= n,
            start + write_all(all) == out@ + (if 0 < i < n {
                seq![' ']
            } else {
                Seq::<char>::empty()
            }) + write_all(all.skip(i as int)),
        decreases n - i,
    {
        let ghost rest = all.skip(i as int);
        if i > 0 {
            out.push(' ');
        }
        items[i].append_to(out);
        proof {
            assert(rest[0] == items@[i as int]@);
            assert(rest.drop_first() =~= all.skip(i + 1));
            if i + 1 < n {
                assert(write_all(rest) == write(rest[0]) + seq![' '] + write_all(
                    rest.drop_first(),
                ));
            } else {
                assert(write_all(rest) == write(rest[0]));
                assert(write_all(all.skip(i + 1)) =~= Seq::<char>::empty());
            }
            assert(start + write_all(all) =~= out@ + (if 0 < i + 1 < n {
                seq![' ']
            } else {
                Seq::<char>::empty()
            }) + write_all(all.skip(i + 1)));
        }
        i += 1;
    }
    assert(write_all(all.skip(n as int)) =~= Seq::<char>::empty());
    assert(start + write_all(all) =~= out@);
}

impl Object {
    /// Appends the text of the tree.
    fn append_to(&self, out: &mut String)
        ensures
            final(out)@ == old(out)@ + write(self@),
        decreases self, 1int,
    {
        let ghost start = out@;
        match self {
            Object::Integer(n) => {
                out.append(integer_text(*n).as_str());
            },
            Object::Float(s) => {
                out.append(s.as_str());
            },
            Object::Symbol(s) => {
                out.append(s.as_str());
            },
            Object::String(s) => {
                out.push('"');
                out.append(s.as_str());
                out.push('"');
                assert(out@ =~= start + (seq!['"'] + s@ + seq!['"']));
            },
            Object::Bool(b) => {
                if *b {
                    out.append("#t");
                } else {
                    out.append("#f");
                }
            },
            Object::List(items) => {
                out.push('(');
                append_items(items, out);
                out.push(')');
                assert(out@ =~= start + (seq!['('] + write_all(object_views(items@)) + seq![')']));
            },
            Object::Lambda(params, body) => {
                out.append("lambda");
                out.push(' ');
                out.push('(');
                append_names(params, out);
                out.push(')');
                out.push(' ');
                out.push('(');
                append_items(body, out);
                out.push(')');
                assert(out@ =~= start + ("lambda"@ + seq![' ', '('] + write_names(
                    string_views(params@),
                ) + seq![')', ' ', '('] + write_all(object_views(body@)) + seq![')']));
            },
        }
    }

    /// The tree as text: a list between parentheses with its items one space
    /// apart, a string between double quotes, a truth value as `#t` or `#f`,
    /// and a function as `lambda`, its parameters and its body.
    pub fn to_text(&self) -> (s: String)
        ensures
            s@ == write(self@),
    {
        let mut out = String::new();
        self.append_to(&mut out);
        assert(Seq::<char>::empty() + write(self@) =~= write(self@));
        out
    }
}

} // verus!

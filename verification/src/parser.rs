//! The parser: from tokens to one tree.
//!
//! The input is one parenthesized list. Parsing stops at the parenthesis that
//! closes it; tokens after that are not looked at. The word `lambda` claims
//! the rest of the list it stands in, which must be a list of parameter names
//! and a list that is the body, and the function made of the two becomes the
//! last item of the enclosing list.
//!
//! Open lists are kept on an explicit stack, so nesting depth costs heap, not
//! call stack.

use crate::lexer::{tokenize, tokens_of};
use crate::object::{
    lemma_object_views, lemma_object_views_push, object_views, string_views, Object, ObjectView,
};
use crate::token::{token_text, token_views, Token, TokenView};
use vstd::prelude::*;
use vstd::std_specs::iter::IteratorSpec;
use vstd::string::StringExecFns;

verus! {

/// A structural failure, with a message that says what was wrong.
#[derive(Debug)]
pub struct ParseError(pub String);

impl Clone for ParseError {
    /// An error of its own with the same message.
    fn clone(&self) -> (copy: ParseError)
        ensures
            copy.0@ == self.0@,
    {
        ParseError(self.0.clone())
    }
}

impl ParseError {
    /// The failure as one line of text.
    pub fn to_text(&self) -> (s: String)
        ensures
            s@ == "invalid expression: "@ + self.0@,
    {
        let mut s = String::from_str("invalid expression: ");
        s.append(self.0.as_str());
        s
    }
}

/// Why a run of tokens is not a well-formed expression.
pub ghost enum Malformed {
    /// There is no token at all.
    Empty,
    /// The first token, held here, is not an opening parenthesis.
    Unopened(TokenView),
    /// The tokens ran out before every open list was closed.
    Unclosed,
    /// What follows `lambda` is not a list of names and a list for the body.
    BadLambda,
}

/// The message that reports a failure.
pub open spec fn malformed_text(m: Malformed) -> Seq<char> {
    match m {
        Malformed::Empty => "expected `(`, found end of input"@,
        Malformed::Unopened(t) => "expected `(`, found "@ + token_text(t),
        Malformed::Unclosed => "unexpected end of input: missing `)`"@,
        Malformed::BadLambda => "malformed lambda expression"@,
    }
}

/// The expression that a symbol stands for: the two truth values are written
/// `#t` and `#f`, exactly so; every other symbol is itself.
pub open spec fn symbol_object(name: Seq<char>) -> ObjectView {
    if name == "#t"@ {
        ObjectView::Bool(true)
    } else if name == "#f"@ {
        ObjectView::Bool(false)
    } else {
        ObjectView::Symbol(name)
    }
}

/// Every expression of the run is a symbol.
pub open spec fn all_symbols(params: Seq<ObjectView>) -> bool {
    forall|i: int| 0 <= i < params.len() ==> (#[trigger] params[i]) is Symbol
}

/// The names of a run of symbols.
pub open spec fn symbol_names(params: Seq<ObjectView>) -> Seq<Seq<char>> {
    Seq::new(params.len(), |i: int| params[i]->Symbol_0)
}

/// The function that the items after `lambda` make, if they have the right
/// shape: exactly two items, a list of symbols and a list.
pub open spec fn lambda_of(group: Seq<ObjectView>) -> Option<ObjectView> {
    if group.len() == 2 && group[0] is List && group[1] is List && all_symbols(group[0]->List_0) {
        Some(ObjectView::Lambda(symbol_names(group[0]->List_0), group[1]->List_0))
    } else {
        None
    }
}

/// Reads the items of one list. `pos` is the place of the next token and
/// `acc` holds the items read so far. The result is all the items of the
/// list and the place after the parenthesis that closes it.
///
/// A nested list ends after the place where it began (see
/// [`lemma_parse_items_advances`]), so the test on `next` below never fails;
/// it is there to show that the reading terminates.
pub open spec fn parse_items(tokens: Seq<TokenView>, pos: int, acc: Seq<ObjectView>) -> Result<
    (Seq<ObjectView>, int),
    Malformed,
>
    decreases tokens.len() - pos,
{
    if pos < 0 || pos >= tokens.len() {
        Err(Malformed::Unclosed)
    } else {
        match tokens[pos] {
            TokenView::Integer(n) => parse_items(tokens, pos + 1, acc.push(ObjectView::Integer(n))),
            TokenView::Float(s) => parse_items(tokens, pos + 1, acc.push(ObjectView::Float(s))),
            TokenView::String(s) => parse_items(tokens, pos + 1, acc.push(ObjectView::String(s))),
            TokenView::Symbol(s) => parse_items(tokens, pos + 1, acc.push(symbol_object(s))),
            TokenView::RParen => Ok((acc, pos + 1)),
            TokenView::LParen => match parse_items(tokens, pos + 1, Seq::empty()) {
                Err(e) => Err(e),
                Ok((inner, next)) => if pos < next <= tokens.len() {
                    parse_items(tokens, next, acc.push(ObjectView::List(inner)))
                } else {
                    Err(Malformed::Unclosed)
                },
            },
            TokenView::Lambda => match parse_items(tokens, pos + 1, Seq::empty()) {
                Err(e) => Err(e),
                Ok((group, next)) => match lambda_of(group) {
                    Some(function) => Ok((acc.push(function), next)),
                    None => Err(Malformed::BadLambda),
                },
            },
        }
    }
}

/// The tree that a run of tokens stands for, or why it stands for none.
pub open spec fn tree_of(tokens: Seq<TokenView>) -> Result<ObjectView, Malformed> {
    if tokens.len() == 0 {
        Err(Malformed::Empty)
    } else if tokens[0] != TokenView::LParen {
        Err(Malformed::Unopened(tokens[0]))
    } else {
        match parse_items(tokens, 1, Seq::empty()) {
            Ok((items, _)) => Ok(ObjectView::List(items)),
            Err(e) => Err(e),
        }
    }
}

/// A result says what was expected of it: the tree with that view, or the
/// error with the message of that failure.
pub open spec fn agrees(
    result: Result<Object, ParseError>,
    expected: Result<ObjectView, Malformed>,
) -> bool {
    match expected {
        Ok(tree) => result matches Ok(o) && o@ == tree,
        Err(m) => result matches Err(e) && e.0@ == malformed_text(m),
    }
}

/// A list that was read ends after the place where reading began, and inside
/// the tokens.
pub proof fn lemma_parse_items_advances(tokens: Seq<TokenView>, pos: int, acc: Seq<ObjectView>)
    ensures
        parse_items(tokens, pos, acc) matches Ok((_, next)) ==> 0 <= pos < next <= tokens.len(),
    decreases tokens.len() - pos,
{
    if 0 <= pos < tokens.len() {
        match tokens[pos] {
            TokenView::Integer(n) => {
                lemma_parse_items_advances(tokens, pos + 1, acc.push(ObjectView::Integer(n)));
            },
            TokenView::Float(s) => {
                lemma_parse_items_advances(tokens, pos + 1, acc.push(ObjectView::Float(s)));
            },
            TokenView::String(s) => {
                lemma_parse_items_advances(tokens, pos + 1, acc.push(ObjectView::String(s)));
            },
            TokenView::Symbol(s) => {
                lemma_parse_items_advances(tokens, pos + 1, acc.push(symbol_object(s)));
            },
            TokenView::RParen => {},
            TokenView::LParen => {
                lemma_parse_items_advances(tokens, pos + 1, Seq::empty());
                match parse_items(tokens, pos + 1, Seq::empty()) {
                    Err(_) => {},
                    Ok((inner, next)) => {
                        lemma_parse_items_advances(
                            tokens,
                            next,
                            acc.push(ObjectView::List(inner)),
                        );
                    },
                }
            },
            TokenView::Lambda => {
                lemma_parse_items_advances(tokens, pos + 1, Seq::empty());
            },
        }
    }
}

/// A list that is open while a list inside it is being read.
struct Frame {
    /// The items read so far.
    items: Vec<Object>,
    /// The list is the tail that `lambda` claimed, not one that a
    /// parenthesis opened.
    lambda: bool,
}

/// An open list, with the views of its items.
ghost struct FrameView {
    items: Seq<ObjectView>,
    lambda: bool,
}

impl View for Frame {
    type V = FrameView;

    closed spec fn view(&self) -> FrameView {
        FrameView { items: object_views(self.items@), lambda: self.lambda }
    }
}

/// The views of a stack of open lists, outermost first.
spec fn frame_views(stack: Seq<Frame>) -> Seq<FrameView> {
    stack.map_values(|f: Frame| f@)
}

/// What the whole parse comes to, given how the reading of the innermost
/// open list ends: `level` is the outcome of that reading, `lambda` tells
/// whether that list is the tail after `lambda`, and `stack` holds the lists
/// around it, outermost first.
spec fn finish(
    tokens: Seq<TokenView>,
    stack: Seq<FrameView>,
    lambda: bool,
    level: Result<(Seq<ObjectView>, int), Malformed>,
) -> Result<ObjectView, Malformed>
    decreases stack.len(),
{
    match level {
        Err(e) => Err(e),
        Ok((items, next)) => if lambda {
            match lambda_of(items) {
                None => Err(Malformed::BadLambda),
                Some(function) => if stack.len() == 0 {
                    Err(Malformed::BadLambda)
                } else {
                    finish(
                        tokens,
                        stack.drop_last(),
                        stack.last().lambda,
                        Ok((stack.last().items.push(function), next)),
                    )
                },
            }
        } else if stack.len() == 0 {
            Ok(ObjectView::List(items))
        } else {
            finish(
                tokens,
                stack.drop_last(),
                stack.last().lambda,
                parse_items(tokens, next, stack.last().items.push(ObjectView::List(items))),
            )
        },
    }
}

/// Tells whether a symbol is written with exactly the two given characters.
fn is_pair(name: &String, first: char, second: char) -> (yes: bool)
    ensures
        yes == (name@ == seq![first, second]),
{
    let mut letters = name.as_str().chars();
    let ghost s = name@;
    let a = letters.next();
    let b = letters.next();
    let c = letters.next();
    proof {
        if s.len() > 0 {
            assert(s.drop_first().len() == s.len() - 1);
            if s.len() > 1 {
                assert(s.drop_first()[0] == s[1]);
                assert(s.drop_first().drop_first().len() == s.len() - 2);
            }
        }
    }
    match (a, b, c) {
        (Some(x), Some(y), None) => {
            let yes: bool = x == first && y == second;
            proof {
                if yes {
                    assert(s =~= seq![first, second]);
                } else {
                    assert(seq![first, second][0] == first);
                    assert(seq![first, second][1] == second);
                }
            }
            yes
        },
        _ => {
            assert(seq![first, second].len() == 2);
            false
        },
    }
}

/// The expression that a symbol stands for.
fn object_of_symbol(name: String) -> (o: Object)
    ensures
        o@ == symbol_object(name@),
{
    proof {
        reveal_strlit("#t");
        reveal_strlit("#f");
        assert("#t"@ =~= seq!['#', 't']);
        assert("#f"@ =~= seq!['#', 'f']);
    }
    if is_pair(&name, '#', 't') {
        Object::Bool(true)
    } else if is_pair(&name, '#', 'f') {
        Object::Bool(false)
    } else {
        Object::Symbol(name)
    }
}

/// The names of a run of parameters, if every one of them is a symbol.
fn names_from(params: Vec<Object>) -> (names: Option<Vec<String>>)
    ensures
        match names {
            Some(v) => all_symbols(object_views(params@)) && string_views(v@) == symbol_names(
                object_views(params@),
            ),
            None => !all_symbols(object_views(params@)),
        },
{
    let ghost all = params@;
    let ghost views = object_views(all);
    proof {
        lemma_object_views(all);
    }
    let mut names: Vec<String> = Vec::new();
    for param in rest: params
        invariant
            rest.seq() == all,
            views == object_views(all),
            views.len() == all.len(),
            forall|i: int| 0 <= i < all.len() ==> (#[trigger] views[i]) == all[i]@,
            names@.len() == rest.index(),
            forall|i: int| 0 <= i < rest.index() ==> (#[trigger] views[i]) is Symbol,
            forall|i: int| 0 <= i < rest.index() ==> (#[trigger] names@[i])@ == views[i]->Symbol_0,
    {
        assert(param == all[rest.index() as int]);
        assert(views[rest.index() as int] == param@);
        match param {
            Object::Symbol(name) => {
                names.push(name);
            },
            _ => {
                assert(!(views[rest.index() as int] is Symbol));
                return None;
            },
        }
    }
    assert(string_views(names@) =~= symbol_names(views));
    Some(names)
}

/// The function that the items after `lambda` make, if they have the right
/// shape.
fn lambda_from(group: Vec<Object>) -> (function: Option<Object>)
    ensures
        match lambda_of(object_views(group@)) {
            Some(f) => function matches Some(o) && o@ == f,
            None => function is None,
        },
{
    let mut group = group;
    let ghost views = object_views(group@);
    proof {
        lemma_object_views(group@);
    }
    if group.len() != 2 {
        return None;
    }
    let body = group.pop().unwrap();
    let params = group.pop().unwrap();
    assert(views[0] == params@);
    assert(views[1] == body@);
    match params {
        Object::List(ps) => {
            assert(params@ == ObjectView::List(object_views(ps@)));
            match body {
                Object::List(items) => {
                    assert(body@ == ObjectView::List(object_views(items@)));
                    match names_from(ps) {
                        Some(names) => {
                            let function = Object::Lambda(names, items);
                            assert(function@ == ObjectView::Lambda(
                                string_views(names@),
                                object_views(items@),
                            ));
                            Some(function)
                        },
                        None => None,
                    }
                },
                _ => {
                    assert(!(body@ is List));
                    None
                },
            }
        },
        _ => {
            assert(!(params@ is List));
            None
        },
    }
}

/// Builds the tree that a run of tokens stands for.
///
/// The first token must open a list. The list ends at the parenthesis that
/// closes it; what follows is ignored. It is an error when the tokens run out
/// before that, and when what follows `lambda` is not a list of names and a
/// list for the body. The first failure met is the one reported.
pub fn parse_tokens(tokens: Vec<Token>) -> (result: Result<Object, ParseError>)
    ensures
        agrees(result, tree_of(token_views(tokens@))),
{
    let ghost raw = tokens@;
    let ghost all = token_views(raw);
    if tokens.len() == 0 {
        return Err(ParseError(String::from_str("expected `(`, found end of input")));
    }
    match &tokens[0] {
        Token::LParen => {},
        other => {
            let mut message = String::from_str("expected `(`, found ");
            message.append(other.to_text().as_str());
            return Err(ParseError(message));
        },
    }
    let mut stack: Vec<Frame> = Vec::new();
    let mut items: Vec<Object> = Vec::new();
    let mut lambda: bool = false;
    let mut opened: bool = false;
    proof {
        assert(object_views(items@) =~= Seq::<ObjectView>::empty());
        assert(frame_views(stack@) =~= Seq::<FrameView>::empty());
    }
    for token in rest: tokens
        invariant
            rest.seq() == raw,
            raw == tokens@,
            opened == (rest.index() > 0),
            all == token_views(raw),
            raw.len() > 0,
            stack@.len() == 0 ==> !lambda,
            stack@.len() > 0 ==> !stack@[0].lambda,
            finish(
                all,
                frame_views(stack@),
                lambda,
                parse_items(
                    all,
                    if rest.index() == 0 {
                        1
                    } else {
                        rest.index() as int
                    },
                    object_views(items@),
                ),
            ) == tree_of(all),
    {
        let ghost here = rest.index() as int;
        let ghost around = frame_views(stack@);
        assert(token == raw[here]);
        assert(token@ == all[here]);
        if !opened {
            // The parenthesis that opens the whole list, seen above.
            opened = true;
        } else {
            match token {
                Token::Integer(n) => {
                    let item = Object::Integer(n);
                    proof {
                        lemma_object_views_push(items@, item);
                    }
                    items.push(item);
                },
                Token::Float(text) => {
                    let item = Object::Float(text);
                    proof {
                        lemma_object_views_push(items@, item);
                    }
                    items.push(item);
                },
                Token::String(text) => {
                    let item = Object::String(text);
                    proof {
                        lemma_object_views_push(items@, item);
                    }
                    items.push(item);
                },
                Token::Symbol(name) => {
                    let item = object_of_symbol(name);
                    proof {
                        lemma_object_views_push(items@, item);
                    }
                    items.push(item);
                },
                Token::LParen => {
                    stack.push(Frame { items, lambda });
                    items = Vec::new();
                    lambda = false;
                    proof {
                        lemma_parse_items_advances(all, here + 1, Seq::empty());
                        assert(object_views(items@) =~= Seq::<ObjectView>::empty());
                        assert(frame_views(stack@).drop_last() =~= around);
                    }
                },
                Token::Lambda => {
                    stack.push(Frame { items, lambda });
                    items = Vec::new();
                    lambda = true;
                    proof {
                        assert(object_views(items@) =~= Seq::<ObjectView>::empty());
                        assert(frame_views(stack@).drop_last() =~= around);
                    }
                },
                Token::RParen => {
                    loop
                        invariant_except_break
                            finish(
                                all,
                                frame_views(stack@),
                                lambda,
                                Ok((object_views(items@), here + 1)),
                            ) == tree_of(all),
                        invariant
                            all == token_views(tokens@),
                            stack@.len() == 0 ==> !lambda,
                            stack@.len() > 0 ==> !stack@[0].lambda,
                        ensures
                            finish(
                                all,
                                frame_views(stack@),
                                lambda,
                                parse_items(all, here + 1, object_views(items@)),
                            ) == tree_of(all),
                        decreases stack@.len(),
                    {
                        let ghost outer = frame_views(stack@);
                        let ghost inner = object_views(items@);
                        if lambda {
                            match lambda_from(items) {
                                None => {
                                    return Err(
                                        ParseError(String::from_str("malformed lambda expression")),
                                    );
                                },
                                Some(function) => {
                                    let parent = stack.pop().unwrap();
                                    assert(frame_views(stack@) =~= outer.drop_last());
                                    assert(parent@ == outer.last());
                                    items = parent.items;
                                    lambda = parent.lambda;
                                    proof {
                                        lemma_object_views_push(items@, function);
                                    }
                                    items.push(function);
                                },
                            }
                        } else {
                            let done = Object::List(items);
                            assert(done@ == ObjectView::List(inner));
                            match stack.pop() {
                                None => {
                                    return Ok(done);
                                },
                                Some(parent) => {
                                    assert(frame_views(stack@) =~= outer.drop_last());
                                    assert(parent@ == outer.last());
                                    items = parent.items;
                                    lambda = parent.lambda;
                                    proof {
                                        lemma_object_views_push(items@, done);
                                    }
                                    items.push(done);
                                    break;
                                },
                            }
                        }
                    }
                },
            }
        }
    }
    Err(ParseError(String::from_str("unexpected end of input: missing `)`")))
}

/// Reads source text into one tree: the tokens of the text, parsed.
pub fn parse(expr: &str) -> (result: Result<Object, ParseError>)
    ensures
        agrees(result, tree_of(tokens_of(expr@))),
{
    parse_tokens(tokenize(expr))
}

/// Parsing depends on the text alone: two results that `parse` may give for
/// one text are both trees with one view, or both errors with one message.
pub proof fn lemma_parse_repeatable(
    text: Seq<char>,
    first: Result<Object, ParseError>,
    second: Result<Object, ParseError>,
)
    requires
        agrees(first, tree_of(tokens_of(text))),
        agrees(second, tree_of(tokens_of(text))),
    ensures
        match (first, second) {
            (Ok(a), Ok(b)) => a@ == b@,
            (Err(e), Err(f)) => e.0@ == f.0@,
            _ => false,
        },
{
}

} // verus!

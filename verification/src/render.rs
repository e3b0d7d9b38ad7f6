//! Writing a tree back as tokens, and what that says of the parser: a run of
//! tokens parses to a tree exactly when the tree is a well-formed list and
//! the run begins with its tokens.

use crate::object::ObjectView;
use crate::parser::{
    all_symbols, lambda_of, lemma_parse_items_advances, parse_items, symbol_names, symbol_object,
    tree_of, Malformed,
};
use crate::token::TokenView;
use vstd::prelude::*;

verus! {

/// A name that reads back as a symbol: any but the two truth words.
pub open spec fn is_plain_name(name: Seq<char>) -> bool {
    name != "#t"@ && name != "#f"@
}

/// The symbol tokens of a run of names.
pub open spec fn name_tokens(names: Seq<Seq<char>>) -> Seq<TokenView> {
    Seq::new(names.len(), |i: int| TokenView::Symbol(names[i]))
}

/// The tokens of a tree. A list stands between its parentheses. A function
/// is the word `lambda`, its parameters in parentheses and its body in
/// parentheses; the parenthesis that ends it is the one of the list around it.
pub open spec fn render(o: ObjectView) -> Seq<TokenView>
    decreases o,
{
    match o {
        ObjectView::Integer(n) => seq![TokenView::Integer(n)],
        ObjectView::Float(s) => seq![TokenView::Float(s)],
        ObjectView::Symbol(s) => seq![TokenView::Symbol(s)],
        ObjectView::String(s) => seq![TokenView::String(s)],
        ObjectView::Bool(b) => seq![
            TokenView::Symbol(
                if b {
                    "#t"@
                } else {
                    "#f"@
                },
            ),
        ],
        ObjectView::List(items) => seq![TokenView::LParen] + render_all(items)
            + seq![TokenView::RParen],
        ObjectView::Lambda(params, body) => seq![TokenView::Lambda, TokenView::LParen]
            + name_tokens(params) + seq![TokenView::RParen, TokenView::LParen] + render_all(body)
            + seq![TokenView::RParen],
    }
}

/// The tokens of a run of trees, one after the other.
pub open spec fn render_all(items: Seq<ObjectView>) -> Seq<TokenView>
    decreases items,
{
    if items.len() == 0 {
        Seq::empty()
    } else {
        render(items[0]) + render_all(items.drop_first())
    }
}

/// A tree that the parser can give: no symbol is a truth word, no parameter
/// either, and a function is the last item of the list it stands in.
pub open spec fn well_formed(o: ObjectView) -> bool
    decreases o,
{
    match o {
        ObjectView::Symbol(s) => is_plain_name(s),
        ObjectView::List(items) => well_formed_items(items),
        ObjectView::Lambda(params, body) => {
            &&& forall|i: int| 0 <= i < params.len() ==> is_plain_name(#[trigger] params[i])
            &&& well_formed_items(body)
        },
        _ => true,
    }
}

/// The items of a list that the parser can give.
pub open spec fn well_formed_items(items: Seq<ObjectView>) -> bool
    decreases items,
{
    if items.len() == 0 {
        true
    } else {
        &&& well_formed(items[0])
        &&& (items[0] is Lambda ==> items.len() == 1)
        &&& well_formed_items(items.drop_first())
    }
}

/// The two truth words differ, and each has two characters.
proof fn lemma_truth_words()
    ensures
        "#t"@ != "#f"@,
{
    reveal_strlit("#t");
    reveal_strlit("#f");
    assert("#t"@[1] == 't');
    assert("#f"@[1] == 'f');
}

/// Reading the names of a parameter list gives back the names.
proof fn lemma_parse_names(
    tokens: Seq<TokenView>,
    pos: int,
    acc: Seq<ObjectView>,
    names: Seq<Seq<char>>,
)
    requires
        0 <= pos,
        pos + names.len() < tokens.len(),
        forall|i: int| 0 <= i < names.len() ==> is_plain_name(#[trigger] names[i]),
        forall|i: int| 0 <= i < names.len() ==> tokens[pos + i] == TokenView::Symbol(names[i]),
        tokens[pos + names.len()] == TokenView::RParen,
    ensures
        parse_items(tokens, pos, acc) == Ok::<(Seq<ObjectView>, int), Malformed>(
            (acc + Seq::new(names.len(), |i: int| ObjectView::Symbol(names[i])), pos + names.len() + 1),
        ),
    decreases names.len(),
{
    let symbols = Seq::new(names.len(), |i: int| ObjectView::Symbol(names[i]));
    if names.len() == 0 {
        assert(acc + symbols =~= acc);
    } else {
        let rest = names.drop_first();
        assert(tokens[pos + 0] == TokenView::Symbol(names[0]));
        assert(is_plain_name(names[0]));
        assert forall|i: int| 0 <= i < rest.len() implies tokens[pos + 1 + i] == TokenView::Symbol(
            #[trigger] rest[i],
        ) by {
            assert(tokens[pos + (i + 1)] == TokenView::Symbol(names[i + 1]));
        }
        assert forall|i: int| 0 <= i < rest.len() implies is_plain_name(#[trigger] rest[i]) by {
            assert(is_plain_name(names[i + 1]));
        }
        lemma_parse_names(tokens, pos + 1, acc.push(ObjectView::Symbol(names[0])), rest);
        assert(acc.push(ObjectView::Symbol(names[0])) + Seq::new(
            rest.len(),
            |i: int| ObjectView::Symbol(rest[i]),
        ) =~= acc + symbols);
    }
}

/// Reading the tokens of well-formed items, up to the parenthesis that
/// follows them, gives back the items, after those that were there before.
pub proof fn lemma_parse_rendered_items(
    tokens: Seq<TokenView>,
    pos: int,
    acc: Seq<ObjectView>,
    items: Seq<ObjectView>,
)
    requires
        well_formed_items(items),
        0 <= pos,
        pos + render_all(items).len() < tokens.len(),
        tokens.subrange(pos, pos + render_all(items).len()) == render_all(items),
        tokens[pos + render_all(items).len()] == TokenView::RParen,
    ensures
        parse_items(tokens, pos, acc) == Ok::<(Seq<ObjectView>, int), Malformed>(
            (acc + items, pos + render_all(items).len() + 1),
        ),
    decreases items,
{
    let shown = render_all(items);
    if items.len() == 0 {
        assert(acc + items =~= acc);
    } else {
        let head = items[0];
        let tail = items.drop_first();
        let first = render(head);
        let after = render_all(tail);
        assert(shown == first + after);
        assert forall|i: int| 0 <= i < shown.len() implies tokens[pos + i] == shown[i] by {
            assert(tokens.subrange(pos, pos + shown.len())[i] == shown[i]);
        }
        assert(tokens.subrange(pos + first.len(), pos + first.len() + after.len()) =~= after) by {
            assert forall|i: int| 0 <= i < after.len() implies tokens[pos + first.len() + i]
                == after[i] by {
                assert(shown[first.len() + i] == after[i]);
            }
        }
        assert(acc.push(head) + tail =~= acc + items);
        assert(well_formed(head));
        lemma_truth_words();
        match head {
            ObjectView::Integer(n) => {
                assert(tokens[pos + 0] == shown[0]);
                lemma_parse_rendered_items(tokens, pos + 1, acc.push(head), tail);
            },
            ObjectView::Float(s) => {
                assert(tokens[pos + 0] == shown[0]);
                lemma_parse_rendered_items(tokens, pos + 1, acc.push(head), tail);
            },
            ObjectView::String(s) => {
                assert(tokens[pos + 0] == shown[0]);
                lemma_parse_rendered_items(tokens, pos + 1, acc.push(head), tail);
            },
            ObjectView::Symbol(s) => {
                assert(tokens[pos + 0] == shown[0]);
                assert(symbol_object(s) == head);
                lemma_parse_rendered_items(tokens, pos + 1, acc.push(head), tail);
            },
            ObjectView::Bool(b) => {
                assert(tokens[pos + 0] == shown[0]);
                lemma_parse_rendered_items(tokens, pos + 1, acc.push(head), tail);
            },
            ObjectView::List(inner) => {
                let within = render_all(inner);
                assert(first == seq![TokenView::LParen] + within + seq![TokenView::RParen]);
                assert(tokens[pos + 0] == shown[0]);
                assert(tokens.subrange(pos + 1, pos + 1 + within.len()) =~= within) by {
                    assert forall|i: int| 0 <= i < within.len() implies tokens[pos + 1 + i]
                        == within[i] by {
                        assert(shown[1 + i] == within[i]);
                    }
                }
                assert(tokens[pos + (within.len() + 1)] == shown[within.len() as int + 1]);
                lemma_parse_rendered_items(tokens, pos + 1, Seq::empty(), inner);
                assert(Seq::<ObjectView>::empty() + inner =~= inner);
                lemma_parse_rendered_items(tokens, pos + first.len(), acc.push(head), tail);
            },
            ObjectView::Lambda(params, body) => {
                let names = name_tokens(params);
                let within = render_all(body);
                let symbols = Seq::new(params.len(), |i: int| ObjectView::Symbol(params[i]));
                assert(tail =~= Seq::<ObjectView>::empty());
                assert(after =~= Seq::<TokenView>::empty());
                assert(first == seq![TokenView::Lambda, TokenView::LParen] + names
                    + seq![TokenView::RParen, TokenView::LParen] + within
                    + seq![TokenView::RParen]);
                assert(shown =~= first);
                assert(tokens[pos + 0] == shown[0]);
                assert(tokens[pos + 1] == shown[1]);
                let p = pos + 2;
                assert forall|i: int| 0 <= i < params.len() implies tokens[p + i]
                    == TokenView::Symbol(#[trigger] params[i]) by {
                    assert(shown[2 + i] == names[i]);
                    assert(tokens[pos + (2 + i)] == shown[2 + i]);
                }
                assert(tokens[pos + (names.len() + 2)] == shown[names.len() as int + 2]);
                lemma_parse_names(tokens, p, Seq::empty(), params);
                assert(Seq::<ObjectView>::empty() + symbols =~= symbols);
                let q = p + params.len() + 1;
                assert(tokens[pos + (names.len() + 3)] == shown[names.len() as int + 3]);
                assert(tokens[q] == TokenView::LParen);
                assert(tokens.subrange(q + 1, q + 1 + within.len()) =~= within) by {
                    assert forall|i: int| 0 <= i < within.len() implies tokens[q + 1 + i]
                        == within[i] by {
                        assert(shown[names.len() + 4 + i] == within[i]);
                        assert(tokens[pos + (names.len() + 4 + i)] == shown[names.len() + 4 + i]);
                    }
                }
                assert(tokens[pos + (names.len() + within.len() + 4)] == shown[names.len() as int
                    + within.len() + 4]);
                lemma_parse_rendered_items(tokens, q + 1, Seq::empty(), body);
                assert(Seq::<ObjectView>::empty() + body =~= body);
                let r = q + 1 + within.len() + 1;
                assert(r == pos + shown.len());
                let group = seq![ObjectView::List(symbols), ObjectView::List(body)];
                assert(Seq::<ObjectView>::empty().push(ObjectView::List(symbols)).push(
                    ObjectView::List(body),
                ) =~= group);
                // The parameter list, then the body, then the closing parenthesis.
                assert(parse_items(tokens, q, seq![ObjectView::List(symbols)]) == Ok::<
                    (Seq<ObjectView>, int),
                    Malformed,
                >((group, r + 1))) by {
                    assert(seq![ObjectView::List(symbols)].push(ObjectView::List(body)) =~= group);
                    assert(parse_items(tokens, r, group) == Ok::<(Seq<ObjectView>, int), Malformed>(
                        (group, r + 1),
                    ));
                }
                assert(parse_items(tokens, pos + 1, Seq::empty()) == Ok::<
                    (Seq<ObjectView>, int),
                    Malformed,
                >((group, r + 1))) by {
                    assert(Seq::<ObjectView>::empty().push(ObjectView::List(symbols))
                        =~= seq![ObjectView::List(symbols)]);
                }
                assert(all_symbols(symbols));
                assert(symbol_names(symbols) =~= params);
                assert(lambda_of(group) == Some(head));
                assert(acc.push(head) =~= acc + items);
            },
        }
    }
}

/// Parsing the tokens of a well-formed list gives back the list, with as many
/// children as there are forms between its parentheses, whatever follows the
/// parenthesis that closes it.
pub proof fn lemma_parse_rendered(items: Seq<ObjectView>, rest: Seq<TokenView>)
    requires
        well_formed_items(items),
    ensures
        tree_of(render(ObjectView::List(items)) + rest) == Ok::<ObjectView, Malformed>(
            ObjectView::List(items),
        ),
{
    let shown = render_all(items);
    let tokens = render(ObjectView::List(items)) + rest;
    assert(render(ObjectView::List(items)) == seq![TokenView::LParen] + shown
        + seq![TokenView::RParen]);
    assert(tokens[0] == TokenView::LParen);
    assert(tokens.subrange(1, shown.len() as int + 1) =~= shown);
    assert(tokens[shown.len() as int + 1] == TokenView::RParen);
    lemma_parse_rendered_items(tokens, 1, Seq::empty(), items);
    assert(Seq::<ObjectView>::empty() + items =~= items);
}

/// The tokens of an item followed by others are its own, then theirs; and
/// the run is well formed when the item is, the others are, and a function
/// has nothing after it.
proof fn lemma_first_item(head: ObjectView, tail: Seq<ObjectView>)
    ensures
        render_all(seq![head] + tail) == render(head) + render_all(tail),
        well_formed_items(seq![head] + tail) == (well_formed(head) && (head is Lambda
            ==> tail.len() == 0) && well_formed_items(tail)),
{
    let items = seq![head] + tail;
    assert(items[0] == head);
    assert(items.drop_first() =~= tail);
    assert(render_all(items) == render(items[0]) + render_all(items.drop_first()));
    assert(well_formed_items(items) == (well_formed(items[0]) && (items[0] is Lambda
        ==> items.len() == 1) && well_formed_items(items.drop_first())));
}

/// In a well-formed run every item is well formed.
proof fn lemma_well_formed_item(items: Seq<ObjectView>, i: int)
    requires
        well_formed_items(items),
        0 <= i < items.len(),
    ensures
        well_formed(items[i]),
    decreases items.len(),
{
    if i > 0 {
        lemma_well_formed_item(items.drop_first(), i - 1);
    }
}

/// The tokens of a run of symbols are the symbol tokens of their names.
proof fn lemma_render_symbols(params: Seq<ObjectView>)
    requires
        all_symbols(params),
    ensures
        render_all(params) == name_tokens(symbol_names(params)),
    decreases params.len(),
{
    if params.len() == 0 {
        assert(render_all(params) =~= name_tokens(symbol_names(params)));
    } else {
        let tail = params.drop_first();
        assert(params[0] is Symbol);
        assert forall|i: int| 0 <= i < tail.len() implies (#[trigger] tail[i]) is Symbol by {
            assert(params[i + 1] is Symbol);
        }
        lemma_render_symbols(tail);
        assert(render(params[0]) == seq![TokenView::Symbol(params[0]->Symbol_0)]);
        assert(render_all(params) == render(params[0]) + render_all(tail));
        assert(render(params[0]) + name_tokens(symbol_names(tail)) =~= name_tokens(
            symbol_names(params),
        ));
    }
}

/// What was read as the items of a list is well formed, and the tokens that
/// were read are the tokens of those items and the closing parenthesis.
pub proof fn lemma_parsed_items_render(tokens: Seq<TokenView>, pos: int, acc: Seq<ObjectView>)
    requires
        parse_items(tokens, pos, acc) is Ok,
    ensures
        ({
            let (all, next) = parse_items(tokens, pos, acc)->Ok_0;
            let items = all.skip(acc.len() as int);
            &&& acc.len() <= all.len()
            &&& all == acc + items
            &&& well_formed_items(items)
            &&& 0 <= pos < next <= tokens.len()
            &&& tokens.subrange(pos, next) == render_all(items) + seq![TokenView::RParen]
        }),
    decreases tokens.len() - pos,
{
    let (all, next) = parse_items(tokens, pos, acc)->Ok_0;
    let items = all.skip(acc.len() as int);
    let close = seq![TokenView::RParen];
    lemma_parse_items_advances(tokens, pos, acc);
    lemma_truth_words();
    match tokens[pos] {
        TokenView::RParen => {
            assert(items =~= Seq::<ObjectView>::empty());
            assert(all =~= acc + items);
            assert(tokens.subrange(pos, next) =~= render_all(items) + close);
        },
        TokenView::LParen => {
            lemma_parsed_items_render(tokens, pos + 1, Seq::empty());
            let (inner, mid) = parse_items(tokens, pos + 1, Seq::empty())->Ok_0;
            assert(inner.skip(0) =~= inner);
            let head = ObjectView::List(inner);
            lemma_parsed_items_render(tokens, mid, acc.push(head));
            let tail = all.skip(acc.len() as int + 1);
            assert(items =~= seq![head] + tail);
            assert(all =~= acc + items);
            lemma_first_item(head, tail);
            assert(well_formed(head));
            assert(render(head) == seq![TokenView::LParen] + render_all(inner) + close);
            assert(tokens.subrange(pos, mid) =~= seq![TokenView::LParen] + tokens.subrange(
                pos + 1,
                mid,
            ));
            assert(tokens.subrange(pos, next) =~= tokens.subrange(pos, mid) + tokens.subrange(
                mid,
                next,
            ));
            assert(tokens.subrange(pos, next) =~= render_all(items) + close);
        },
        TokenView::Lambda => {
            lemma_parsed_items_render(tokens, pos + 1, Seq::empty());
            let (group, end) = parse_items(tokens, pos + 1, Seq::empty())->Ok_0;
            assert(group.skip(0) =~= group);
            assert(end == next);
            let head = lambda_of(group).unwrap();
            let params = group[0]->List_0;
            let body = group[1]->List_0;
            assert(all == acc.push(head));
            assert(items =~= seq![head]);
            assert(all =~= acc + items);
            // The group is a list of symbols and a list, both well formed.
            lemma_well_formed_item(group, 0);
            lemma_well_formed_item(group, 1);
            assert(well_formed_items(params));
            assert(well_formed_items(body));
            assert forall|i: int| 0 <= i < params.len() implies is_plain_name(
                #[trigger] symbol_names(params)[i],
            ) by {
                lemma_well_formed_item(params, i);
                assert(params[i] is Symbol);
            }
            assert(well_formed(head));
            lemma_first_item(head, Seq::empty());
            assert(seq![head] + Seq::<ObjectView>::empty() =~= seq![head]);
            assert(render_all(Seq::<ObjectView>::empty()) =~= Seq::<TokenView>::empty());
            // The tokens of the group are those of the function.
            lemma_render_symbols(params);
            lemma_first_item(group[0], seq![group[1]]);
            lemma_first_item(group[1], Seq::empty());
            assert(seq![group[1]] + Seq::<ObjectView>::empty() =~= seq![group[1]]);
            assert(group =~= seq![group[0]] + seq![group[1]]);
            assert(render(group[0]) == seq![TokenView::LParen] + render_all(params) + close);
            assert(render(group[1]) == seq![TokenView::LParen] + render_all(body) + close);
            assert(render(head) =~= seq![TokenView::Lambda] + render_all(group));
            assert(tokens.subrange(pos, next) =~= seq![TokenView::Lambda] + tokens.subrange(
                pos + 1,
                next,
            ));
            assert(tokens.subrange(pos, next) =~= render_all(items) + close);
        },
        _ => {
            let head = match tokens[pos] {
                TokenView::Integer(n) => ObjectView::Integer(n),
                TokenView::Float(s) => ObjectView::Float(s),
                TokenView::String(s) => ObjectView::String(s),
                TokenView::Symbol(s) => symbol_object(s),
                _ => ObjectView::Bool(false),
            };
            lemma_parsed_items_render(tokens, pos + 1, acc.push(head));
            let tail = all.skip(acc.len() as int + 1);
            assert(items =~= seq![head] + tail);
            assert(all =~= acc + items);
            lemma_first_item(head, tail);
            assert(well_formed(head));
            assert(render(head) == seq![tokens[pos]]);
            assert(tokens.subrange(pos, next) =~= seq![tokens[pos]] + tokens.subrange(
                pos + 1,
                next,
            ));
            assert(tokens.subrange(pos, next) =~= render_all(items) + close);
        },
    }
}

/// A run of tokens parses to a tree exactly when the tree is a well-formed
/// list and the run begins with the tokens of the tree.
pub proof fn lemma_parse_inverts_render(tokens: Seq<TokenView>, tree: ObjectView)
    ensures
        tree_of(tokens) == Ok::<ObjectView, Malformed>(tree) <==> {
            &&& tree is List
            &&& well_formed(tree)
            &&& render(tree).is_prefix_of(tokens)
        },
{
    if tree_of(tokens) == Ok::<ObjectView, Malformed>(tree) {
        lemma_parsed_items_render(tokens, 1, Seq::empty());
        let (items, next) = parse_items(tokens, 1, Seq::empty())->Ok_0;
        assert(items.skip(0) =~= items);
        assert(render(tree) == seq![TokenView::LParen] + render_all(items)
            + seq![TokenView::RParen]);
        assert(tokens.subrange(0, next) =~= seq![TokenView::LParen] + tokens.subrange(1, next));
        assert(render(tree) =~= tokens.subrange(0, next));
    }
    if tree is List && well_formed(tree) && render(tree).is_prefix_of(tokens) {
        let shown = render(tree);
        let rest = tokens.skip(shown.len() as int);
        assert(tokens =~= shown + rest);
        lemma_parse_rendered(tree->List_0, rest);
    }
}

} // verus!

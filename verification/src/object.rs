//! Expression nodes: what the parser builds.

use vstd::prelude::*;

verus! {

/// A parsed expression. Each node owns its children.
///
/// A `Float` holds the spelling of its literal, as the token did.
#[derive(PartialEq, Debug)]
pub enum Object {
    /// A whole-number literal.
    Integer(i64),
    /// A decimal literal, as it was written.
    Float(String),
    /// An identifier.
    Symbol(String),
    /// A string literal.
    String(String),
    /// A truth value, written `#t` or `#f`.
    Bool(bool),
    /// A parenthesized group, in source order.
    List(Vec<Object>),
    /// An anonymous function: the names of its parameters and its body.
    Lambda(Vec<String>, Vec<Object>),
}

/// What an expression is, with sequences in place of vectors and strings.
pub ghost enum ObjectView {
    Integer(i64),
    Float(Seq<char>),
    Symbol(Seq<char>),
    String(Seq<char>),
    Bool(bool),
    List(Seq<ObjectView>),
    Lambda(Seq<Seq<char>>, Seq<ObjectView>),
}

impl View for Object {
    type V = ObjectView;

    open spec fn view(&self) -> ObjectView
        decreases self,
    {
        match self {
            Object::Integer(n) => ObjectView::Integer(*n),
            Object::Float(s) => ObjectView::Float(s@),
            Object::Symbol(s) => ObjectView::Symbol(s@),
            Object::String(s) => ObjectView::String(s@),
            Object::Bool(b) => ObjectView::Bool(*b),
            Object::List(items) => ObjectView::List(object_views(items@)),
            Object::Lambda(params, body) => ObjectView::Lambda(
                string_views(params@),
                object_views(body@),
            ),
        }
    }
}

/// The views of a run of expressions, in order.
pub open spec fn object_views(items: Seq<Object>) -> Seq<ObjectView>
    decreases items,
{
    if items.len() == 0 {
        Seq::empty()
    } else {
        object_views(items.drop_last()).push(items.last()@)
    }
}

/// The contents of a run of strings, in order.
pub open spec fn string_views(names: Seq<String>) -> Seq<Seq<char>> {
    names.map_values(|name: String| name@)
}

/// The views of a run of expressions are as many as the expressions, and
/// each is the view of the expression in its place.
pub proof fn lemma_object_views(items: Seq<Object>)
    ensures
        object_views(items).len() == items.len(),
        forall|i: int| 0 <= i < items.len() ==> (#[trigger] object_views(items)[i]) == items[i]@,
    decreases items.len(),
{
    if items.len() > 0 {
        lemma_object_views(items.drop_last());
        assert(object_views(items) == object_views(items.drop_last()).push(items.last()@));
    } else {
        assert(object_views(items) == Seq::<ObjectView>::empty());
    }
}

/// Adding an expression at the end adds its view at the end.
pub proof fn lemma_object_views_push(items: Seq<Object>, last: Object)
    ensures
        object_views(items.push(last)) == object_views(items).push(last@),
{
    assert(items.push(last).drop_last() =~= items);
}

/// A copy of a run of names.
fn clone_names(names: &Vec<String>) -> (copy: Vec<String>)
    ensures
        string_views(copy@) == string_views(names@),
{
    let mut copy: Vec<String> = Vec::new();
    let n: usize = names.len();
    let mut i: usize = 0;
    while i < n
        invariant
            n == names.len(),
            i <= n,
            copy@.len() == i,
            forall|k: int| 0 <= k < i ==> (#[trigger] copy@[k])@ == names@[k]@,
        decreases n - i,
    {
        copy.push(names[i].clone());
        i += 1;
    }
    assert(string_views(copy@) =~= string_views(names@));
    copy
}

/// A copy of a run of expressions.
fn clone_items(items: &Vec<Object>) -> (copy: Vec<Object>)
    ensures
        object_views(copy@) == object_views(items@),
    decreases items, 0int,
{
    let mut copy: Vec<Object> = Vec::new();
    let n: usize = items.len();
    let mut i: usize = 0;
    while i < n
        invariant
            n == items.len(),
            i <= n,
            copy@.len() == i,
            forall|k: int| 0 <= k < i ==> (#[trigger] copy@[k])@ == items@[k]@,
        decreases n - i,
    {
        copy.push(items[i].clone());
        i += 1;
    }
    proof {
        lemma_object_views(copy@);
        lemma_object_views(items@);
        assert(object_views(copy@) =~= object_views(items@));
    }
    copy
}

impl Clone for Object {
    /// A tree of its own with the same view.
    fn clone(&self) -> (copy: Object)
        ensures
            copy@ == self@,
        decreases self, 1int,
    {
        match self {
            Object::Integer(n) => Object::Integer(*n),
            Object::Float(s) => Object::Float(s.clone()),
            Object::Symbol(s) => Object::Symbol(s.clone()),
            Object::String(s) => Object::String(s.clone()),
            Object::Bool(b) => Object::Bool(*b),
            Object::List(items) => Object::List(clone_items(items)),
            Object::Lambda(params, body) => Object::Lambda(clone_names(params), clone_items(body)),
        }
    }
}

} // verus!

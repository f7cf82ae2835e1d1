//! The expression tree the parser produces: span-annotated nodes, with
//! reserved special-form words kept apart from ordinary symbols.

use vstd::prelude::*;

use crate::codemap::{Span, Spanned};
use crate::interner::Name;

verus! {

/// A reserved special-form word, recognized at the syntax level so that user
/// code cannot rebind it.
#[derive(Clone, Copy, PartialEq, Eq, Structural, Debug)]
pub enum Operator {
    Def,
    If,
    Let,
}

/// An expression node. A `String` node carries no payload: its contents are
/// the slice of the owning source between its quotes.
#[derive(Debug)]
pub enum Expr_ {
    Bool(bool),
    Integer(i64),
    Keyword(Name),
    List(Vec<Expr>),
    Nil,
    Operator(Operator),
    String,
    Symbol(Name),
    Vector(Vec<Expr>),
}

/// A parsed expression: a node paired with its span.
pub type Expr = Spanned<Expr_>;

/// The mathematical shadow of an expression tree: children held as
/// sequences, so that spec functions can build one.
pub struct ExprV {
    pub span: Span,
    pub node: ExprV_,
}

pub enum ExprV_ {
    Bool(bool),
    Integer(i64),
    Keyword(Name),
    List(Seq<ExprV>),
    Nil,
    Operator(Operator),
    String,
    Symbol(Name),
    Vector(Seq<ExprV>),
}

/// The shadow an expression stands for. It keeps every span, payload and
/// child, so it determines the tree.
pub open spec fn expr_to_v(e: Expr) -> ExprV
    decreases e,
{
    ExprV {
        span: e.span,
        node: match e.node {
            Expr_::Bool(b) => ExprV_::Bool(b),
            Expr_::Integer(v) => ExprV_::Integer(v),
            Expr_::Keyword(n) => ExprV_::Keyword(n),
            Expr_::List(es) => ExprV_::List(seq_expr_to_v(es@)),
            Expr_::Nil => ExprV_::Nil,
            Expr_::Operator(op) => ExprV_::Operator(op),
            Expr_::String => ExprV_::String,
            Expr_::Symbol(n) => ExprV_::Symbol(n),
            Expr_::Vector(es) => ExprV_::Vector(seq_expr_to_v(es@)),
        },
    }
}

/// The shadows of a sequence of expressions.
pub open spec fn seq_expr_to_v(es: Seq<Expr>) -> Seq<ExprV>
    decreases es,
{
    if es.len() == 0 {
        Seq::empty()
    } else {
        seq![expr_to_v(es[0])] + seq_expr_to_v(es.subrange(1, es.len() as int))
    }
}

/// `seq_expr_to_v` is the element-wise shadow.
pub proof fn lemma_seq_expr_to_v(es: Seq<Expr>)
    ensures
        seq_expr_to_v(es).len() == es.len(),
        forall|i: int| 0 <= i < es.len() ==> seq_expr_to_v(es)[i] == expr_to_v(#[trigger] es[i]),
    decreases es.len(),
{
    if es.len() > 0 {
        let tail = es.subrange(1, es.len() as int);
        lemma_seq_expr_to_v(tail);
        assert forall|i: int| 0 <= i < es.len() implies seq_expr_to_v(es)[i] == expr_to_v(
            #[trigger] es[i],
        ) by {
            if i > 0 {
                assert(tail[i - 1] == es[i]);
                assert(seq_expr_to_v(es)[i] == seq_expr_to_v(tail)[i - 1]);
            }
        }
    }
}

/// The children of a compound node, or the empty sequence.
pub open spec fn expr_children(e: Expr) -> Seq<Expr> {
    match e.node {
        Expr_::List(es) => es@,
        Expr_::Vector(es) => es@,
        _ => Seq::empty(),
    }
}

/// Every span in the tree is well formed, ends within a source of `n`
/// characters, and lies within its parent's span; a `String` node is at
/// least as wide as its two quotes.
pub open spec fn expr_wf(e: Expr, n: nat) -> bool
    decreases e,
{
    &&& e.span.wf()
    &&& e.span.hi <= n
    &&& (e.node is String ==> e.span.lo + 2 <= e.span.hi)
    &&& forall|i: int|
        0 <= i < expr_children(e).len() ==> {
            &&& e.span.contains((#[trigger] expr_children(e)[i]).span)
            &&& expr_wf(expr_children(e)[i], n)
        }
}

/// No operator word stands anywhere an expression is expected: only at the
/// head of a list. The syntax level reports a stray operator before
/// evaluation is reached.
pub open spec fn no_stray_operator(e: Expr) -> bool
    decreases e,
{
    match e.node {
        Expr_::Operator(_) => false,
        Expr_::List(es) => {
            &&& (es@.len() > 0 ==> (es@[0].node is Operator || no_stray_operator(es@[0])))
            &&& forall|i: int| 1 <= i < es@.len() ==> no_stray_operator(#[trigger] es@[i])
        },
        Expr_::Vector(es) => forall|i: int|
            0 <= i < es@.len() ==> no_stray_operator(#[trigger] es@[i]),
        _ => true,
    }
}

/// Every name in the tree was issued by an interner holding `n` entries.
pub open spec fn expr_names_valid(e: Expr, n: nat) -> bool
    decreases e,
{
    &&& match e.node {
        Expr_::Keyword(name) => name.raw < n,
        Expr_::Symbol(name) => name.raw < n,
        _ => true,
    }
    &&& forall|i: int|
        0 <= i < expr_children(e).len() ==> expr_names_valid(#[trigger] expr_children(e)[i], n)
}

/// An expression sits above each of its children in the well-founded order
/// recursion descends along.
pub proof fn lemma_child_decreases(e: Expr, i: int)
    requires
        0 <= i < expr_children(e).len(),
    ensures
        decreases_to!(e => expr_children(e)[i]),
{
    match e.node {
        Expr_::List(es) => {
            assert(decreases_to!(e => e.node));
            assert(decreases_to!(e.node => e.node->List_0));
            assert(decreases_to!(e.node->List_0 => e.node->List_0@));
            assert(decreases_to!(e.node->List_0@ => e.node->List_0@[i]));
            assert(decreases_to!(e => es@[i]));
        },
        Expr_::Vector(es) => {
            assert(decreases_to!(e => e.node));
            assert(decreases_to!(e.node => e.node->Vector_0));
            assert(decreases_to!(e.node->Vector_0 => e.node->Vector_0@));
            assert(decreases_to!(e.node->Vector_0@ => e.node->Vector_0@[i]));
            assert(decreases_to!(e => es@[i]));
        },
        _ => {},
    }
}

} // verus!

//! The pretty-printer: renders an expression back to text. Atoms reproduce
//! their original lexeme from the source; compound forms are rendered with
//! single-space separation.

use vstd::prelude::*;

use crate::ast::{expr_children, expr_wf, lemma_child_decreases, Expr, Expr_};
use crate::codemap::Source;

verus! {

/// The canonical textual form of an expression.
pub open spec fn pp_expr(e: Expr, src: Seq<char>) -> Seq<char>
    decreases e,
{
    match e.node {
        Expr_::List(es) => "("@ + pp_exprs(es@, src) + ")"@,
        Expr_::Vector(es) => "["@ + pp_exprs(es@, src) + "]"@,
        _ => src.subrange(e.span.lo as int, e.span.hi as int),
    }
}

/// Renders a sequence of expressions joined by single spaces.
pub open spec fn pp_exprs(es: Seq<Expr>, src: Seq<char>) -> Seq<char>
    decreases es,
{
    if es.len() == 0 {
        Seq::empty()
    } else if es.len() == 1 {
        pp_expr(es[0], src)
    } else {
        pp_expr(es[0], src) + " "@ + pp_exprs(es.subrange(1, es.len() as int), src)
    }
}

/// Appending one more element to a rendered join adds one space and its form.
proof fn lemma_pp_exprs_snoc(es: Seq<Expr>, src: Seq<char>, i: int)
    requires
        1 <= i < es.len(),
    ensures
        pp_exprs(es.subrange(0, i + 1), src) == pp_exprs(es.subrange(0, i), src) + " "@ + pp_expr(
            es[i],
            src,
        ),
    decreases i,
{
    let a = es.subrange(0, i + 1);
    let b = es.subrange(0, i);
    let rest = es.subrange(1, es.len() as int);
    assert(a[0] == es[0]);
    if i == 1 {
        assert(a.len() == 2);
        assert(a[1] == es[1]);
        assert(a.subrange(1, 2) =~= seq![es[1]]);
        assert(pp_exprs(seq![es[1]], src) == pp_expr(es[1], src));
        assert(pp_exprs(a, src) == pp_expr(a[0], src) + " "@ + pp_exprs(a.subrange(1, 2), src));
        assert(b =~= seq![es[0]]);
    } else {
        lemma_pp_exprs_snoc(rest, src, i - 1);
        assert(a.subrange(1, i + 1) =~= rest.subrange(0, i));
        assert(b.subrange(1, i) =~= rest.subrange(0, i - 1));
        assert(rest[i - 1] == es[i]);
        assert(pp_exprs(a, src) == pp_expr(es[0], src) + " "@ + pp_exprs(
            rest.subrange(0, i),
            src,
        ));
        assert(pp_exprs(b, src) == pp_expr(es[0], src) + " "@ + pp_exprs(
            rest.subrange(0, i - 1),
            src,
        ));
        assert(pp_expr(es[0], src) + " "@ + (pp_exprs(rest.subrange(0, i - 1), src) + " "@
            + pp_expr(es[i], src)) =~= (pp_expr(es[0], src) + " "@ + pp_exprs(
            rest.subrange(0, i - 1),
            src,
        )) + " "@ + pp_expr(es[i], src));
    }
}

/// Renders the canonical textual form of `e`.
#[verifier::loop_isolation(false)]
#[verifier::rlimit(60)]
pub fn expr(e: &Expr, source: &Source) -> (r: String)
    requires
        expr_wf(*e, source@.len()),
    ensures
        r@ == pp_expr(*e, source@),
    decreases *e,
{
    match &e.node {
        Expr_::List(es) | Expr_::Vector(es) => {
            proof {
                assert(expr_children(*e) == es@);
            }
            let is_list = matches!(&e.node, Expr_::List(_));
            let mut out = if is_list {
                String::from_str("(")
            } else {
                String::from_str("[")
            };
            let ghost open = out@;
            let mut i: usize = 0;
            while i < es.len()
                invariant
                    i <= es@.len(),
                    out@ == open + pp_exprs(es@.subrange(0, i as int), source@),
                decreases es@.len() - i,
            {
                proof {
                    lemma_child_decreases(*e, i as int);
                    assert(decreases_to!(*e => es@[i as int]));
                    assert(expr_wf(es@[i as int], source@.len()));
                }
                if i > 0 {
                    out.append(" ");
                }
                let piece = crate::pp::expr(&es[i], source);
                out.append(piece.as_str());
                proof {
                    let pre1 = es@.subrange(0, i as int + 1);
                    if i == 0 {
                        assert(pre1 =~= seq![es@[0]]);
                        assert(Seq::<char>::empty() + pp_expr(es@[0], source@) =~= pp_expr(
                            es@[0],
                            source@,
                        ));
                        assert(out@ =~= open + pp_exprs(pre1, source@));
                    } else {
                        lemma_pp_exprs_snoc(es@, source@, i as int);
                        assert(out@ =~= open + pp_exprs(pre1, source@));
                    }
                }
                i += 1;
            }
            proof {
                assert(es@.subrange(0, es@.len() as int) =~= es@);
            }
            if is_list {
                out.append(")");
                proof {
                    assert(out@ =~= "("@ + pp_exprs(es@, source@) + ")"@);
                }
            } else {
                out.append("]");
                proof {
                    assert(out@ =~= "["@ + pp_exprs(es@, source@) + "]"@);
                }
            }
            out
        },
        _ => {
            let s = source.slice(e.span);
            s.to_owned()
        },
    }
}

} // verus!

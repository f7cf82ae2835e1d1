//! Laws of the evaluator, stated over the spec-level interpreter that the
//! executable evaluator is proved to implement.

use vstd::prelude::*;

use crate::ast::{expr_children, Expr, Expr_, Operator};
use crate::env::StackV;
use crate::eval::{
    eval_bindings, eval_expr, eval_exprs, falsey, lemma_eval_bindings_frames,
    lemma_eval_expr_frames, Error, ValueV,
};

verus! {

/// Law: `let` scoping. Evaluating a `let` form leaves the environment stack
/// exactly as it was, on success and on error alike: bindings introduced by
/// the `let` are not visible after it returns, and shadowed outer bindings
/// are restored.
pub proof fn lemma_let_scoping(e: Expr, src: Seq<char>, stk: StackV)
    requires
        stk.len() >= 1,
        e.node is List,
        e.node->List_0@.len() >= 1,
        e.node->List_0@[0].node == Expr_::Operator(Operator::Let),
    ensures
        eval_expr(e, src, stk).0 == stk,
{
    let es = e.node->List_0@;
    let tail = es.subrange(1, es.len() as int);
    if tail.len() == 2 {
        assert(tail[0] == es[1]);
        assert(tail[1] == es[2]);
        match tail[0].node {
            Expr_::List(bs) | Expr_::Vector(bs) => {
                if bs@.len() % 2 == 0 {
                    let stk1 = stk.push(Map::<crate::interner::Name, ValueV>::empty());
                    lemma_eval_bindings_frames(bs@, src, stk1);
                    let (stk2, r) = eval_bindings(bs@, src, stk1);
                    match r {
                        Ok(()) => {
                            lemma_eval_expr_frames(tail[1], src, stk2);
                            let (stk3, _) = eval_expr(tail[1], src, stk2);
                            assert(stk3.drop_last() =~= stk);
                        },
                        Err(_) => {
                            assert(stk2.drop_last() =~= stk);
                        },
                    }
                }
            },
            _ => {},
        }
    }
}

/// No `def` form occurs anywhere in the expression.
pub open spec fn def_free(e: Expr) -> bool
    decreases e,
{
    &&& (e.node is Operator ==> e.node->Operator_0 != Operator::Def)
    &&& forall|i: int|
        0 <= i < expr_children(e).len() ==> def_free(#[trigger] expr_children(e)[i])
}

/// Law: evaluating a `def`-free expression leaves the environment stack
/// unchanged, whether it succeeds or errors.
pub proof fn lemma_def_free_preserves_env(e: Expr, src: Seq<char>, stk: StackV)
    requires
        stk.len() >= 1,
        def_free(e),
    ensures
        eval_expr(e, src, stk).0 == stk,
    decreases e,
{
    match e.node {
        Expr_::Vector(es) => {
            assert(expr_children(e) == es@);
            lemma_def_free_seq(es@, src, stk);
        },
        Expr_::List(es) => {
            assert(expr_children(e) == es@);
            if es@.len() > 0 {
                let head = es@[0];
                let tail = es@.subrange(1, es@.len() as int);
                assert forall|i: int| 0 <= i < tail.len() implies def_free(
                    #[trigger] tail[i],
                ) by {
                    assert(tail[i] == es@[i + 1]);
                }
                match head.node {
                    Expr_::Operator(op) => {
                        match op {
                            Operator::Def => {
                                assert(!def_free(es@[0]));
                                assert(false);
                            },
                            Operator::If => {
                                if tail.len() == 3 {
                                    lemma_def_free_preserves_env(tail[0], src, stk);
                                    let (s2, r) = eval_expr(tail[0], src, stk);
                                    match r {
                                        Ok(v) => {
                                            if falsey(v) {
                                                lemma_def_free_preserves_env(tail[2], src, s2);
                                            } else {
                                                lemma_def_free_preserves_env(tail[1], src, s2);
                                            }
                                        },
                                        Err(_) => {},
                                    }
                                }
                            },
                            Operator::Let => {
                                lemma_let_scoping(e, src, stk);
                            },
                        }
                    },
                    Expr_::Symbol(n) => {
                        match crate::env::stack_get(stk, n) {
                            Some(ValueV::Function(_)) => {
                                lemma_def_free_seq(tail, src, stk);
                            },
                            _ => {},
                        }
                    },
                    _ => {},
                }
            }
        },
        _ => {},
    }
}

/// See [`lemma_def_free_preserves_env`].
pub proof fn lemma_def_free_seq(es: Seq<Expr>, src: Seq<char>, stk: StackV)
    requires
        stk.len() >= 1,
        forall|i: int| 0 <= i < es.len() ==> def_free(#[trigger] es[i]),
    ensures
        eval_exprs(es, src, stk).0 == stk,
    decreases es,
{
    if es.len() > 0 {
        lemma_def_free_preserves_env(es[0], src, stk);
        let (s2, r) = eval_expr(es[0], src, stk);
        match r {
            Ok(_) => {
                let rest = es.subrange(1, es.len() as int);
                lemma_def_free_seq(rest, src, s2);
            },
            Err(_) => {},
        }
    }
}

/// Law: a failing `def` does not touch the environment. If `e` is
/// `(def x E)` with `E` free of nested `def`s and evaluating `E` errors,
/// the whole stack — the global frame included — is exactly as before.
pub proof fn lemma_def_error_no_mutation(e: Expr, src: Seq<char>, stk: StackV)
    requires
        stk.len() >= 1,
        e.node is List,
        e.node->List_0@.len() == 3,
        e.node->List_0@[0].node == Expr_::Operator(Operator::Def),
        e.node->List_0@[1].node is Symbol,
        def_free(e.node->List_0@[2]),
        eval_expr(e.node->List_0@[2], src, stk).1 is Err,
    ensures
        eval_expr(e, src, stk).0 == stk,
        eval_expr(e, src, stk).1 == Result::<ValueV, Error>::Err(
            eval_expr(e.node->List_0@[2], src, stk).1->Err_0,
        ),
{
    let es = e.node->List_0@;
    let tail = es.subrange(1, es.len() as int);
    assert(tail[0] == es[1]);
    assert(tail[1] == es[2]);
    lemma_def_free_preserves_env(es[2], src, stk);
}

/// Law: the falsey contract of `if`. In `(if C A B)`, when `C` yields
/// `false` or `nil` exactly `B` is evaluated, and when it yields any other
/// value exactly `A` is, in the environment the condition left behind.
pub proof fn lemma_if_falsey(e: Expr, src: Seq<char>, stk: StackV)
    requires
        e.node is List,
        e.node->List_0@.len() == 4,
        e.node->List_0@[0].node == Expr_::Operator(Operator::If),
    ensures
        ({
            let es = e.node->List_0@;
            let (s2, r) = eval_expr(es[1], src, stk);
            match r {
                Ok(c) => eval_expr(e, src, stk) == if falsey(c) {
                    eval_expr(es[3], src, s2)
                } else {
                    eval_expr(es[2], src, s2)
                },
                Err(err) => eval_expr(e, src, stk) == (s2, Result::<ValueV, Error>::Err(err)),
            }
        }),
{
    let es = e.node->List_0@;
    let tail = es.subrange(1, es.len() as int);
    assert(tail[0] == es[1]);
    assert(tail[1] == es[2]);
    assert(tail[2] == es[3]);
}

/// Law: left-to-right evaluation. If every expression before index `i`
/// evaluates successfully and the one at `i` fails, the whole sequence fails
/// with exactly that error — the first failure is the one reported.
pub proof fn lemma_first_error_wins(es: Seq<Expr>, src: Seq<char>, stk: StackV, i: int)
    requires
        0 <= i < es.len(),
        eval_exprs(es.subrange(0, i), src, stk).1 is Ok,
        eval_expr(es[i], src, eval_exprs(es.subrange(0, i), src, stk).0).1 is Err,
    ensures
        ({
            let (s1, _) = eval_exprs(es.subrange(0, i), src, stk);
            let (s2, r) = eval_expr(es[i], src, s1);
            eval_exprs(es, src, stk) == (s2, Result::<Seq<ValueV>, Error>::Err(r->Err_0))
        }),
{
    crate::eval::lemma_eval_exprs_split(es, src, stk, i);
    let (s1, _) = eval_exprs(es.subrange(0, i), src, stk);
    let suffix = es.subrange(i, es.len() as int);
    assert(suffix[0] == es[i]);
}

/// Law: evaluation never unbinds a name. Every name bound in the topmost
/// frame before evaluation is still bound in it afterwards: writes only add
/// or overwrite, and the frames `let` pushes are popped again.
pub proof fn lemma_eval_expr_keeps_keys(e: Expr, src: Seq<char>, stk: StackV)
    requires
        stk.len() >= 1,
    ensures
        ({
            let (s2, _) = eval_expr(e, src, stk);
            forall|k: crate::interner::Name|
                stk.last().contains_key(k) ==> (#[trigger] s2.last().contains_key(k))
        }),
    decreases e,
{
    let (s_out, _) = eval_expr(e, src, stk);
    match e.node {
        Expr_::Vector(es) => {
            lemma_eval_exprs_keeps_keys(es@, src, stk);
            let (s2, _) = eval_exprs(es@, src, stk);
            assert forall|k: crate::interner::Name|
                stk.last().contains_key(k) implies (#[trigger] s_out.last().contains_key(k)) by {
                assert(s2.last().contains_key(k));
            }
        },
        Expr_::List(es) => {
            if es@.len() > 0 {
                let head = es@[0];
                let tail = es@.subrange(1, es@.len() as int);
                match head.node {
                    Expr_::Operator(op) => {
                        lemma_eval_form_keeps_keys(op, e.span, tail, src, stk);
                        let (s2, _) = crate::eval::eval_form(op, e.span, tail, src, stk);
                        assert forall|k: crate::interner::Name|
                            stk.last().contains_key(k) implies (#[trigger] s_out.last().contains_key(
                            k,
                        )) by {
                            assert(s2.last().contains_key(k));
                        }
                    },
                    Expr_::Symbol(n) => {
                        match crate::env::stack_get(stk, n) {
                            Some(ValueV::Function(_)) => {
                                lemma_eval_exprs_keeps_keys(tail, src, stk);
                                let (s2, _) = eval_exprs(tail, src, stk);
                                assert forall|k: crate::interner::Name|
                                    stk.last().contains_key(k) implies (
                                #[trigger] s_out.last().contains_key(k)) by {
                                    assert(s2.last().contains_key(k));
                                }
                            },
                            _ => {},
                        }
                    },
                    _ => {},
                }
            }
        },
        _ => {},
    }
}

/// See [`lemma_eval_expr_keeps_keys`].
pub proof fn lemma_eval_form_keeps_keys(
    op: Operator,
    span: crate::codemap::Span,
    tail: Seq<Expr>,
    src: Seq<char>,
    stk: StackV,
)
    requires
        stk.len() >= 1,
    ensures
        ({
            let (s2, _) = crate::eval::eval_form(op, span, tail, src, stk);
            forall|k: crate::interner::Name|
                stk.last().contains_key(k) ==> (#[trigger] s2.last().contains_key(k))
        }),
    decreases tail,
{
    match op {
        Operator::Def => {
            if tail.len() == 2 && tail[0].node is Symbol {
                lemma_eval_expr_keeps_keys(tail[1], src, stk);
                lemma_eval_expr_frames(tail[1], src, stk);
                let (s2, r) = eval_expr(tail[1], src, stk);
                match r {
                    Ok(v) => {
                        let n = tail[0].node->Symbol_0;
                        let s3 = crate::env::stack_insert(s2, n, v);
                        assert(s3.last() == s2.last().insert(n, v));
                        assert forall|k: crate::interner::Name|
                            stk.last().contains_key(k) implies (#[trigger] s3.last().contains_key(
                            k,
                        )) by {
                            assert(s2.last().contains_key(k));
                        }
                    },
                    Err(_) => {},
                }
            }
        },
        Operator::If => {
            if tail.len() == 3 {
                lemma_eval_expr_keeps_keys(tail[0], src, stk);
                lemma_eval_expr_frames(tail[0], src, stk);
                let (s2, r) = eval_expr(tail[0], src, stk);
                match r {
                    Ok(v) => {
                        let branch = if falsey(v) { tail[2] } else { tail[1] };
                        lemma_eval_expr_keeps_keys(branch, src, s2);
                        let (s3, _) = eval_expr(branch, src, s2);
                        assert forall|k: crate::interner::Name|
                            stk.last().contains_key(k) implies (#[trigger] s3.last().contains_key(
                            k,
                        )) by {
                            assert(s2.last().contains_key(k));
                        }
                    },
                    Err(_) => {},
                }
            }
        },
        Operator::Let => {
            if tail.len() == 2 {
                match tail[0].node {
                    Expr_::List(bs) | Expr_::Vector(bs) => {
                        if bs@.len() % 2 == 0 {
                            let stk1 = stk.push(Map::<crate::interner::Name, ValueV>::empty());
                            lemma_eval_bindings_frames(bs@, src, stk1);
                            let (stk2, r) = eval_bindings(bs@, src, stk1);
                            match r {
                                Ok(()) => {
                                    lemma_eval_expr_frames(tail[1], src, stk2);
                                    let (stk3, _) = eval_expr(tail[1], src, stk2);
                                    assert(stk3.drop_last().last() == stk.last());
                                },
                                Err(_) => {
                                    assert(stk2.drop_last().last() == stk.last());
                                },
                            }
                        }
                    },
                    _ => {},
                }
            }
        },
    }
}

/// See [`lemma_eval_expr_keeps_keys`].
pub proof fn lemma_eval_exprs_keeps_keys(es: Seq<Expr>, src: Seq<char>, stk: StackV)
    requires
        stk.len() >= 1,
    ensures
        ({
            let (s2, _) = eval_exprs(es, src, stk);
            forall|k: crate::interner::Name|
                stk.last().contains_key(k) ==> (#[trigger] s2.last().contains_key(k))
        }),
    decreases es,
{
    if es.len() > 0 {
        lemma_eval_expr_keeps_keys(es[0], src, stk);
        lemma_eval_expr_frames(es[0], src, stk);
        let (s2, r) = eval_expr(es[0], src, stk);
        match r {
            Ok(_) => {
                lemma_eval_exprs_keeps_keys(es.subrange(1, es.len() as int), src, s2);
                let (s3, _) = eval_exprs(es.subrange(1, es.len() as int), src, s2);
                assert forall|k: crate::interner::Name|
                    stk.last().contains_key(k) implies (#[trigger] s3.last().contains_key(
                    k,
                )) by {
                    assert(s2.last().contains_key(k));
                }
            },
            Err(_) => {},
        }
    }
}

/// Law: a successful `def` is visible afterwards. The defined name resolves
/// to the defined value in the environment the evaluation leaves behind —
/// the same environment the next iteration of the loop starts from.
pub proof fn lemma_def_persists(e: Expr, src: Seq<char>, stk: StackV)
    requires
        stk.len() >= 1,
        e.node is List,
        e.node->List_0@.len() == 3,
        e.node->List_0@[0].node == Expr_::Operator(Operator::Def),
        e.node->List_0@[1].node is Symbol,
        eval_expr(e.node->List_0@[2], src, stk).1 is Ok,
    ensures
        ({
            let es = e.node->List_0@;
            let n = es[1].node->Symbol_0;
            let v = eval_expr(es[2], src, stk).1->Ok_0;
            &&& eval_expr(e, src, stk).1 == Result::<ValueV, Error>::Ok(v)
            &&& crate::env::stack_get(eval_expr(e, src, stk).0, n) == Some(v)
        }),
{
    let es = e.node->List_0@;
    let tail = es.subrange(1, es.len() as int);
    assert(tail[0] == es[1]);
    assert(tail[1] == es[2]);
    let n = es[1].node->Symbol_0;
    let (s2, r) = eval_expr(es[2], src, stk);
    lemma_eval_expr_frames(es[2], src, stk);
    let v = r->Ok_0;
    let s3 = crate::env::stack_insert(s2, n, v);
    assert(s3.len() == s2.len());
    assert(s3.last() == s2.last().insert(n, v));
    assert(s3.last().contains_key(n));
}

/// Every span an evaluation error carries localizes inside the source line
/// the expression was parsed from.
pub proof fn lemma_eval_err_span(e: Expr, src: Seq<char>, stk: StackV, n: nat)
    requires
        crate::ast::expr_wf(e, n),
        crate::ast::no_stray_operator(e),
    ensures
        ({
            let (_, r) = eval_expr(e, src, stk);
            r is Err ==> r->Err_0.span.wf() && r->Err_0.span.hi <= n
        }),
    decreases e,
{
    match e.node {
        Expr_::Vector(es) => {
            assert(expr_children(e) == es@);
            lemma_eval_exprs_err_span(es@, src, stk, n);
        },
        Expr_::List(es) => {
            assert(expr_children(e) == es@);
            if es@.len() > 0 {
                let head = es@[0];
                let tail = es@.subrange(1, es@.len() as int);
                assert forall|i: int| 0 <= i < tail.len() implies crate::ast::expr_wf(
                    #[trigger] tail[i],
                    n,
                ) && crate::ast::no_stray_operator(tail[i]) by {
                    assert(tail[i] == es@[i + 1]);
                }
                assert(crate::ast::expr_wf(es@[0], n));
                match head.node {
                    Expr_::Operator(op) => lemma_eval_form_err_span(op, e.span, tail, src, stk, n),
                    Expr_::Symbol(sym) => {
                        match crate::env::stack_get(stk, sym) {
                            Some(ValueV::Function(_)) => lemma_eval_exprs_err_span(
                                tail,
                                src,
                                stk,
                                n,
                            ),
                            _ => {},
                        }
                    },
                    _ => {},
                }
            }
        },
        _ => {},
    }
}

/// See [`lemma_eval_err_span`].
pub proof fn lemma_eval_form_err_span(
    op: Operator,
    span: crate::codemap::Span,
    tail: Seq<Expr>,
    src: Seq<char>,
    stk: StackV,
    n: nat,
)
    requires
        span.wf(),
        span.hi <= n,
        forall|i: int| 0 <= i < tail.len() ==> crate::ast::expr_wf(#[trigger] tail[i], n),
        forall|i: int| 0 <= i < tail.len() ==> crate::ast::no_stray_operator(#[trigger] tail[i]),
    ensures
        ({
            let (_, r) = crate::eval::eval_form(op, span, tail, src, stk);
            r is Err ==> r->Err_0.span.wf() && r->Err_0.span.hi <= n
        }),
    decreases tail,
{
    match op {
        Operator::Def => {
            if tail.len() == 2 && tail[0].node is Symbol {
                lemma_eval_err_span(tail[1], src, stk, n);
            }
        },
        Operator::If => {
            if tail.len() == 3 {
                lemma_eval_err_span(tail[0], src, stk, n);
                let (s2, r) = eval_expr(tail[0], src, stk);
                match r {
                    Ok(v) => {
                        if falsey(v) {
                            lemma_eval_err_span(tail[2], src, s2, n);
                        } else {
                            lemma_eval_err_span(tail[1], src, s2, n);
                        }
                    },
                    Err(_) => {},
                }
            }
        },
        Operator::Let => {
            if tail.len() == 2 {
                match tail[0].node {
                    Expr_::List(bs) | Expr_::Vector(bs) => {
                        if bs@.len() % 2 == 0 {
                            assert(expr_children(tail[0]) == bs@);
                            assert forall|i: int| 0 <= i < bs@.len() implies crate::ast::expr_wf(
                                #[trigger] bs@[i],
                                n,
                            ) by {
                                assert(crate::ast::expr_wf(tail[0], n));
                            }
                            assert forall|i: int|
                                0 <= i < bs@.len() && i % 2 == 1 implies crate::ast::no_stray_operator(
                                #[trigger] bs@[i],
                            ) by {
                                assert(crate::ast::no_stray_operator(tail[0]));
                            }
                            let stk1 = stk.push(Map::<crate::interner::Name, ValueV>::empty());
                            lemma_eval_bindings_err_span(bs@, src, stk1, n);
                            let (stk2, r) = eval_bindings(bs@, src, stk1);
                            match r {
                                Ok(()) => {
                                    lemma_eval_err_span(tail[1], src, stk2, n);
                                },
                                Err(_) => {},
                            }
                        }
                    },
                    _ => {},
                }
            }
        },
    }
}

/// See [`lemma_eval_err_span`].
pub proof fn lemma_eval_bindings_err_span(
    bs: Seq<Expr>,
    src: Seq<char>,
    stk: StackV,
    n: nat,
)
    requires
        forall|i: int| 0 <= i < bs.len() ==> crate::ast::expr_wf(#[trigger] bs[i], n),
        forall|i: int|
            0 <= i < bs.len() && i % 2 == 1 ==> crate::ast::no_stray_operator(#[trigger] bs[i]),
    ensures
        ({
            let (_, r) = eval_bindings(bs, src, stk);
            r is Err ==> r->Err_0.span.wf() && r->Err_0.span.hi <= n
        }),
    decreases bs,
{
    if bs.len() >= 2 {
        match bs[0].node {
            Expr_::Symbol(sym) => {
                lemma_eval_err_span(bs[1], src, stk, n);
                let (s2, r) = eval_expr(bs[1], src, stk);
                match r {
                    Ok(v) => {
                        let rest = bs.subrange(2, bs.len() as int);
                        assert forall|i: int| 0 <= i < rest.len() implies crate::ast::expr_wf(
                            #[trigger] rest[i],
                            n,
                        ) by {
                            assert(rest[i] == bs[i + 2]);
                        }
                        assert forall|i: int|
                            0 <= i < rest.len() && i % 2 == 1 implies crate::ast::no_stray_operator(
                            #[trigger] rest[i],
                        ) by {
                            assert(rest[i] == bs[i + 2]);
                        }
                        lemma_eval_bindings_err_span(
                            rest,
                            src,
                            crate::env::stack_insert(s2, sym, v),
                            n,
                        );
                    },
                    Err(_) => {},
                }
            },
            _ => {},
        }
    }
}

/// See [`lemma_eval_err_span`].
pub proof fn lemma_eval_exprs_err_span(es: Seq<Expr>, src: Seq<char>, stk: StackV, n: nat)
    requires
        forall|i: int| 0 <= i < es.len() ==> crate::ast::expr_wf(#[trigger] es[i], n),
        forall|i: int| 0 <= i < es.len() ==> crate::ast::no_stray_operator(#[trigger] es[i]),
    ensures
        ({
            let (_, r) = eval_exprs(es, src, stk);
            r is Err ==> r->Err_0.span.wf() && r->Err_0.span.hi <= n
        }),
    decreases es,
{
    if es.len() > 0 {
        lemma_eval_err_span(es[0], src, stk, n);
        let (s2, r) = eval_expr(es[0], src, stk);
        match r {
            Ok(_) => {
                let rest = es.subrange(1, es.len() as int);
                assert forall|i: int| 0 <= i < rest.len() implies crate::ast::expr_wf(
                    #[trigger] rest[i],
                    n,
                ) && crate::ast::no_stray_operator(rest[i]) by {
                    assert(rest[i] == es[i + 1]);
                }
                lemma_eval_exprs_err_span(rest, src, s2, n);
            },
            Err(_) => {},
        }
    }
}

} // verus!

//! The parser: recursive descent over the token stream, producing one
//! span-annotated expression tree. Every tree it returns is well formed —
//! each child's span lies inside its parent's — and a reserved operator word
//! is accepted only at the head of a list.

use vstd::prelude::*;

use crate::ast::{
    expr_children, expr_names_valid, expr_to_v, expr_wf, lemma_seq_expr_to_v, no_stray_operator,
    seq_expr_to_v, Expr, ExprV, ExprV_, Expr_,
};
use crate::codemap::{Source, Span, Spanned};
use crate::interner::Interner;
use crate::lexer::{tokenize, tokens_wf, Error, Error_, Token};

verus! {

/// In a well-formed token stream earlier tokens end before later ones begin.
proof fn lemma_tokens_sorted(toks: Seq<Spanned<Token>>, n: nat, m: nat, i: int, j: int)
    requires
        tokens_wf(toks, n, m),
        0 <= i < j < toks.len(),
    ensures
        toks[i].span.hi <= toks[j].span.lo,
    decreases j - i,
{
    if i + 1 < j {
        lemma_tokens_sorted(toks, n, m, i + 1, j);
        assert(crate::lexer::token_wf(toks[i + 1], n));
    }
}

/// One expression parsed from the tokens at `i`, mirroring the recursive
/// descent: `(j, Ok(ev))` means the tokens `[i, j)` derive exactly the tree
/// `ev`; an error carries the kind and span §4.D prescribes. `allow_op`
/// admits a bare operator word, as a list head position does.
pub open spec fn parse_at(
    toks: Seq<Spanned<Token>>,
    i: int,
    src_len: nat,
    allow_op: bool,
) -> (int, Result<ExprV, Error>)
    decreases toks.len() - i, 0int
    when 0 <= i <= toks.len()
{
    if i >= toks.len() {
        (
            i,
            Err(
                Spanned {
                    span: Span { lo: src_len as usize, hi: src_len as usize },
                    node: Error_::UnexpectedEndOfInput,
                },
            ),
        )
    } else {
        let t = toks[i];
        match t.node {
            Token::BoolTrue => (i + 1, Ok(ExprV { span: t.span, node: ExprV_::Bool(true) })),
            Token::BoolFalse => (i + 1, Ok(ExprV { span: t.span, node: ExprV_::Bool(false) })),
            Token::Integer(v) => (i + 1, Ok(ExprV { span: t.span, node: ExprV_::Integer(v) })),
            Token::Keyword(n) => (i + 1, Ok(ExprV { span: t.span, node: ExprV_::Keyword(n) })),
            Token::Symbol(n) => (i + 1, Ok(ExprV { span: t.span, node: ExprV_::Symbol(n) })),
            Token::Nil => (i + 1, Ok(ExprV { span: t.span, node: ExprV_::Nil })),
            Token::Str => (i + 1, Ok(ExprV { span: t.span, node: ExprV_::String })),
            Token::Op(op) => {
                if allow_op {
                    (i + 1, Ok(ExprV { span: t.span, node: ExprV_::Operator(op) }))
                } else {
                    (i, Err(Spanned { span: t.span, node: Error_::UnexpectedToken }))
                }
            },
            Token::RParen => (i, Err(Spanned { span: t.span, node: Error_::UnexpectedToken })),
            Token::RBracket => (i, Err(Spanned { span: t.span, node: Error_::UnexpectedToken })),
            Token::LParen => parse_elems(toks, i + 1, src_len, t.span, true, Seq::empty()),
            Token::LBracket => parse_elems(toks, i + 1, src_len, t.span, false, Seq::empty()),
        }
    }
}

/// The elements of a list or vector from `i`, the elements in `acc` already
/// parsed; ends at the matching closer, with the compound span running from
/// the opener through the closer.
pub open spec fn parse_elems(
    toks: Seq<Spanned<Token>>,
    i: int,
    src_len: nat,
    open_span: Span,
    is_list: bool,
    acc: Seq<ExprV>,
) -> (int, Result<ExprV, Error>)
    decreases toks.len() - i, 1int
    when 0 <= i <= toks.len()
{
    if i >= toks.len() {
        (i, Err(Spanned { span: open_span, node: Error_::UnbalancedDelimiter }))
    } else if (is_list && toks[i].node is RParen) || (!is_list && toks[i].node is RBracket) {
        let span = Span { lo: open_span.lo, hi: toks[i].span.hi };
        (
            i + 1,
            Ok(
                ExprV {
                    span,
                    node: if is_list {
                        ExprV_::List(acc)
                    } else {
                        ExprV_::Vector(acc)
                    },
                },
            ),
        )
    } else if (is_list && toks[i].node is RBracket) || (!is_list && toks[i].node is RParen) {
        (i, Err(Spanned { span: open_span, node: Error_::UnbalancedDelimiter }))
    } else {
        let (j, r) = parse_at(toks, i, src_len, is_list && acc.len() == 0);
        match r {
            Ok(ev) => {
                // parsing one element always advances the position; the bound
                // keeps the recursion well founded without a separate proof
                let j2 = if i < j <= toks.len() {
                    j
                } else {
                    i + 1
                };
                parse_elems(toks, j2, src_len, open_span, is_list, acc.push(ev))
            },
            Err(err) => (j, Err(err)),
        }
    }
}

/// The parse of one line with interner table `tbl`: scan, one expression,
/// and nothing after it.
pub open spec fn parse_src(src: Seq<char>, tbl: Seq<Seq<char>>) -> (Seq<Seq<char>>, Result<
    ExprV,
    Error,
>) {
    let (tbl2, lexed) = crate::lexer::lex(src, 0, tbl);
    match lexed {
        Err(err) => (tbl2, Err(err)),
        Ok(toks) => {
            let (j, r) = parse_at(toks, 0, src.len(), false);
            match r {
                Err(err) => (tbl2, Err(err)),
                Ok(ev) => {
                    if j < toks.len() {
                        (tbl2, Err(Spanned { span: toks[j].span, node: Error_::UnexpectedToken }))
                    } else {
                        (tbl2, Ok(ev))
                    }
                },
            }
        },
    }
}

/// Parses one expression starting at `*i`. `allow_op` admits a bare operator
/// word, as a list head position does.
#[verifier::loop_isolation(false)]
#[verifier::rlimit(60)]
fn parse_expr(
    toks: &Vec<Spanned<Token>>,
    i: &mut usize,
    src_len: usize,
    m: Ghost<nat>,
    allow_op: bool,
) -> (r: Result<Expr, Error>)
    requires
        tokens_wf(toks@, src_len as nat, m@),
        *old(i) <= toks@.len(),
    ensures
        match r {
            Ok(e) => {
                &&& *old(i) < *final(i) <= toks@.len()
                &&& expr_wf(e, src_len as nat)
                &&& expr_names_valid(e, m@)
                &&& (e.node is Operator ==> allow_op)
                &&& (e.node is Operator || no_stray_operator(e))
                &&& e.span.lo == toks@[*old(i) as int].span.lo
                &&& e.span.hi == toks@[*final(i) - 1].span.hi
                &&& parse_at(toks@, *old(i) as int, src_len as nat, allow_op) == (
                    *final(i) as int,
                    Ok::<ExprV, Error>(expr_to_v(e)),
                )
            },
            Err(err) => err.span.wf() && err.span.hi <= src_len && parse_at(
                toks@,
                *old(i) as int,
                src_len as nat,
                allow_op,
            ).1 == Err::<ExprV, Error>(err),
        },
    decreases toks@.len() - *old(i),
{
    if *i >= toks.len() {
        return Err(Spanned::new(Span::new(src_len, src_len), Error_::UnexpectedEndOfInput));
    }
    let tok = toks[*i];
    proof {
        assert(crate::lexer::token_wf(toks@[*i as int], src_len as nat));
    }
    match tok.node {
        Token::BoolTrue => {
            *i += 1;
            Ok(Spanned::new(tok.span, Expr_::Bool(true)))
        },
        Token::BoolFalse => {
            *i += 1;
            Ok(Spanned::new(tok.span, Expr_::Bool(false)))
        },
        Token::Integer(v) => {
            *i += 1;
            Ok(Spanned::new(tok.span, Expr_::Integer(v)))
        },
        Token::Keyword(name) => {
            *i += 1;
            Ok(Spanned::new(tok.span, Expr_::Keyword(name)))
        },
        Token::Symbol(name) => {
            *i += 1;
            Ok(Spanned::new(tok.span, Expr_::Symbol(name)))
        },
        Token::Nil => {
            *i += 1;
            Ok(Spanned::new(tok.span, Expr_::Nil))
        },
        Token::Str => {
            *i += 1;
            Ok(Spanned::new(tok.span, Expr_::String))
        },
        Token::Op(op) => {
            if allow_op {
                *i += 1;
                Ok(Spanned::new(tok.span, Expr_::Operator(op)))
            } else {
                Err(Spanned::new(tok.span, Error_::UnexpectedToken))
            }
        },
        Token::RParen => Err(Spanned::new(tok.span, Error_::UnexpectedToken)),
        Token::RBracket => Err(Spanned::new(tok.span, Error_::UnexpectedToken)),
        Token::LParen => parse_compound(toks, i, src_len, m, true),
        Token::LBracket => parse_compound(toks, i, src_len, m, false),
    }
}

/// Parses the elements of a list or vector, the opener standing at `*i`.
/// In a list the first element may be an operator word.
#[verifier::loop_isolation(false)]
#[verifier::rlimit(100)]
fn parse_compound(
    toks: &Vec<Spanned<Token>>,
    i: &mut usize,
    src_len: usize,
    m: Ghost<nat>,
    is_list: bool,
) -> (r: Result<Expr, Error>)
    requires
        tokens_wf(toks@, src_len as nat, m@),
        *old(i) < toks@.len(),
    ensures
        match r {
            Ok(e) => {
                &&& *old(i) < *final(i) <= toks@.len()
                &&& expr_wf(e, src_len as nat)
                &&& expr_names_valid(e, m@)
                &&& no_stray_operator(e)
                &&& e.span.lo == toks@[*old(i) as int].span.lo
                &&& e.span.hi == toks@[*final(i) - 1].span.hi
                &&& parse_elems(
                    toks@,
                    *old(i) as int + 1,
                    src_len as nat,
                    toks@[*old(i) as int].span,
                    is_list,
                    Seq::empty(),
                ) == (*final(i) as int, Ok::<ExprV, Error>(expr_to_v(e)))
            },
            Err(err) => err.span.wf() && err.span.hi <= src_len && parse_elems(
                toks@,
                *old(i) as int + 1,
                src_len as nat,
                toks@[*old(i) as int].span,
                is_list,
                Seq::empty(),
            ).1 == Err::<ExprV, Error>(err),
        },
    decreases toks@.len() - *old(i), 1int,
{
    let ghost i0 = *i as int;
    let n_toks = toks.len();
    proof {
        assert(*i < n_toks);
    }
    let open_span = toks[*i].span;
    *i += 1;
    let mut elems: Vec<Expr> = Vec::new();
    proof {
        assert(seq_expr_to_v(elems@) =~= Seq::<ExprV>::empty());
    }
    loop
        invariant
            i0 < *i <= toks@.len(),
            open_span == toks@[i0].span,
            parse_elems(toks@, i0 + 1, src_len as nat, open_span, is_list, Seq::empty())
                == parse_elems(
                toks@,
                *i as int,
                src_len as nat,
                open_span,
                is_list,
                seq_expr_to_v(elems@),
            ),
            forall|k: int|
                0 <= k < elems@.len() ==> expr_wf(#[trigger] elems@[k], src_len as nat),
            forall|k: int| 0 <= k < elems@.len() ==> expr_names_valid(#[trigger] elems@[k], m@),
            forall|k: int| 1 <= k < elems@.len() ==> no_stray_operator(#[trigger] elems@[k]),
            elems@.len() > 0 ==> (elems@[0].node is Operator || no_stray_operator(elems@[0])),
            elems@.len() > 0 && elems@[0].node is Operator ==> is_list,
            forall|k: int|
                0 <= k < elems@.len() ==> open_span.lo <= (#[trigger] elems@[k]).span.lo
                    && elems@[k].span.hi <= toks@[*i - 1].span.hi,
        decreases toks@.len() - *i,
    {
        if *i >= toks.len() {
            proof {
                assert(parse_elems(
                    toks@,
                    *i as int,
                    src_len as nat,
                    open_span,
                    is_list,
                    seq_expr_to_v(elems@),
                ).1 == Err::<ExprV, Error>(
                    Spanned { span: open_span, node: Error_::UnbalancedDelimiter },
                ));
            }
            return Err(Spanned::new(open_span, Error_::UnbalancedDelimiter));
        }
        let close_candidate = toks[*i].node;
        let is_closer = if is_list {
            matches!(close_candidate, Token::RParen)
        } else {
            matches!(close_candidate, Token::RBracket)
        };
        let is_wrong_closer = if is_list {
            matches!(close_candidate, Token::RBracket)
        } else {
            matches!(close_candidate, Token::RParen)
        };
        if is_closer {
            let close_span = toks[*i].span;
            proof {
                lemma_tokens_sorted(toks@, src_len as nat, m@, i0, *i as int);
                assert forall|k: int| 0 <= k < elems@.len() implies (#[trigger] elems@[k]).span.hi
                    <= close_span.hi by {
                    if i0 < *i - 1 {
                        lemma_tokens_sorted(toks@, src_len as nat, m@, *i as int - 1, *i as int);
                    }
                    assert(crate::lexer::token_wf(toks@[*i as int], src_len as nat));
                }
            }
            let ghost i_close = *i as int;
            *i += 1;
            let span = Span::new(open_span.lo, close_span.hi);
            let e = if is_list {
                Spanned::new(span, Expr_::List(elems))
            } else {
                Spanned::new(span, Expr_::Vector(elems))
            };
            proof {
                assert(expr_children(e) == e.node->List_0@ || expr_children(e)
                    == e.node->Vector_0@);
                assert(expr_wf(e, src_len as nat));
                assert(no_stray_operator(e));
                assert(parse_elems(
                    toks@,
                    i_close,
                    src_len as nat,
                    open_span,
                    is_list,
                    seq_expr_to_v(expr_children(e)),
                ) == (i_close + 1, Ok::<ExprV, Error>(expr_to_v(e))));
            }
            return Ok(e);
        }
        if is_wrong_closer {
            proof {
                assert(parse_elems(
                    toks@,
                    *i as int,
                    src_len as nat,
                    open_span,
                    is_list,
                    seq_expr_to_v(elems@),
                ).1 == Err::<ExprV, Error>(
                    Spanned { span: open_span, node: Error_::UnbalancedDelimiter },
                ));
            }
            return Err(Spanned::new(open_span, Error_::UnbalancedDelimiter));
        }
        let ghost i_before = *i as int;
        let ghost accv = seq_expr_to_v(elems@);
        let allow = is_list && elems.len() == 0;
        proof {
            lemma_seq_expr_to_v(elems@);
            assert(allow == (is_list && accv.len() == 0));
        }
        match parse_expr(toks, i, src_len, m, allow) {
            Ok(e) => {
                proof {
                    lemma_tokens_sorted(toks@, src_len as nat, m@, i0, i_before);
                    if i0 < i_before - 1 {
                        lemma_tokens_sorted(toks@, src_len as nat, m@, i_before - 1, i_before);
                    }
                    assert(parse_elems(toks@, i_before, src_len as nat, open_span, is_list, accv)
                        == parse_elems(
                        toks@,
                        *i as int,
                        src_len as nat,
                        open_span,
                        is_list,
                        accv.push(expr_to_v(e)),
                    ));
                    lemma_seq_expr_to_v(elems@.push(e));
                    assert forall|k: int| 0 <= k < elems@.len() + 1 implies seq_expr_to_v(
                        elems@.push(e),
                    )[k] == accv.push(expr_to_v(e))[k] by {
                        if k < elems@.len() {
                            assert(elems@.push(e)[k] == elems@[k]);
                        } else {
                            assert(elems@.push(e)[k] == e);
                        }
                    }
                    assert(seq_expr_to_v(elems@.push(e)) =~= accv.push(expr_to_v(e)));
                }
                elems.push(e);
            },
            Err(err) => {
                proof {
                    assert(parse_elems(toks@, i_before, src_len as nat, open_span, is_list, accv).1
                        == Err::<ExprV, Error>(err));
                }
                return Err(err);
            },
        }
    }
}

/// Parses exactly one expression from the source, interning the names it
/// meets. On success the tree is well formed: every span lies inside the
/// source, every child's span lies inside its parent's, every name was
/// issued by the grown interner, and no operator word stands anywhere but a
/// list head. Trailing tokens after the expression are an error, as is a
/// stray operator word, so evaluation never meets one.
pub fn expr(source: &Source, interner: &mut Interner) -> (r: Result<Expr, Error>)
    requires
        old(interner).wf(),
    ensures
        final(interner).wf(),
        old(interner)@.len() <= final(interner)@.len(),
        forall|i: int|
            0 <= i < old(interner)@.len() ==> final(interner)@[i] == old(interner)@[i],
        match r {
            Ok(e) => {
                &&& expr_wf(e, source@.len())
                &&& no_stray_operator(e)
                &&& expr_names_valid(e, final(interner)@.len())
            },
            Err(err) => err.span.wf() && err.span.hi <= source@.len(),
        },
        ({
            let (tbl2, res) = parse_src(source@, old(interner)@);
            &&& final(interner)@ == tbl2
            &&& match (r, res) {
                (Ok(e), Ok(ev)) => expr_to_v(e) == ev,
                (Err(e1), Err(e2)) => e1 == e2,
                _ => false,
            }
        }),
{
    let src_len = source.as_str().unicode_len();
    let toks = match tokenize(source, interner) {
        Ok(toks) => toks,
        Err(err) => {
            return Err(err);
        },
    };
    let mut i: usize = 0;
    let e = match parse_expr(&toks, &mut i, src_len, Ghost(interner@.len()), false) {
        Ok(e) => e,
        Err(err) => {
            return Err(err);
        },
    };
    if i < toks.len() {
        return Err(Spanned::new(toks[i].span, Error_::UnexpectedToken));
    }
    Ok(e)
}

} // verus!

//! The per-line step of the read-eval-print loop. The interner and the
//! environment stack persist across iterations; the driver around this only
//! reads lines and writes what `step` hands back.

use vstd::prelude::*;

use crate::ast::{expr_to_v, Expr};
use crate::codemap::Source;
use crate::diagnostics;
use crate::diagnostics::{eval_header, render, syntax_header};
use crate::env::{Stack, StackV};
use crate::eval::{eval_expr, Builtin, Function, Value, ValueV};
use crate::fmt::display_v;
use crate::interner::{Interner, Name};
use crate::lexer::is_ws;
use crate::parse::parse_src;

verus! {

/// Nothing but whitespace.
pub open spec fn blank(s: Seq<char>) -> bool {
    forall|i: int| 0 <= i < s.len() ==> is_ws(#[trigger] s[i])
}

/// Whether the line holds nothing but whitespace.
pub fn is_blank(line: &str) -> (r: bool)
    ensures
        r == blank(line@),
{
    let len = line.unicode_len();
    let mut i: usize = 0;
    while i < len
        invariant
            i <= len,
            len == line@.len(),
            forall|j: int| 0 <= j < i ==> is_ws(#[trigger] line@[j]),
        decreases len - i,
    {
        let c = line.get_char(i);
        if !(c == ' ' || c == '\t' || c == ',' || c == '\n' || c == '\r') {
            return false;
        }
        i += 1;
    }
    true
}

/// The persistent state of the loop: one interner and one environment stack,
/// created once; the global frame never leaves.
pub struct Repl {
    interner: Interner,
    env: Stack,
}

impl Repl {
    /// The interner table is duplicate-free and the global frame is in place.
    pub closed spec fn wf(&self) -> bool {
        self.interner.wf() && self.env.wf()
    }

    /// The environment stack, as the contracts of the evaluator see it.
    pub closed spec fn env_v(&self) -> StackV {
        self.env@
    }

    /// The interner table.
    pub closed spec fn names_v(&self) -> Seq<Seq<char>> {
        self.interner@
    }

    /// A fresh REPL: an empty global frame with the built-in functions
    /// `+ - * / =` bound under the first five handles.
    pub fn new() -> (r: Repl)
        ensures
            r.wf(),
            r.env_v().len() == 1,
            r.names_v() == seq!["+"@, "-"@, "*"@, "/"@, "="@],
            crate::env::stack_get(r.env_v(), Name { raw: 0 }) == Some(
                ValueV::Function(Builtin::Add),
            ),
            crate::env::stack_get(r.env_v(), Name { raw: 1 }) == Some(
                ValueV::Function(Builtin::Sub),
            ),
            crate::env::stack_get(r.env_v(), Name { raw: 2 }) == Some(
                ValueV::Function(Builtin::Mul),
            ),
            crate::env::stack_get(r.env_v(), Name { raw: 3 }) == Some(
                ValueV::Function(Builtin::Div),
            ),
            crate::env::stack_get(r.env_v(), Name { raw: 4 }) == Some(
                ValueV::Function(Builtin::Eq),
            ),
            r.env_v() == seq![
                map![
                    Name { raw: 0 } => ValueV::Function(Builtin::Add),
                    Name { raw: 1 } => ValueV::Function(Builtin::Sub),
                    Name { raw: 2 } => ValueV::Function(Builtin::Mul),
                    Name { raw: 3 } => ValueV::Function(Builtin::Div),
                    Name { raw: 4 } => ValueV::Function(Builtin::Eq),
                ],
            ],
    {
        proof {
            reveal_strlit("+");
            reveal_strlit("-");
            reveal_strlit("*");
            reveal_strlit("/");
            reveal_strlit("=");
        }
        let mut interner = Interner::new();
        let mut env = Stack::new_global();
        let n_add = interner.intern("+");
        env.insert(n_add, Value::Function(Function::new(Builtin::Add)));
        let n_sub = interner.intern("-");
        env.insert(n_sub, Value::Function(Function::new(Builtin::Sub)));
        let n_mul = interner.intern("*");
        env.insert(n_mul, Value::Function(Function::new(Builtin::Mul)));
        let n_div = interner.intern("/");
        env.insert(n_div, Value::Function(Function::new(Builtin::Div)));
        let n_eq = interner.intern("=");
        env.insert(n_eq, Value::Function(Function::new(Builtin::Eq)));
        proof {
            assert("+"@[0] == '+' && "-"@[0] == '-' && "*"@[0] == '*' && "/"@[0] == '/' && "="@[0]
                == '=');
            assert("+"@ != "-"@ && "+"@ != "*"@ && "+"@ != "/"@ && "+"@ != "="@);
            assert("-"@ != "*"@ && "-"@ != "/"@ && "-"@ != "="@);
            assert("*"@ != "/"@ && "*"@ != "="@);
            assert("/"@ != "="@);
            assert(interner@ =~= seq!["+"@, "-"@, "*"@, "/"@, "="@]);
            assert(n_add == Name { raw: 0 });
            assert(n_sub == Name { raw: 1 });
            assert(n_mul == Name { raw: 2 });
            assert(n_div == Name { raw: 3 });
            assert(n_eq == Name { raw: 4 });
            assert(env@.len() == 1);
            assert(env@.last().contains_key(Name { raw: 0 }));
            let frame = map![
                Name { raw: 0 } => ValueV::Function(Builtin::Add),
                Name { raw: 1 } => ValueV::Function(Builtin::Sub),
                Name { raw: 2 } => ValueV::Function(Builtin::Mul),
                Name { raw: 3 } => ValueV::Function(Builtin::Div),
                Name { raw: 4 } => ValueV::Function(Builtin::Eq),
            ];
            assert(env@[0] =~= frame);
            assert(env@ =~= seq![env@[0]]);
        }
        Repl { interner, env }
    }

    /// One iteration of the loop on one input line. `None` for a line of
    /// nothing but whitespace, which the loop skips; otherwise the text to
    /// print: the value's rendering followed by a newline, or a diagnostic
    /// block. The interner only grows, and the stack keeps its shape — what
    /// a `def` wrote into the global frame is there for the next iteration.
    pub fn step(&mut self, line: &str) -> (out: Option<String>)
        requires
            old(self).wf(),
        ensures
            final(self).wf(),
            (out is None) == blank(line@),
            out is None ==> *final(self) == *old(self),
            old(self).names_v().len() <= final(self).names_v().len(),
            forall|i: int|
                0 <= i < old(self).names_v().len() ==> final(self).names_v()[i] == old(
                    self,
                ).names_v()[i],
            final(self).env_v().len() == old(self).env_v().len(),
            forall|i: int|
                0 <= i < old(self).env_v().len() - 1 ==> final(self).env_v()[i] == old(
                    self,
                ).env_v()[i],
            old(self).env_v().len() == 1 ==> forall|nm: Name|
                crate::env::stack_get(old(self).env_v(), nm) is Some
                    ==> #[trigger] crate::env::stack_get(final(self).env_v(), nm) is Some,
            !blank(line@) ==> ({
                let (tbl2, pr) = parse_src(line@, old(self).names_v());
                &&& final(self).names_v() == tbl2
                &&& match pr {
                    Err(err) => {
                        &&& final(self).env_v() == old(self).env_v()
                        &&& match out {
                            Some(s) => s@ == render(syntax_header(err.node), line@, err.span),
                            None => false,
                        }
                    },
                    Ok(ev) => exists|e: Expr|
                        {
                            &&& #[trigger] expr_to_v(e) == ev
                            &&& ({
                                let (stk2, res) = eval_expr(e, line@, old(self).env_v());
                                &&& final(self).env_v() == stk2
                                &&& match (out, res) {
                                    (Some(s), Ok(v)) => s@ == display_v(v, tbl2) + "\n"@,
                                    (Some(s), Err(err)) => s@ == render(
                                        eval_header(err.node),
                                        line@,
                                        err.span,
                                    ),
                                    _ => false,
                                }
                            })
                        },
                }
            }),
    {
        if is_blank(line) {
            return None;
        }
        let source = Source::new(line.to_owned());
        let e = match crate::parse::expr(&source, &mut self.interner) {
            Err(err) => {
                return Some(diagnostics::syntax(err, &source));
            },
            Ok(e) => e,
        };
        let ghost stk0 = self.env@;
        let r = crate::eval::expr(&e, &source, &mut self.env);
        proof {
            crate::eval::lemma_eval_expr_frames(e, source@, stk0);
            crate::laws::lemma_eval_expr_keeps_keys(e, source@, stk0);
            if stk0.len() == 1 {
                assert forall|nm: Name|
                    crate::env::stack_get(stk0, nm) is Some implies #[trigger] crate::env::stack_get(
                    self.env@,
                    nm,
                ) is Some by {
                    reveal_with_fuel(crate::env::stack_get, 2);
                    assert(stk0.last().contains_key(nm));
                    assert(self.env@.last().contains_key(nm));
                }
            }
        }
        match r {
            Err(err) => {
                proof {
                    crate::laws::lemma_eval_err_span(e, source@, stk0, source@.len());
                }
                Some(diagnostics::eval(err, &source))
            },
            Ok(v) => {
                let mut s = v.display(&self.interner);
                s.append("\n");
                Some(s)
            },
        }
    }
}

} // verus!

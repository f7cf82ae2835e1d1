//! Runtime values and the tree-walking evaluator.
//!
//! The meaning of every expression is given by the spec-level interpreter
//! [`eval_expr`]; the executable evaluator [`expr`] is proved to return
//! exactly what it says, and to leave the environment stack exactly as it
//! says.

use vstd::prelude::*;

use crate::ast::{
    expr_children, expr_wf, lemma_child_decreases, no_stray_operator, Expr, Expr_, Operator,
};
use crate::codemap::{Source, Span, Spanned};
use crate::env::{stack_get, stack_insert, Env, Stack, StackV};
use crate::interner::{Interner, Name};

verus! {

/// An evaluation error, always paired with the span of the offending
/// sub-expression.
pub type Error = Spanned<Error_>;

/// Why evaluation failed.
#[derive(Clone, Copy, PartialEq, Eq, Structural, Debug)]
pub enum Error_ {
    /// `()`
    EmptyList,
    /// `(a 1 2)` where `a = 2`
    ExpectedFunction,
    /// `(1 2 3)`
    ExpectedSymbol,
    /// `(foo 1 2)` with `foo` unbound
    UndefinedSymbol,
    /// `(+ 1)`, `(/ 1 0)`, a special form of the wrong shape
    UnsupportedOperation,
}

/// A built-in operation installed into the global environment at startup.
#[derive(Clone, Copy, PartialEq, Eq, Structural, Debug)]
pub enum Builtin {
    Add,
    Sub,
    Mul,
    Div,
    Eq,
}

/// A callable value. Every callable this library installs is one of the
/// built-in operations, so a `Function` names which one it runs.
#[derive(Clone, Copy, Debug)]
pub struct Function(pub Builtin);

/// A runtime value.
#[derive(Debug)]
pub enum Value {
    /// `true` or `false`
    Bool(bool),
    /// `+`
    Function(Function),
    /// `123`
    Integer(i64),
    /// `:a`
    Keyword(Name),
    /// `nil`
    Nil,
    /// `"Hello, world!"`
    String(String),
    /// `[1 "two" [3]]`
    Vector(Vec<Value>),
}

/// The mathematical shadow of a [`Value`]: text as a character sequence,
/// vectors as sequences of shadows.
pub enum ValueV {
    Bool(bool),
    Function(Builtin),
    Integer(i64),
    Keyword(Name),
    Nil,
    Str(Seq<char>),
    Vector(Seq<ValueV>),
}

impl Value {
    /// The mathematical value this runtime value stands for.
    pub open spec fn to_v(self) -> ValueV
        decreases self,
    {
        match self {
            Value::Bool(b) => ValueV::Bool(b),
            Value::Function(f) => ValueV::Function(f.0),
            Value::Integer(i) => ValueV::Integer(i),
            Value::Keyword(n) => ValueV::Keyword(n),
            Value::Nil => ValueV::Nil,
            Value::String(s) => ValueV::Str(s@),
            Value::Vector(vs) => ValueV::Vector(seq_to_v(vs@)),
        }
    }
}

/// The mathematical values a sequence of runtime values stands for.
pub open spec fn seq_to_v(vs: Seq<Value>) -> Seq<ValueV>
    decreases vs,
{
    if vs.len() == 0 {
        Seq::empty()
    } else {
        seq![vs[0].to_v()] + seq_to_v(vs.subrange(1, vs.len() as int))
    }
}

/// `seq_to_v` is the element-wise shadow.
pub proof fn lemma_seq_to_v(vs: Seq<Value>)
    ensures
        seq_to_v(vs).len() == vs.len(),
        forall|i: int| 0 <= i < vs.len() ==> seq_to_v(vs)[i] == (#[trigger] vs[i]).to_v(),
    decreases vs.len(),
{
    if vs.len() > 0 {
        let tail = vs.subrange(1, vs.len() as int);
        lemma_seq_to_v(tail);
        assert forall|i: int| 0 <= i < vs.len() implies seq_to_v(vs)[i] == (
        #[trigger] vs[i]).to_v() by {
            if i > 0 {
                assert(tail[i - 1] == vs[i]);
                assert(seq_to_v(vs)[i] == seq_to_v(tail)[i - 1]);
            }
        }
    }
}

impl View for Value {
    type V = ValueV;

    open spec fn view(&self) -> ValueV {
        self.to_v()
    }
}

impl Clone for Value {
    /// A clone stands for the same mathematical value.
    #[verifier::loop_isolation(false)]
    fn clone(&self) -> (r: Value)
        ensures
            r.to_v() == self.to_v(),
        decreases *self,
    {
        match self {
            Value::Bool(b) => Value::Bool(*b),
            Value::Function(f) => Value::Function(*f),
            Value::Integer(i) => Value::Integer(*i),
            Value::Keyword(n) => Value::Keyword(*n),
            Value::Nil => Value::Nil,
            Value::String(s) => Value::String(s.clone()),
            Value::Vector(vs) => {
                let mut out: Vec<Value> = Vec::new();
                let mut i: usize = 0;
                while i < vs.len()
                    invariant
                        i <= vs@.len(),
                        out@.len() == i,
                        forall|j: int| 0 <= j < i ==> out@[j].to_v() == vs@[j].to_v(),
                    decreases vs@.len() - i,
                {
                    proof {
                        assert(decreases_to!(*self => (*self)->Vector_0));
                        assert(decreases_to!((*self)->Vector_0 => (*self)->Vector_0@));
                        assert(decreases_to!(
                            (*self)->Vector_0@ => (*self)->Vector_0@[i as int]
                        ));
                        assert(decreases_to!(*self => vs@[i as int]));
                    }
                    out.push(vs[i].clone());
                    i += 1;
                }
                proof {
                    lemma_seq_to_v(out@);
                    lemma_seq_to_v(vs@);
                    assert(out@.len() == vs@.len());
                    assert forall|j: int| 0 <= j < vs@.len() implies seq_to_v(out@)[j] == seq_to_v(
                        vs@,
                    )[j] by {
                        assert(seq_to_v(out@)[j] == out@[j].to_v());
                        assert(seq_to_v(vs@)[j] == vs@[j].to_v());
                    }
                    assert(seq_to_v(out@) =~= seq_to_v(vs@));
                }
                Value::Vector(out)
            },
        }
    }
}

impl DeepView for Value {
    type V = ValueV;

    open spec fn deep_view(&self) -> ValueV {
        self.to_v()
    }
}

/// Whether a function value occurs anywhere inside `v`.
#[verifier::loop_isolation(false)]
fn has_function(v: &Value) -> (r: bool)
    ensures
        r == !fun_free(v.to_v()),
    decreases *v,
{
    match v {
        Value::Function(_) => true,
        Value::Vector(vs) => {
            proof {
                lemma_seq_to_v(vs@);
                lemma_fun_free_vector(seq_to_v(vs@));
                assert(v.to_v() == ValueV::Vector(seq_to_v(vs@)));
            }
            let mut i: usize = 0;
            while i < vs.len()
                invariant
                    i <= vs@.len(),
                    forall|j: int| 0 <= j < i ==> fun_free(#[trigger] vs@[j].to_v()),
                decreases vs@.len() - i,
            {
                proof {
                    assert(decreases_to!(*v => (*v)->Vector_0));
                    assert(decreases_to!((*v)->Vector_0 => (*v)->Vector_0@));
                    assert(decreases_to!((*v)->Vector_0@ => (*v)->Vector_0@[i as int]));
                    assert(decreases_to!(*v => vs@[i as int]));
                }
                if has_function(&vs[i]) {
                    proof {
                        assert(!fun_free(seq_to_v(vs@)[i as int]));
                    }
                    return true;
                }
                i += 1;
            }
            proof {
                assert forall|j: int| 0 <= j < seq_to_v(vs@).len() implies fun_free(
                    #[trigger] seq_to_v(vs@)[j],
                ) by {
                    assert(fun_free(vs@[j].to_v()));
                }
            }
            false
        },
        _ => false,
    }
}

/// Structural equality of two function-free values.
#[verifier::loop_isolation(false)]
fn value_eq(a: &Value, b: &Value) -> (r: bool)
    requires
        fun_free(a.to_v()),
        fun_free(b.to_v()),
    ensures
        r == (a.to_v() == b.to_v()),
    decreases *a,
{
    match (a, b) {
        (Value::Bool(x), Value::Bool(y)) => {
            let r = *x == *y;
            proof {
                assert(a.to_v() == ValueV::Bool(*x));
                assert(b.to_v() == ValueV::Bool(*y));
            }
            r
        },
        (Value::Integer(x), Value::Integer(y)) => {
            let r = *x == *y;
            proof {
                assert(a.to_v() == ValueV::Integer(*x));
                assert(b.to_v() == ValueV::Integer(*y));
            }
            r
        },
        (Value::Keyword(x), Value::Keyword(y)) => {
            let r = *x == *y;
            proof {
                assert(a.to_v() == ValueV::Keyword(*x));
                assert(b.to_v() == ValueV::Keyword(*y));
            }
            r
        },
        (Value::Nil, Value::Nil) => true,
        (Value::String(x), Value::String(y)) => {
            let r = *x == *y;
            proof {
                assert(a.to_v() == ValueV::Str(x@));
                assert(b.to_v() == ValueV::Str(y@));
            }
            r
        },
        (Value::Vector(xs), Value::Vector(ys)) => {
            proof {
                lemma_seq_to_v(xs@);
                lemma_seq_to_v(ys@);
                lemma_fun_free_vector(seq_to_v(xs@));
                lemma_fun_free_vector(seq_to_v(ys@));
                assert(a.to_v() == ValueV::Vector(seq_to_v(xs@)));
                assert(b.to_v() == ValueV::Vector(seq_to_v(ys@)));
            }
            if xs.len() != ys.len() {
                return false;
            }
            let mut i: usize = 0;
            while i < xs.len()
                invariant
                    i <= xs@.len(),
                    xs@.len() == ys@.len(),
                    forall|j: int| 0 <= j < i ==> #[trigger] seq_to_v(xs@)[j] == seq_to_v(ys@)[j],
                decreases xs@.len() - i,
            {
                proof {
                    assert(decreases_to!(*a => (*a)->Vector_0));
                    assert(decreases_to!((*a)->Vector_0 => (*a)->Vector_0@));
                    assert(decreases_to!((*a)->Vector_0@ => (*a)->Vector_0@[i as int]));
                    assert(decreases_to!(*a => xs@[i as int]));
                    assert(fun_free(seq_to_v(xs@)[i as int]));
                    assert(fun_free(seq_to_v(ys@)[i as int]));
                }
                if !value_eq(&xs[i], &ys[i]) {
                    proof {
                        assert(seq_to_v(xs@)[i as int] != seq_to_v(ys@)[i as int]);
                    }
                    return false;
                }
                i += 1;
            }
            proof {
                assert(seq_to_v(xs@) =~= seq_to_v(ys@));
            }
            true
        },
        _ => {
            proof {
                assert(a.to_v() != b.to_v());
            }
            false
        },
    }
}

impl Function {
    /// Wraps a built-in operation as a callable value.
    pub fn new(b: Builtin) -> (f: Function)
        ensures
            f.0 == b,
    {
        Function(b)
    }

    /// Runs the built-in on the given arguments; `None` signals that they
    /// are not supported.
    pub fn call(&self, args: &Vec<Value>) -> (r: Option<Value>)
        ensures
            match r {
                Some(v) => apply_builtin(self.0, seq_to_v(args@)) == Some(v.to_v()),
                None => apply_builtin(self.0, seq_to_v(args@)) is None,
            },
    {
        proof {
            lemma_seq_to_v(args@);
        }
        if args.len() != 2 {
            return None;
        }
        match self.0 {
            Builtin::Eq => {
                if has_function(&args[0]) || has_function(&args[1]) {
                    None
                } else {
                    Some(Value::Bool(value_eq(&args[0], &args[1])))
                }
            },
            b => {
                match (&args[0], &args[1]) {
                    (Value::Integer(x), Value::Integer(y)) => {
                        let z = match b {
                            Builtin::Add => x.checked_add(*y),
                            Builtin::Sub => x.checked_sub(*y),
                            Builtin::Mul => x.checked_mul(*y),
                            _ => x.checked_div(*y),
                        };
                        match z {
                            Some(z) => Some(Value::Integer(z)),
                            None => None,
                        }
                    },
                    _ => None,
                }
            },
        }
    }
}

/// A vector is function-free exactly when each element is.
pub proof fn lemma_fun_free_vector(s: Seq<ValueV>)
    ensures
        fun_free(ValueV::Vector(s)) == (forall|i: int|
            0 <= i < s.len() ==> fun_free(#[trigger] s[i])),
    decreases s.len(),
{
    if s.len() > 0 {
        let tail = s.subrange(1, s.len() as int);
        lemma_fun_free_vector(tail);
        assert(fun_free(ValueV::Vector(tail)) == seq_fun_free(tail));
        if seq_fun_free(s) {
            assert forall|i: int| 0 <= i < s.len() implies fun_free(#[trigger] s[i]) by {
                if i > 0 {
                    assert(tail[i - 1] == s[i]);
                }
            }
        }
        if forall|i: int| 0 <= i < s.len() ==> fun_free(#[trigger] s[i]) {
            assert forall|i: int| 0 <= i < tail.len() implies fun_free(#[trigger] tail[i]) by {
                assert(tail[i] == s[i + 1]);
            }
            assert(fun_free(s[0]));
            assert(seq_fun_free(s));
        }
    }
}

/// The two falsey values; everything else is truthy.
pub open spec fn falsey(v: ValueV) -> bool {
    v == ValueV::Bool(false) || v == ValueV::Nil
}

/// No function value occurs anywhere inside `v`.
pub open spec fn fun_free(v: ValueV) -> bool
    decreases v,
{
    match v {
        ValueV::Function(_) => false,
        ValueV::Vector(vs) => seq_fun_free(vs),
        _ => true,
    }
}

/// No function value occurs anywhere inside any element.
pub open spec fn seq_fun_free(vs: Seq<ValueV>) -> bool
    decreases vs,
{
    vs.len() == 0 || (fun_free(vs[0]) && seq_fun_free(vs.subrange(1, vs.len() as int)))
}

/// What a built-in returns: `None` signals that the arguments were not
/// supported. Arithmetic takes exactly two integers and signals overflow and
/// division by zero; equality takes any two function-free values.
pub open spec fn apply_builtin(b: Builtin, args: Seq<ValueV>) -> Option<ValueV> {
    if args.len() != 2 {
        None
    } else if b is Eq {
        if fun_free(args[0]) && fun_free(args[1]) {
            Some(ValueV::Bool(args[0] == args[1]))
        } else {
            None
        }
    } else {
        match (args[0], args[1]) {
            (ValueV::Integer(x), ValueV::Integer(y)) => {
                let z = match b {
                    Builtin::Add => x.checked_add(y),
                    Builtin::Sub => x.checked_sub(y),
                    Builtin::Mul => x.checked_mul(y),
                    _ => x.checked_div(y),
                };
                match z {
                    Some(z) => Some(ValueV::Integer(z)),
                    None => None,
                }
            },
            _ => None,
        }
    }
}

/// The meaning of one expression: the environment stack after evaluation and
/// the produced value or spanned error. A `String` node's value is the source
/// slice strictly between its quotes.
pub open spec fn eval_expr(e: Expr, src: Seq<char>, stk: StackV) -> (StackV, Result<
    ValueV,
    Error,
>)
    decreases e,
{
    match e.node {
        Expr_::Bool(b) => (stk, Ok(ValueV::Bool(b))),
        Expr_::Integer(i) => (stk, Ok(ValueV::Integer(i))),
        Expr_::Keyword(n) => (stk, Ok(ValueV::Keyword(n))),
        Expr_::Nil => (stk, Ok(ValueV::Nil)),
        Expr_::String => (
            stk,
            Ok(ValueV::Str(src.subrange(e.span.lo + 1, e.span.hi - 1))),
        ),
        Expr_::Symbol(n) => match stack_get(stk, n) {
            Some(v) => (stk, Ok(v)),
            None => (stk, Err(Spanned { node: Error_::UndefinedSymbol, span: e.span })),
        },
        // a stray operator is a syntax-level fault caught before evaluation
        Expr_::Operator(_) => (stk, arbitrary()),
        Expr_::Vector(es) => match eval_exprs(es@, src, stk) {
            (stk2, Ok(vs)) => (stk2, Ok(ValueV::Vector(vs))),
            (stk2, Err(err)) => (stk2, Err(err)),
        },
        Expr_::List(es) => {
            if es@.len() == 0 {
                (stk, Err(Spanned { node: Error_::EmptyList, span: e.span }))
            } else {
                let head = es@[0];
                let tail = es@.subrange(1, es@.len() as int);
                match head.node {
                    Expr_::Operator(op) => eval_form(op, e.span, tail, src, stk),
                    Expr_::Symbol(n) => match stack_get(stk, n) {
                        None => (
                            stk,
                            Err(Spanned { node: Error_::UndefinedSymbol, span: head.span }),
                        ),
                        Some(ValueV::Function(b)) => match eval_exprs(tail, src, stk) {
                            (stk2, Ok(args)) => match apply_builtin(b, args) {
                                Some(v) => (stk2, Ok(v)),
                                None => (
                                    stk2,
                                    Err(
                                        Spanned {
                                            node: Error_::UnsupportedOperation,
                                            span: e.span,
                                        },
                                    ),
                                ),
                            },
                            (stk2, Err(err)) => (stk2, Err(err)),
                        },
                        Some(_) => (
                            stk,
                            Err(Spanned { node: Error_::ExpectedFunction, span: head.span }),
                        ),
                    },
                    _ => (stk, Err(Spanned { node: Error_::ExpectedSymbol, span: head.span })),
                }
            }
        },
    }
}

/// The meaning of a special form applied to the expressions after its word.
/// `span` is the span of the whole list.
pub open spec fn eval_form(
    op: Operator,
    span: Span,
    tail: Seq<Expr>,
    src: Seq<char>,
    stk: StackV,
) -> (StackV, Result<ValueV, Error>)
    decreases tail,
{
    match op {
        Operator::Def => {
            if tail.len() == 2 {
                match tail[0].node {
                    Expr_::Symbol(n) => match eval_expr(tail[1], src, stk) {
                        (stk2, Ok(v)) => (stack_insert(stk2, n, v), Ok(v)),
                        (stk2, Err(err)) => (stk2, Err(err)),
                    },
                    _ => (stk, Err(Spanned { node: Error_::ExpectedSymbol, span: tail[0].span })),
                }
            } else {
                (stk, Err(Spanned { node: Error_::UnsupportedOperation, span }))
            }
        },
        Operator::If => {
            if tail.len() == 3 {
                match eval_expr(tail[0], src, stk) {
                    (stk2, Ok(v)) => {
                        if falsey(v) {
                            eval_expr(tail[2], src, stk2)
                        } else {
                            eval_expr(tail[1], src, stk2)
                        }
                    },
                    (stk2, Err(err)) => (stk2, Err(err)),
                }
            } else {
                (stk, Err(Spanned { node: Error_::UnsupportedOperation, span }))
            }
        },
        Operator::Let => {
            if tail.len() == 2 {
                match tail[0].node {
                    Expr_::List(bs) | Expr_::Vector(bs) => {
                        if bs@.len() % 2 != 0 {
                            (stk, Err(Spanned { node: Error_::UnsupportedOperation, span }))
                        } else {
                            match eval_bindings(bs@, src, stk.push(Map::empty())) {
                                (stk2, Ok(())) => {
                                    let (stk3, res) = eval_expr(tail[1], src, stk2);
                                    (stk3.drop_last(), res)
                                },
                                (stk2, Err(err)) => (stk2.drop_last(), Err(err)),
                            }
                        }
                    },
                    _ => (stk, Err(Spanned { node: Error_::UnsupportedOperation, span })),
                }
            } else {
                (stk, Err(Spanned { node: Error_::UnsupportedOperation, span }))
            }
        },
    }
}

/// The meaning of a `let` binding list: adjacent pairs bound top to bottom,
/// each right-hand side seeing the bindings before it.
pub open spec fn eval_bindings(bs: Seq<Expr>, src: Seq<char>, stk: StackV) -> (StackV, Result<
    (),
    Error,
>)
    decreases bs,
{
    if bs.len() < 2 {
        (stk, Ok(()))
    } else {
        match bs[0].node {
            Expr_::Symbol(n) => match eval_expr(bs[1], src, stk) {
                (stk2, Ok(v)) => eval_bindings(
                    bs.subrange(2, bs.len() as int),
                    src,
                    stack_insert(stk2, n, v),
                ),
                (stk2, Err(err)) => (stk2, Err(err)),
            },
            _ => (stk, Err(Spanned { node: Error_::ExpectedSymbol, span: bs[0].span })),
        }
    }
}

/// The meaning of a sequence of expressions evaluated strictly left to
/// right: the values in source order, or the first error.
pub open spec fn eval_exprs(es: Seq<Expr>, src: Seq<char>, stk: StackV) -> (StackV, Result<
    Seq<ValueV>,
    Error,
>)
    decreases es,
{
    if es.len() == 0 {
        (stk, Ok(Seq::empty()))
    } else {
        match eval_expr(es[0], src, stk) {
            (stk2, Ok(v)) => match eval_exprs(es.subrange(1, es.len() as int), src, stk2) {
                (stk3, Ok(vs)) => (stk3, Ok(seq![v] + vs)),
                (stk3, Err(err)) => (stk3, Err(err)),
            },
            (stk2, Err(err)) => (stk2, Err(err)),
        }
    }
}

/// Evaluates an expression against `env`, returning exactly the value or
/// spanned error that the spec-level interpreter [`eval_expr`] gives it, and
/// leaving `env` exactly as [`eval_expr`] says.
#[verifier::loop_isolation(false)]
#[verifier::rlimit(100)]
pub fn expr(e: &Expr, source: &Source, env: &mut Stack) -> (r: Result<Value, Error>)
    requires
        expr_wf(*e, source@.len()),
        no_stray_operator(*e),
        old(env).wf(),
    ensures
        final(env).wf(),
        ({
            let (stk2, res) = eval_expr(*e, source@, old(env)@);
            &&& final(env)@ == stk2
            &&& match (r, res) {
                (Ok(v), Ok(vv)) => v.to_v() == vv,
                (Err(a), Err(b)) => a == b,
                _ => false,
            }
        }),
    decreases *e,
{
    proof {
        lemma_eval_expr_frames(*e, source@, old(env)@);
    }
    match &e.node {
        Expr_::Bool(b) => Ok(Value::Bool(*b)),
        Expr_::Integer(i) => Ok(Value::Integer(*i)),
        Expr_::Keyword(n) => Ok(Value::Keyword(*n)),
        Expr_::Nil => Ok(Value::Nil),
        Expr_::String => {
            let s = source.slice(Span { lo: e.span.lo + 1, hi: e.span.hi - 1 });
            Ok(Value::String(s.to_owned()))
        },
        Expr_::Operator(_) => {
            proof {
                assert(false);
            }
            vstd::pervasive::unreached()
        },
        Expr_::Symbol(n) => match env.get(*n) {
            Some(v) => Ok(v.clone()),
            None => Err(Spanned { node: Error_::UndefinedSymbol, span: e.span }),
        },
        Expr_::Vector(es) => {
            proof {
                assert(expr_children(*e) == es@);
            }
            let ghost stk0 = env@;
            let mut vals: Vec<Value> = Vec::new();
            let mut i: usize = 0;
            proof {
                assert(es@.subrange(0, 0) =~= Seq::<Expr>::empty());
            }
            while i < es.len()
                invariant
                    i <= es@.len(),
                    env.wf(),
                    eval_exprs(es@.subrange(0, i as int), source@, stk0) == (
                        env@,
                        Ok::<Seq<ValueV>, Error>(seq_to_v(vals@)),
                    ),
                decreases es@.len() - i,
            {
                proof {
                    lemma_child_decreases(*e, i as int);
                    assert(decreases_to!(*e => es@[i as int]));
                    assert(expr_wf(es@[i as int], source@.len()));
                    assert(no_stray_operator(es@[i as int]));
                }
                let ghost s1 = env@;
                match expr(&es[i], source, env) {
                    Ok(v) => {
                        proof {
                            reveal_with_fuel(eval_exprs, 3);
                            let pre1 = es@.subrange(0, i as int + 1);
                            lemma_eval_exprs_split(pre1, source@, stk0, i as int);
                            assert(pre1.subrange(0, i as int) =~= es@.subrange(0, i as int));
                            let single = pre1.subrange(i as int, i as int + 1);
                            assert(single =~= seq![es@[i as int]]);
                            assert(single[0] == es@[i as int]);
                            assert(single.subrange(1, 1) =~= Seq::<Expr>::empty());
                            assert(eval_exprs(single, source@, s1) == (
                                env@,
                                Ok::<Seq<ValueV>, Error>(seq![v.to_v()] + Seq::empty()),
                            ));
                            assert(seq![v.to_v()] + Seq::<ValueV>::empty() =~= seq![v.to_v()]);
                            lemma_seq_to_v(vals@);
                            lemma_seq_to_v(vals@.push(v));
                            assert forall|j: int| 0 <= j < vals@.len() + 1 implies seq_to_v(
                                vals@.push(v),
                            )[j] == (seq_to_v(vals@) + seq![v.to_v()])[j] by {
                                if j < vals@.len() {
                                    assert(vals@.push(v)[j] == vals@[j]);
                                } else {
                                    assert(vals@.push(v)[j] == v);
                                }
                            }
                            assert(seq_to_v(vals@.push(v)) =~= seq_to_v(vals@) + seq![v.to_v()]);
                        }
                        vals.push(v);
                        i += 1;
                    },
                    Err(err) => {
                        proof {
                            lemma_eval_exprs_split(es@, source@, stk0, i as int);
                            let suffix = es@.subrange(i as int, es@.len() as int);
                            assert(suffix[0] == es@[i as int]);
                        }
                        return Err(err);
                    },
                }
            }
            proof {
                assert(es@.subrange(0, es@.len() as int) =~= es@);
            }
            Ok(Value::Vector(vals))
        },
        Expr_::List(es) => {
            proof {
                assert(expr_children(*e) == es@);
            }
            if es.len() == 0 {
                return Err(Spanned { node: Error_::EmptyList, span: e.span });
            }
            let ghost tail = es@.subrange(1, es@.len() as int);
            match &es[0].node {
                Expr_::Operator(op) => {
                    let op = *op;
                    match op {
                        Operator::Def => {
                            if es.len() != 3 {
                                return Err(
                                    Spanned { node: Error_::UnsupportedOperation, span: e.span },
                                );
                            }
                            proof {
                                assert(tail.len() == 2);
                                assert(tail[0] == es@[1]);
                                assert(tail[1] == es@[2]);
                            }
                            match &es[1].node {
                                Expr_::Symbol(n) => {
                                    let n = *n;
                                    proof {
                                        lemma_child_decreases(*e, 2);
                                        assert(decreases_to!(*e => es@[2]));
                                        assert(expr_wf(es@[2], source@.len()));
                                        assert(no_stray_operator(es@[2]));
                                    }
                                    match expr(&es[2], source, env) {
                                        Ok(v) => {
                                            let v2 = v.clone();
                                            env.insert(n, v2);
                                            Ok(v)
                                        },
                                        Err(err) => Err(err),
                                    }
                                },
                                _ => Err(
                                    Spanned { node: Error_::ExpectedSymbol, span: es[1].span },
                                ),
                            }
                        },
                        Operator::If => {
                            if es.len() != 4 {
                                return Err(
                                    Spanned { node: Error_::UnsupportedOperation, span: e.span },
                                );
                            }
                            proof {
                                assert(tail.len() == 3);
                                assert(tail[0] == es@[1]);
                                assert(tail[1] == es@[2]);
                                assert(tail[2] == es@[3]);
                                lemma_child_decreases(*e, 1);
                                assert(decreases_to!(*e => es@[1]));
                                assert(expr_wf(es@[1], source@.len()));
                                assert(no_stray_operator(es@[1]));
                            }
                            match expr(&es[1], source, env) {
                                Ok(c) => {
                                    let falsey_c = match &c {
                                        Value::Bool(b) => !*b,
                                        Value::Nil => true,
                                        _ => false,
                                    };
                                    proof {
                                        assert(falsey_c == falsey(c.to_v()));
                                        lemma_child_decreases(*e, 2);
                                        lemma_child_decreases(*e, 3);
                                        assert(decreases_to!(*e => es@[2]));
                                        assert(decreases_to!(*e => es@[3]));
                                        assert(expr_wf(es@[2], source@.len()));
                                        assert(no_stray_operator(es@[2]));
                                        assert(expr_wf(es@[3], source@.len()));
                                        assert(no_stray_operator(es@[3]));
                                    }
                                    if falsey_c {
                                        expr(&es[3], source, env)
                                    } else {
                                        expr(&es[2], source, env)
                                    }
                                },
                                Err(err) => Err(err),
                            }
                        },
                        Operator::Let => {
                            if es.len() != 3 {
                                return Err(
                                    Spanned { node: Error_::UnsupportedOperation, span: e.span },
                                );
                            }
                            proof {
                                assert(tail.len() == 2);
                                assert(tail[0] == es@[1]);
                                assert(tail[1] == es@[2]);
                            }
                            let bs: &Vec<Expr> = match &es[1].node {
                                Expr_::List(bs) => bs,
                                Expr_::Vector(bs) => bs,
                                _ => {
                                    return Err(
                                        Spanned {
                                            node: Error_::UnsupportedOperation,
                                            span: e.span,
                                        },
                                    );
                                },
                            };
                            if bs.len() % 2 != 0 {
                                return Err(
                                    Spanned { node: Error_::UnsupportedOperation, span: e.span },
                                );
                            }
                            proof {
                                assert(expr_children(es@[1]) == bs@);
                            }
                            let ghost stk0 = env@;
                            let ghost stk1 = stk0.push(Map::<Name, ValueV>::empty());
                            env.push(Env::new());
                            proof {
                                assert(env@ =~= stk1);
                                assert(env@ == stk1);
                                assert(bs@.subrange(0, 0) =~= Seq::<Expr>::empty());
                            }
                            let mut i: usize = 0;
                            while i < bs.len()
                                invariant
                                    i % 2 == 0,
                                    i <= bs@.len(),
                                    env@.len() == stk1.len(),
                                    eval_bindings(bs@.subrange(0, i as int), source@, stk1) == (
                                        env@,
                                        Ok::<(), Error>(()),
                                    ),
                                decreases bs@.len() - i,
                            {
                                proof {
                                    assert(i + 1 < bs@.len());
                                }
                                match &bs[i].node {
                                    Expr_::Symbol(n) => {
                                        let n = *n;
                                        proof {
                                            lemma_child_decreases(*e, 1);
                                            lemma_child_decreases(es@[1], i as int + 1);
                                            assert(decreases_to!(*e => es@[1]));
                                            assert(decreases_to!(es@[1] => bs@[i as int + 1]));
                                            assert(decreases_to!(*e => bs@[i as int + 1]));
                                            assert(expr_wf(es@[1], source@.len()));
                                            assert(expr_wf(bs@[i as int + 1], source@.len()));
                                            assert(no_stray_operator(es@[1]));
                                            assert(no_stray_operator(bs@[i as int + 1]));
                                        }
                                        let ghost s1 = env@;
                                        match expr(&bs[i + 1], source, env) {
                                            Ok(v) => {
                                                proof {
                                                    lemma_eval_expr_frames(
                                                        bs@[i as int + 1],
                                                        source@,
                                                        s1,
                                                    );
                                                }
                                                env.insert(n, v);
                                                proof {
                                                    reveal_with_fuel(eval_bindings, 3);
                                                    let pre1 = bs@.subrange(0, i as int + 2);
                                                    lemma_eval_bindings_split(
                                                        pre1,
                                                        source@,
                                                        stk1,
                                                        i as int,
                                                    );
                                                    assert(pre1.subrange(0, i as int) =~= bs@
                                                        .subrange(0, i as int));
                                                    let pair = pre1.subrange(
                                                        i as int,
                                                        i as int + 2,
                                                    );
                                                    assert(pair.len() == 2);
                                                    assert(pair[0] == bs@[i as int]);
                                                    assert(pair[1] == bs@[i as int + 1]);
                                                    assert(pair.subrange(2, 2)
                                                        =~= Seq::<Expr>::empty());
                                                }
                                                i += 2;
                                            },
                                            Err(err) => {
                                                proof {
                                                    lemma_eval_bindings_split(
                                                        bs@,
                                                        source@,
                                                        stk1,
                                                        i as int,
                                                    );
                                                    let suffix = bs@.subrange(
                                                        i as int,
                                                        bs@.len() as int,
                                                    );
                                                    assert(suffix[0] == bs@[i as int]);
                                                    assert(suffix[1] == bs@[i as int + 1]);
                                                    lemma_eval_expr_frames(
                                                        bs@[i as int + 1],
                                                        source@,
                                                        s1,
                                                    );
                                                }
                                                env.pop();
                                                return Err(err);
                                            },
                                        }
                                    },
                                    _ => {
                                        proof {
                                            lemma_eval_bindings_split(bs@, source@, stk1, i as int);
                                            let suffix = bs@.subrange(i as int, bs@.len() as int);
                                            assert(suffix[0] == bs@[i as int]);
                                        }
                                        let sp = bs[i].span;
                                        env.pop();
                                        return Err(Spanned { node: Error_::ExpectedSymbol, span: sp });
                                    },
                                }
                            }
                            proof {
                                assert(bs@.subrange(0, bs@.len() as int) =~= bs@);
                                lemma_child_decreases(*e, 2);
                                assert(decreases_to!(*e => es@[2]));
                                assert(expr_wf(es@[2], source@.len()));
                                assert(no_stray_operator(es@[2]));
                            }
                            let ghost s2 = env@;
                            let r = expr(&es[2], source, env);
                            proof {
                                lemma_eval_expr_frames(es@[2], source@, s2);
                            }
                            env.pop();
                            r
                        },
                    }
                },
                Expr_::Symbol(n) => {
                    let n = *n;
                    let fun: Option<Function> = match env.get(n) {
                        None => {
                            return Err(
                                Spanned { node: Error_::UndefinedSymbol, span: es[0].span },
                            );
                        },
                        Some(v) => match v {
                            Value::Function(f) => Some(*f),
                            _ => None,
                        },
                    };
                    let f = match fun {
                        Some(f) => f,
                        None => {
                            return Err(
                                Spanned { node: Error_::ExpectedFunction, span: es[0].span },
                            );
                        },
                    };
                    let ghost stk0 = env@;
                    let mut args: Vec<Value> = Vec::new();
                    let mut i: usize = 1;
                    proof {
                        assert(tail.subrange(0, 0) =~= Seq::<Expr>::empty());
                    }
                    while i < es.len()
                        invariant
                            1 <= i <= es@.len(),
                            env.wf(),
                            eval_exprs(tail.subrange(0, i as int - 1), source@, stk0) == (
                                env@,
                                Ok::<Seq<ValueV>, Error>(seq_to_v(args@)),
                            ),
                        decreases es@.len() - i,
                    {
                        proof {
                            lemma_child_decreases(*e, i as int);
                            assert(decreases_to!(*e => es@[i as int]));
                            assert(expr_wf(es@[i as int], source@.len()));
                            assert(no_stray_operator(es@[i as int]));
                            assert(tail[i as int - 1] == es@[i as int]);
                        }
                        let ghost s1 = env@;
                        match expr(&es[i], source, env) {
                            Ok(v) => {
                                proof {
                                    reveal_with_fuel(eval_exprs, 3);
                                    let pre1 = tail.subrange(0, i as int);
                                    lemma_eval_exprs_split(pre1, source@, stk0, i as int - 1);
                                    assert(pre1.subrange(0, i as int - 1) =~= tail.subrange(
                                        0,
                                        i as int - 1,
                                    ));
                                    let single = pre1.subrange(i as int - 1, i as int);
                                    assert(single =~= seq![tail[i as int - 1]]);
                                    assert(single[0] == es@[i as int]);
                                    assert(single.subrange(1, 1) =~= Seq::<Expr>::empty());
                                    assert(eval_exprs(single, source@, s1) == (
                                        env@,
                                        Ok::<Seq<ValueV>, Error>(seq![v.to_v()] + Seq::empty()),
                                    ));
                                    assert(seq![v.to_v()] + Seq::<ValueV>::empty() =~= seq![
                                        v.to_v(),
                                    ]);
                                    lemma_seq_to_v(args@);
                                    lemma_seq_to_v(args@.push(v));
                                    assert forall|j: int| 0 <= j < args@.len() + 1 implies
                                        seq_to_v(args@.push(v))[j] == (seq_to_v(args@) + seq![
                                        v.to_v(),
                                    ])[j] by {
                                        if j < args@.len() {
                                            assert(args@.push(v)[j] == args@[j]);
                                        } else {
                                            assert(args@.push(v)[j] == v);
                                        }
                                    }
                                    assert(seq_to_v(args@.push(v)) =~= seq_to_v(args@) + seq![
                                        v.to_v(),
                                    ]);
                                }
                                args.push(v);
                                i += 1;
                            },
                            Err(err) => {
                                proof {
                                    lemma_eval_exprs_split(tail, source@, stk0, i as int - 1);
                                    let suffix = tail.subrange(i as int - 1, tail.len() as int);
                                    assert(suffix[0] == tail[i as int - 1]);
                                }
                                return Err(err);
                            },
                        }
                    }
                    proof {
                        assert(tail.subrange(0, tail.len() as int) =~= tail);
                    }
                    match f.call(&args) {
                        Some(v) => Ok(v),
                        None => Err(Spanned { node: Error_::UnsupportedOperation, span: e.span }),
                    }
                },
                _ => Err(Spanned { node: Error_::ExpectedSymbol, span: es[0].span }),
            }
        },
    }
}

impl Value {
    /// Formats this value for printing, resolving keyword names in the
    /// interner that issued them.
    #[verifier::loop_isolation(false)]
    pub fn display(&self, interner: &Interner) -> (r: String)
        ensures
            r@ == crate::fmt::display_v(self.to_v(), interner@),
        decreases *self,
    {
        match self {
            Value::Bool(b) => if *b {
                String::from_str("true")
            } else {
                String::from_str("false")
            },
            Value::Function(_) => String::from_str("<function>"),
            Value::Integer(i) => crate::fmt::i64_dec(*i),
            Value::Keyword(n) => {
                let mut out = String::from_str(":");
                if n.raw < interner.len() {
                    out.append(interner.get(*n));
                } else {
                    proof {
                        assert(out@ =~= ":"@ + Seq::<char>::empty());
                    }
                }
                out
            },
            Value::Nil => String::from_str("nil"),
            Value::String(s) => s.clone(),
            Value::Vector(vs) => {
                proof {
                    lemma_seq_to_v(vs@);
                }
                let mut out = String::from_str("[");
                proof {
                    assert(seq_to_v(vs@).subrange(0, 0) =~= Seq::<ValueV>::empty());
                    assert(out@ =~= "["@ + crate::fmt::display_seq(
                        seq_to_v(vs@).subrange(0, 0),
                        interner@,
                    ));
                }
                let mut i: usize = 0;
                while i < vs.len()
                    invariant
                        i <= vs@.len(),
                        out@ == "["@ + crate::fmt::display_seq(
                            seq_to_v(vs@).subrange(0, i as int),
                            interner@,
                        ),
                    decreases vs@.len() - i,
                {
                    proof {
                        assert(decreases_to!(*self => (*self)->Vector_0));
                        assert(decreases_to!((*self)->Vector_0 => (*self)->Vector_0@));
                        assert(decreases_to!(
                            (*self)->Vector_0@ => (*self)->Vector_0@[i as int]
                        ));
                        assert(decreases_to!(*self => vs@[i as int]));
                    }
                    if i > 0 {
                        out.append(" ");
                    }
                    let piece = vs[i].display(interner);
                    out.append(piece.as_str());
                    proof {
                        let s = seq_to_v(vs@);
                        let pre1 = s.subrange(0, i as int + 1);
                        assert(s[i as int] == vs@[i as int].to_v());
                        if i == 0 {
                            assert(pre1 =~= seq![s[0]]);
                            assert(crate::fmt::display_seq(pre1, interner@) == crate::fmt::display_v(
                                s[0],
                                interner@,
                            ));
                            assert(out@ =~= "["@ + crate::fmt::display_seq(pre1, interner@));
                        } else {
                            crate::fmt::lemma_display_seq_snoc(s, interner@, i as int);
                            assert(out@ =~= "["@ + crate::fmt::display_seq(pre1, interner@));
                        }
                    }
                    i += 1;
                }
                proof {
                    assert(seq_to_v(vs@).subrange(0, seq_to_v(vs@).len() as int) =~= seq_to_v(
                        vs@,
                    ));
                }
                out.append("]");
                proof {
                    assert(out@ =~= "["@ + crate::fmt::display_seq(seq_to_v(vs@), interner@)
                        + "]"@);
                }
                out
            },
        }
    }
}


/// Splits left-to-right evaluation: evaluating `es` is evaluating a prefix,
/// then the rest from where the prefix left off, with the first error
/// cutting evaluation short.
pub proof fn lemma_eval_exprs_split(es: Seq<Expr>, src: Seq<char>, stk: StackV, i: int)
    requires
        0 <= i <= es.len(),
    ensures
        ({
            let (s1, r1) = eval_exprs(es.subrange(0, i), src, stk);
            match r1 {
                Ok(vs) => {
                    let (s2, r2) = eval_exprs(es.subrange(i, es.len() as int), src, s1);
                    eval_exprs(es, src, stk) == match r2 {
                        Ok(ws) => (s2, Ok::<Seq<ValueV>, Error>(vs + ws)),
                        Err(err) => (s2, Err::<Seq<ValueV>, Error>(err)),
                    }
                },
                Err(err) => eval_exprs(es, src, stk) == (s1, Err::<Seq<ValueV>, Error>(err)),
            }
        }),
    decreases es.len(),
{
    if i == 0 {
        assert(es.subrange(0, 0) =~= Seq::<Expr>::empty());
        assert(es.subrange(0, es.len() as int) =~= es);
        let (s2, r2) = eval_exprs(es, src, stk);
        if r2 is Ok {
            assert(Seq::<ValueV>::empty() + r2->Ok_0 =~= r2->Ok_0);
        }
    } else {
        let rest = es.subrange(1, es.len() as int);
        let pre = es.subrange(0, i);
        assert(pre[0] == es[0]);
        assert(pre.subrange(1, i) =~= rest.subrange(0, i - 1));
        assert(es.subrange(i, es.len() as int) =~= rest.subrange(i - 1, rest.len() as int));
        let (sh, rh) = eval_expr(es[0], src, stk);
        match rh {
            Ok(v) => {
                lemma_eval_exprs_split(rest, src, sh, i - 1);
                let (s1, r1) = eval_exprs(rest.subrange(0, i - 1), src, sh);
                match r1 {
                    Ok(vs) => {
                        let (s2, r2) = eval_exprs(rest.subrange(i - 1, rest.len() as int), src, s1);
                        match r2 {
                            Ok(ws) => {
                                assert(seq![v] + (vs + ws) =~= (seq![v] + vs) + ws);
                            },
                            Err(_) => {},
                        }
                    },
                    Err(_) => {},
                }
            },
            Err(_) => {},
        }
    }
}

/// Splits `let` binding evaluation at an even pair boundary.
pub proof fn lemma_eval_bindings_split(bs: Seq<Expr>, src: Seq<char>, stk: StackV, i: int)
    requires
        0 <= i <= bs.len(),
        i % 2 == 0,
    ensures
        ({
            let (s1, r1) = eval_bindings(bs.subrange(0, i), src, stk);
            match r1 {
                Ok(()) => eval_bindings(bs, src, stk) == eval_bindings(
                    bs.subrange(i, bs.len() as int),
                    src,
                    s1,
                ),
                Err(err) => eval_bindings(bs, src, stk) == (s1, Err::<(), Error>(err)),
            }
        }),
    decreases bs.len(),
{
    if i == 0 {
        assert(bs.subrange(0, 0) =~= Seq::<Expr>::empty());
        assert(bs.subrange(0, bs.len() as int) =~= bs);
    } else {
        let rest = bs.subrange(2, bs.len() as int);
        let pre = bs.subrange(0, i);
        assert(pre[0] == bs[0]);
        assert(pre[1] == bs[1]);
        assert(pre.subrange(2, i) =~= rest.subrange(0, i - 2));
        assert(bs.subrange(i, bs.len() as int) =~= rest.subrange(i - 2, rest.len() as int));
        match bs[0].node {
            Expr_::Symbol(n) => {
                let (sh, rh) = eval_expr(bs[1], src, stk);
                match rh {
                    Ok(v) => {
                        lemma_eval_bindings_split(rest, src, stack_insert(sh, n, v), i - 2);
                    },
                    Err(_) => {},
                }
            },
            _ => {},
        }
    }
}

/// Evaluation leaves the number of frames unchanged and every frame below
/// the topmost one exactly as it was: writes go to the top frame, and every
/// frame a `let` pushes is popped again on every path.
pub proof fn lemma_eval_expr_frames(e: Expr, src: Seq<char>, stk: StackV)
    requires
        stk.len() >= 1,
    ensures
        ({
            let (s2, _) = eval_expr(e, src, stk);
            s2.len() == stk.len() && forall|i: int| 0 <= i < stk.len() - 1 ==> s2[i] == stk[i]
        }),
    decreases e,
{
    match e.node {
        Expr_::Vector(es) => lemma_eval_exprs_frames(es@, src, stk),
        Expr_::List(es) => {
            if es@.len() > 0 {
                let head = es@[0];
                let tail = es@.subrange(1, es@.len() as int);
                match head.node {
                    Expr_::Operator(op) => lemma_eval_form_frames(op, e.span, tail, src, stk),
                    Expr_::Symbol(n) => {
                        match stack_get(stk, n) {
                            Some(ValueV::Function(_)) => lemma_eval_exprs_frames(tail, src, stk),
                            _ => {},
                        }
                    },
                    _ => {},
                }
            }
        },
        _ => {},
    }
}

/// See [`lemma_eval_expr_frames`].
pub proof fn lemma_eval_form_frames(
    op: Operator,
    span: Span,
    tail: Seq<Expr>,
    src: Seq<char>,
    stk: StackV,
)
    requires
        stk.len() >= 1,
    ensures
        ({
            let (s2, _) = eval_form(op, span, tail, src, stk);
            s2.len() == stk.len() && forall|i: int| 0 <= i < stk.len() - 1 ==> s2[i] == stk[i]
        }),
    decreases tail,
{
    match op {
        Operator::Def => {
            if tail.len() == 2 && tail[0].node is Symbol {
                lemma_eval_expr_frames(tail[1], src, stk);
            }
        },
        Operator::If => {
            if tail.len() == 3 {
                lemma_eval_expr_frames(tail[0], src, stk);
                let (s2, r) = eval_expr(tail[0], src, stk);
                match r {
                    Ok(v) => {
                        if falsey(v) {
                            lemma_eval_expr_frames(tail[2], src, s2);
                        } else {
                            lemma_eval_expr_frames(tail[1], src, s2);
                        }
                    },
                    Err(_) => {},
                }
            }
        },
        Operator::Let => {
            if tail.len() == 2 {
                match tail[0].node {
                    Expr_::List(bs) | Expr_::Vector(bs) => {
                        if bs@.len() % 2 == 0 {
                            let stk1 = stk.push(Map::empty());
                            lemma_eval_bindings_frames(bs@, src, stk1);
                            let (stk2, r) = eval_bindings(bs@, src, stk1);
                            match r {
                                Ok(()) => {
                                    lemma_eval_expr_frames(tail[1], src, stk2);
                                },
                                Err(_) => {},
                            }
                        }
                    },
                    _ => {},
                }
            }
        },
    }
}

/// See [`lemma_eval_expr_frames`].
pub proof fn lemma_eval_bindings_frames(bs: Seq<Expr>, src: Seq<char>, stk: StackV)
    requires
        stk.len() >= 1,
    ensures
        ({
            let (s2, _) = eval_bindings(bs, src, stk);
            s2.len() == stk.len() && forall|i: int| 0 <= i < stk.len() - 1 ==> s2[i] == stk[i]
        }),
    decreases bs,
{
    if bs.len() >= 2 {
        match bs[0].node {
            Expr_::Symbol(n) => {
                lemma_eval_expr_frames(bs[1], src, stk);
                let (s2, r) = eval_expr(bs[1], src, stk);
                match r {
                    Ok(v) => {
                        lemma_eval_bindings_frames(
                            bs.subrange(2, bs.len() as int),
                            src,
                            stack_insert(s2, n, v),
                        );
                    },
                    Err(_) => {},
                }
            },
            _ => {},
        }
    }
}

/// See [`lemma_eval_expr_frames`].
pub proof fn lemma_eval_exprs_frames(es: Seq<Expr>, src: Seq<char>, stk: StackV)
    requires
        stk.len() >= 1,
    ensures
        ({
            let (s2, _) = eval_exprs(es, src, stk);
            s2.len() == stk.len() && forall|i: int| 0 <= i < stk.len() - 1 ==> s2[i] == stk[i]
        }),
    decreases es,
{
    if es.len() > 0 {
        lemma_eval_expr_frames(es[0], src, stk);
        let (s2, r) = eval_expr(es[0], src, stk);
        match r {
            Ok(_) => {
                lemma_eval_exprs_frames(es.subrange(1, es.len() as int), src, s2);
            },
            Err(_) => {},
        }
    }
}

} // verus!

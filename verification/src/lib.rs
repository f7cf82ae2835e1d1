//! A small Lisp-family expression language with Clojure-like surface syntax:
//! an interner, span-tracked source lines, a lexer and parser, a
//! pretty-printer, a lexically scoped environment stack, a tree-walking
//! evaluator, diagnostics with caret underlines, and the per-line step of a
//! read-eval-print loop.
//!
//! The meaning of every piece is stated as a contract: the evaluator, for
//! one, returns exactly what the spec-level interpreter `eval::eval_expr`
//! says. The laws the system obeys — scoping, non-mutation on error,
//! evaluation order — are proved in `laws`.

pub mod ast;
pub mod codemap;
pub mod diagnostics;
pub mod env;
pub mod eval;
pub mod fmt;
pub mod interner;
pub mod laws;
pub mod lexer;
pub mod parse;
pub mod pp;
pub mod repl;

//! Diagnostics: renders a syntax or evaluation error as a header line, the
//! offending source line, and a caret line underlining the span.

use vstd::prelude::*;

use crate::codemap::{Source, Span};

verus! {

/// `n` spaces.
pub open spec fn spaces(n: nat) -> Seq<char>
    decreases n,
{
    if n == 0 {
        Seq::empty()
    } else {
        spaces((n - 1) as nat) + " "@
    }
}

/// `n` carets.
pub open spec fn carets(n: nat) -> Seq<char>
    decreases n,
{
    if n == 0 {
        Seq::empty()
    } else {
        carets((n - 1) as nat) + "^"@
    }
}

/// The header line naming a syntax error kind.
pub open spec fn syntax_header(e: crate::lexer::Error_) -> Seq<char> {
    match e {
        crate::lexer::Error_::InvalidInteger => "syntax error: InvalidInteger"@,
        crate::lexer::Error_::UnbalancedDelimiter => "syntax error: UnbalancedDelimiter"@,
        crate::lexer::Error_::UnexpectedEndOfInput => "syntax error: UnexpectedEndOfInput"@,
        crate::lexer::Error_::UnexpectedToken => "syntax error: UnexpectedToken"@,
        crate::lexer::Error_::UnterminatedString => "syntax error: UnterminatedString"@,
    }
}

/// The header line naming an evaluation error kind.
pub open spec fn eval_header(e: crate::eval::Error_) -> Seq<char> {
    match e {
        crate::eval::Error_::EmptyList => "eval error: EmptyList"@,
        crate::eval::Error_::ExpectedFunction => "eval error: ExpectedFunction"@,
        crate::eval::Error_::ExpectedSymbol => "eval error: ExpectedSymbol"@,
        crate::eval::Error_::UndefinedSymbol => "eval error: UndefinedSymbol"@,
        crate::eval::Error_::UnsupportedOperation => "eval error: UnsupportedOperation"@,
    }
}

/// A diagnostic block: the header, the source line, and a caret line with
/// spaces under the columns before the span and at least one caret.
pub open spec fn render(header: Seq<char>, src: Seq<char>, span: Span) -> Seq<char> {
    header + "\n"@ + src + "\n"@ + spaces(span.lo as nat) + carets(
        if span.hi > span.lo {
            (span.hi - span.lo) as nat
        } else {
            1
        },
    ) + "\n"@
}

fn spaces_exec(n: usize) -> (r: String)
    ensures
        r@ == spaces(n as nat),
{
    let mut out = String::new();
    let mut i: usize = 0;
    while i < n
        invariant
            i <= n,
            out@ == spaces(i as nat),
        decreases n - i,
    {
        out.append(" ");
        i += 1;
    }
    out
}

fn carets_exec(n: usize) -> (r: String)
    ensures
        r@ == carets(n as nat),
{
    let mut out = String::new();
    let mut i: usize = 0;
    while i < n
        invariant
            i <= n,
            out@ == carets(i as nat),
        decreases n - i,
    {
        out.append("^");
        i += 1;
    }
    out
}

fn render_exec(header: &str, source: &Source, span: Span) -> (r: String)
    requires
        span.wf(),
        span.hi <= source@.len(),
    ensures
        r@ == render(header@, source@, span),
{
    let mut out = header.to_owned();
    out.append("\n");
    out.append(source.as_str());
    out.append("\n");
    let sp = spaces_exec(span.lo);
    out.append(sp.as_str());
    let width = if span.hi > span.lo {
        span.hi - span.lo
    } else {
        1
    };
    let cr = carets_exec(width);
    out.append(cr.as_str());
    out.append("\n");
    proof {
        assert(out@ =~= render(header@, source@, span));
    }
    out
}

/// Renders a syntax error against its source line.
pub fn syntax(error: crate::lexer::Error, source: &Source) -> (r: String)
    requires
        error.span.wf(),
        error.span.hi <= source@.len(),
    ensures
        r@ == render(syntax_header(error.node), source@, error.span),
{
    let header = match error.node {
        crate::lexer::Error_::InvalidInteger => "syntax error: InvalidInteger",
        crate::lexer::Error_::UnbalancedDelimiter => "syntax error: UnbalancedDelimiter",
        crate::lexer::Error_::UnexpectedEndOfInput => "syntax error: UnexpectedEndOfInput",
        crate::lexer::Error_::UnexpectedToken => "syntax error: UnexpectedToken",
        crate::lexer::Error_::UnterminatedString => "syntax error: UnterminatedString",
    };
    render_exec(header, source, error.span)
}

/// Renders an evaluation error against its source line.
pub fn eval(error: crate::eval::Error, source: &Source) -> (r: String)
    requires
        error.span.wf(),
        error.span.hi <= source@.len(),
    ensures
        r@ == render(eval_header(error.node), source@, error.span),
{
    let header = match error.node {
        crate::eval::Error_::EmptyList => "eval error: EmptyList",
        crate::eval::Error_::ExpectedFunction => "eval error: ExpectedFunction",
        crate::eval::Error_::ExpectedSymbol => "eval error: ExpectedSymbol",
        crate::eval::Error_::UndefinedSymbol => "eval error: UndefinedSymbol",
        crate::eval::Error_::UnsupportedOperation => "eval error: UnsupportedOperation",
    };
    render_exec(header, source, error.span)
}

} // verus!

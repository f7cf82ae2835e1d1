//! The lexer: splits one source line into spanned tokens, interning the
//! names of symbols and keywords, and recognizing the reserved words.

use vstd::prelude::*;

use crate::codemap::{Source, Span, Spanned};
use crate::interner::{Interner, str_eq};

verus! {

/// A syntax error, always paired with the span that localizes it.
pub type Error = Spanned<Error_>;

/// Why lexing or parsing failed.
#[derive(Clone, Copy, PartialEq, Eq, Structural, Debug)]
pub enum Error_ {
    /// a digit run outside the signed 64-bit range
    InvalidInteger,
    /// a closing delimiter missing or mismatched; the span points at the opener
    UnbalancedDelimiter,
    /// input ended where an expression was expected
    UnexpectedEndOfInput,
    /// a token that cannot stand here
    UnexpectedToken,
    /// a string literal with no closing quote
    UnterminatedString,
}

/// A token kind. A `Str` token's span covers its quotes.
#[derive(Clone, Copy, PartialEq, Eq, Structural, Debug)]
pub enum Token {
    BoolFalse,
    BoolTrue,
    Integer(i64),
    Keyword(crate::interner::Name),
    LBracket,
    LParen,
    Nil,
    Op(crate::ast::Operator),
    RBracket,
    RParen,
    Str,
    Symbol(crate::interner::Name),
}

/// Whitespace separates tokens; the comma counts as whitespace.
pub open spec fn is_ws(c: char) -> bool {
    c == ' ' || c == '\t' || c == ',' || c == '\n' || c == '\r'
}

/// Delimiters end an identifier or an integer.
pub open spec fn is_delim(c: char) -> bool {
    c == '(' || c == ')' || c == '[' || c == ']' || c == '"'
}

pub open spec fn is_digit(c: char) -> bool {
    '0' <= c && c <= '9'
}

/// The first position at or after `j` where an identifier ends: whitespace,
/// a delimiter, or the end of the source.
pub open spec fn ident_end(src: Seq<char>, j: int) -> int
    decreases src.len() - j
    when 0 <= j <= src.len()
{
    if j >= src.len() || is_ws(src[j]) || is_delim(src[j]) {
        j
    } else {
        ident_end(src, j + 1)
    }
}

/// `ident_end` stays within the source, and everything before it is an
/// identifier character.
pub proof fn lemma_ident_end(src: Seq<char>, j: int)
    requires
        0 <= j <= src.len(),
    ensures
        j <= ident_end(src, j) <= src.len(),
        forall|k: int|
            j <= k < ident_end(src, j) ==> !is_ws(#[trigger] src[k]) && !is_delim(src[k]),
        ident_end(src, j) < src.len() ==> (is_ws(src[ident_end(src, j)]) || is_delim(
            src[ident_end(src, j)],
        )),
    decreases src.len() - j,
{
    if !(j >= src.len() || is_ws(src[j]) || is_delim(src[j])) {
        lemma_ident_end(src, j + 1);
    }
}

/// The position of the quote closing a string literal, scanning from `j`,
/// a backslash escaping the character after it; `None` when the line ends
/// first.
pub open spec fn string_close(src: Seq<char>, j: int) -> Option<int>
    decreases src.len() - j
    when 0 <= j <= src.len()
{
    if j >= src.len() {
        None
    } else if src[j] == '"' {
        Some(j)
    } else if src[j] == '\\' {
        if j + 1 < src.len() {
            string_close(src, j + 2)
        } else {
            None
        }
    } else {
        string_close(src, j + 1)
    }
}

/// A found closing quote lies within the source.
pub proof fn lemma_string_close(src: Seq<char>, j: int)
    requires
        0 <= j <= src.len(),
    ensures
        match string_close(src, j) {
            Some(q) => j <= q < src.len(),
            None => true,
        },
    decreases src.len() - j,
{
    if j < src.len() && src[j] != '"' {
        if src[j] == '\\' {
            if j + 1 < src.len() {
                lemma_string_close(src, j + 2);
            }
        } else {
            lemma_string_close(src, j + 1);
        }
    }
}

/// The first position at or after `j` holding no decimal digit.
pub open spec fn digits_end(src: Seq<char>, j: int) -> int
    decreases src.len() - j
    when 0 <= j <= src.len()
{
    if j >= src.len() || !is_digit(src[j]) {
        j
    } else {
        digits_end(src, j + 1)
    }
}

/// `digits_end` stays within the source.
pub proof fn lemma_digits_end(src: Seq<char>, j: int)
    requires
        0 <= j <= src.len(),
    ensures
        j <= digits_end(src, j) <= src.len(),
    decreases src.len() - j,
{
    if j < src.len() && is_digit(src[j]) {
        lemma_digits_end(src, j + 1);
    }
}

/// The numeric value of one digit character.
pub open spec fn digit_of(c: char) -> nat {
    ((c as int) - ('0' as int)) as nat
}

/// The value of the decimal digit run `src[i..j)`.
pub open spec fn dec_value(src: Seq<char>, i: int, j: int) -> nat
    decreases j - i,
{
    if j <= i {
        0
    } else {
        dec_value(src, i, j - 1) * 10 + digit_of(src[j - 1])
    }
}

/// The magnitude that does not fit the signed 64-bit value the sign asks for.
pub open spec fn int_too_wide(neg: bool, m: nat) -> bool {
    if neg {
        m > 0x8000000000000000
    } else {
        m > 0x7fffffffffffffff
    }
}

/// The token an identifier word stands for: a reserved word's own kind, or
/// an interned symbol.
pub open spec fn word_token(text: Seq<char>, tbl: Seq<Seq<char>>) -> Token {
    if text == "def"@ {
        Token::Op(crate::ast::Operator::Def)
    } else if text == "if"@ {
        Token::Op(crate::ast::Operator::If)
    } else if text == "let"@ {
        Token::Op(crate::ast::Operator::Let)
    } else if text == "nil"@ {
        Token::Nil
    } else if text == "true"@ {
        Token::BoolTrue
    } else if text == "false"@ {
        Token::BoolFalse
    } else {
        Token::Symbol(
            crate::interner::Name {
                raw: crate::interner::intern_index(tbl, text) as usize,
            },
        )
    }
}

/// The interner table after an identifier word: reserved words are not
/// interned.
pub open spec fn word_table(text: Seq<char>, tbl: Seq<Seq<char>>) -> Seq<Seq<char>> {
    if text == "def"@ || text == "if"@ || text == "let"@ || text == "nil"@ || text == "true"@
        || text == "false"@ {
        tbl
    } else {
        crate::interner::intern_table(tbl, text)
    }
}

/// Prepends one token to a scan's result, passing an error through.
pub open spec fn lex_cons(t: Spanned<Token>, out: (Seq<Seq<char>>, Result<
    Seq<Spanned<Token>>,
    Error,
>)) -> (Seq<Seq<char>>, Result<Seq<Spanned<Token>>, Error>) {
    match out.1 {
        Ok(ts) => (out.0, Ok(seq![t] + ts)),
        Err(_) => out,
    }
}

/// The scan of `src` from position `pos` with interner table `tbl`: the
/// lexical rules as one function. It gives the grown table together with the
/// token stream, or the error — an unterminated string to the line's end, an
/// out-of-range or ill-formed integer over the literal, a bare colon at its
/// own character.
pub open spec fn lex(src: Seq<char>, pos: int, tbl: Seq<Seq<char>>) -> (Seq<Seq<char>>, Result<
    Seq<Spanned<Token>>,
    Error,
>)
    decreases src.len() - pos
    when 0 <= pos <= src.len()
    via lex_decreases
{
    if pos >= src.len() {
        (tbl, Ok(Seq::empty()))
    } else {
        let c = src[pos];
        if is_ws(c) {
            lex(src, pos + 1, tbl)
        } else if c == '(' {
            lex_cons(
                Spanned {
                    span: Span { lo: pos as usize, hi: (pos + 1) as usize },
                    node: Token::LParen,
                },
                lex(src, pos + 1, tbl),
            )
        } else if c == ')' {
            lex_cons(
                Spanned {
                    span: Span { lo: pos as usize, hi: (pos + 1) as usize },
                    node: Token::RParen,
                },
                lex(src, pos + 1, tbl),
            )
        } else if c == '[' {
            lex_cons(
                Spanned {
                    span: Span { lo: pos as usize, hi: (pos + 1) as usize },
                    node: Token::LBracket,
                },
                lex(src, pos + 1, tbl),
            )
        } else if c == ']' {
            lex_cons(
                Spanned {
                    span: Span { lo: pos as usize, hi: (pos + 1) as usize },
                    node: Token::RBracket,
                },
                lex(src, pos + 1, tbl),
            )
        } else if c == '"' {
            match string_close(src, pos + 1) {
                None => (
                    tbl,
                    Err(
                        Spanned {
                            span: Span { lo: pos as usize, hi: src.len() as usize },
                            node: Error_::UnterminatedString,
                        },
                    ),
                ),
                Some(q) => lex_cons(
                    Spanned {
                        span: Span { lo: pos as usize, hi: (q + 1) as usize },
                        node: Token::Str,
                    },
                    lex(src, q + 1, tbl),
                ),
            }
        } else if c == ':' {
            let end = ident_end(src, pos + 1);
            if end == pos + 1 {
                (
                    tbl,
                    Err(
                        Spanned {
                            span: Span { lo: pos as usize, hi: (pos + 1) as usize },
                            node: Error_::UnexpectedToken,
                        },
                    ),
                )
            } else {
                let text = src.subrange(pos + 1, end);
                lex_cons(
                    Spanned {
                        span: Span { lo: pos as usize, hi: end as usize },
                        node: Token::Keyword(
                            crate::interner::Name {
                                raw: crate::interner::intern_index(tbl, text) as usize,
                            },
                        ),
                    },
                    lex(src, end, crate::interner::intern_table(tbl, text)),
                )
            }
        } else if is_digit(c) || (c == '-' && pos + 1 < src.len() && is_digit(src[pos + 1])) {
            let dstart = if c == '-' {
                pos + 1
            } else {
                pos
            };
            let de = digits_end(src, dstart);
            if de < src.len() && !is_ws(src[de]) && !is_delim(src[de]) {
                (
                    tbl,
                    Err(
                        Spanned {
                            span: Span { lo: pos as usize, hi: (de + 1) as usize },
                            node: Error_::InvalidInteger,
                        },
                    ),
                )
            } else {
                let neg = c == '-';
                let m = dec_value(src, dstart, de);
                if int_too_wide(neg, m) {
                    (
                        tbl,
                        Err(
                            Spanned {
                                span: Span { lo: pos as usize, hi: de as usize },
                                node: Error_::InvalidInteger,
                            },
                        ),
                    )
                } else {
                    let v = if neg {
                        (0 - m as int) as i64
                    } else {
                        m as i64
                    };
                    lex_cons(
                        Spanned {
                            span: Span { lo: pos as usize, hi: de as usize },
                            node: Token::Integer(v),
                        },
                        lex(src, de, tbl),
                    )
                }
            }
        } else {
            let end = ident_end(src, pos);
            let text = src.subrange(pos, end);
            lex_cons(
                Spanned {
                    span: Span { lo: pos as usize, hi: end as usize },
                    node: word_token(text, tbl),
                },
                lex(src, end, word_table(text, tbl)),
            )
        }
    }
}

#[via_fn]
proof fn lex_decreases(src: Seq<char>, pos: int, tbl: Seq<Seq<char>>) {
    if 0 <= pos < src.len() {
        lemma_string_close(src, pos + 1);
        lemma_ident_end(src, pos + 1);
        lemma_ident_end(src, pos);
        if is_digit(src[pos]) {
            lemma_digits_end(src, pos);
        }
        if pos + 1 <= src.len() {
            lemma_digits_end(src, pos + 1);
        }
    }
}

/// Appends a scan's result after already-scanned tokens.
pub open spec fn lex_append(ts: Seq<Spanned<Token>>, out: (Seq<Seq<char>>, Result<
    Seq<Spanned<Token>>,
    Error,
>)) -> (Seq<Seq<char>>, Result<Seq<Spanned<Token>>, Error>) {
    match out.1 {
        Ok(rest) => (out.0, Ok(ts + rest)),
        Err(_) => out,
    }
}

/// Accumulating one more token commutes with prepending it to the rest.
proof fn lemma_lex_append_cons(
    ts: Seq<Spanned<Token>>,
    t: Spanned<Token>,
    out: (Seq<Seq<char>>, Result<Seq<Spanned<Token>>, Error>),
)
    ensures
        lex_append(ts, lex_cons(t, out)) == lex_append(ts.push(t), out),
{
    match out.1 {
        Ok(rest) => {
            assert(ts + (seq![t] + rest) =~= ts.push(t) + rest);
        },
        Err(_) => {},
    }
}

/// One token is well formed: its span is a non-empty range of the source,
/// and a string token has room for its two quotes.
pub open spec fn token_wf(t: Spanned<Token>, n: nat) -> bool {
    &&& t.span.lo < t.span.hi
    &&& t.span.hi <= n
    &&& (t.node is Str ==> t.span.lo + 2 <= t.span.hi)
}

/// The token's name, if any, was issued by an interner of `m` entries.
pub open spec fn token_names_valid(t: Spanned<Token>, m: nat) -> bool {
    match t.node {
        Token::Keyword(name) => name.raw < m,
        Token::Symbol(name) => name.raw < m,
        _ => true,
    }
}

/// A well-formed token stream: every token well formed, tokens in source
/// order without overlap, names valid.
pub open spec fn tokens_wf(toks: Seq<Spanned<Token>>, n: nat, m: nat) -> bool {
    &&& forall|i: int| 0 <= i < toks.len() ==> token_wf(#[trigger] toks[i], n)
    &&& forall|i: int| 0 <= i < toks.len() ==> token_names_valid(#[trigger] toks[i], m)
    &&& forall|i: int| 0 <= i < toks.len() - 1 ==> (#[trigger] toks[i]).span.hi <= toks[i
        + 1].span.lo
}

fn is_ws_exec(c: char) -> (r: bool)
    ensures
        r == is_ws(c),
{
    c == ' ' || c == '\t' || c == ',' || c == '\n' || c == '\r'
}

fn is_delim_exec(c: char) -> (r: bool)
    ensures
        r == is_delim(c),
{
    c == '(' || c == ')' || c == '[' || c == ']' || c == '"'
}

fn is_digit_exec(c: char) -> (r: bool)
    ensures
        r == is_digit(c),
{
    '0' <= c && c <= '9'
}

/// Scans the source into tokens: the result — the grown interner table and
/// the token stream or the error — is exactly what the spec-level scanner
/// [`lex`] derives from the text.
#[verifier::loop_isolation(false)]
#[verifier::rlimit(100)]
pub fn tokenize(source: &Source, interner: &mut Interner) -> (r: Result<
    Vec<Spanned<Token>>,
    Error,
>)
    requires
        old(interner).wf(),
    ensures
        final(interner).wf(),
        old(interner)@.len() <= final(interner)@.len(),
        forall|i: int|
            0 <= i < old(interner)@.len() ==> final(interner)@[i] == old(interner)@[i],
        match r {
            Ok(toks) => tokens_wf(toks@, source@.len(), final(interner)@.len()),
            Err(err) => err.span.wf() && err.span.hi <= source@.len(),
        },
        ({
            let (tbl2, res) = lex(source@, 0, old(interner)@);
            &&& final(interner)@ == tbl2
            &&& match (r, res) {
                (Ok(toks), Ok(stoks)) => toks@ == stoks,
                (Err(e1), Err(e2)) => e1 == e2,
                _ => false,
            }
        }),
{
    let ghost tbl0 = interner@;
    let s = source.as_str();
    let len = s.unicode_len();
    let mut toks: Vec<Spanned<Token>> = Vec::new();
    let mut pos: usize = 0;
    proof {
        assert(lex_append(toks@, lex(source@, 0, tbl0)) == lex(source@, 0, tbl0)) by {
            let (t2, r2) = lex(source@, 0, tbl0);
            match r2 {
                Ok(rest) => {
                    assert(toks@ + rest =~= rest);
                },
                Err(_) => {},
            }
        }
    }
    while pos < len
        invariant
            pos <= len,
            interner.wf(),
            old(interner)@.len() <= interner@.len(),
            forall|i: int| 0 <= i < old(interner)@.len() ==> interner@[i] == old(interner)@[i],
            forall|i: int| 0 <= i < toks@.len() ==> token_wf(#[trigger] toks@[i], len as nat),
            forall|i: int|
                0 <= i < toks@.len() ==> token_names_valid(#[trigger] toks@[i], interner@.len()),
            forall|i: int|
                0 <= i < toks@.len() - 1 ==> (#[trigger] toks@[i]).span.hi <= toks@[i
                    + 1].span.lo,
            forall|i: int| 0 <= i < toks@.len() ==> (#[trigger] toks@[i]).span.hi <= pos,
            lex_append(toks@, lex(source@, pos as int, interner@)) == lex(source@, 0, tbl0),
        decreases len - pos,
    {
        let c = s.get_char(pos);
        if is_ws_exec(c) {
            proof {
                assert(lex(source@, pos as int, interner@) == lex(
                    source@,
                    pos as int + 1,
                    interner@,
                ));
            }
            pos += 1;
        } else if c == '(' {
            let t = Spanned::new(Span::new(pos, pos + 1), Token::LParen);
            proof {
                assert(lex(source@, pos as int, interner@) == lex_cons(
                    t,
                    lex(source@, pos as int + 1, interner@),
                ));
                lemma_lex_append_cons(toks@, t, lex(source@, pos as int + 1, interner@));
            }
            toks.push(t);
            pos += 1;
        } else if c == ')' {
            let t = Spanned::new(Span::new(pos, pos + 1), Token::RParen);
            proof {
                assert(lex(source@, pos as int, interner@) == lex_cons(
                    t,
                    lex(source@, pos as int + 1, interner@),
                ));
                lemma_lex_append_cons(toks@, t, lex(source@, pos as int + 1, interner@));
            }
            toks.push(t);
            pos += 1;
        } else if c == '[' {
            let t = Spanned::new(Span::new(pos, pos + 1), Token::LBracket);
            proof {
                assert(lex(source@, pos as int, interner@) == lex_cons(
                    t,
                    lex(source@, pos as int + 1, interner@),
                ));
                lemma_lex_append_cons(toks@, t, lex(source@, pos as int + 1, interner@));
            }
            toks.push(t);
            pos += 1;
        } else if c == ']' {
            let t = Spanned::new(Span::new(pos, pos + 1), Token::RBracket);
            proof {
                assert(lex(source@, pos as int, interner@) == lex_cons(
                    t,
                    lex(source@, pos as int + 1, interner@),
                ));
                lemma_lex_append_cons(toks@, t, lex(source@, pos as int + 1, interner@));
            }
            toks.push(t);
            pos += 1;
        } else if c == '"' {
            let start = pos;
            let mut j = pos + 1;
            let mut closed = false;
            while j < len && !closed
                invariant
                    start < j <= len,
                    closed ==> j < len,
                    !closed ==> string_close(source@, start as int + 1) == string_close(
                        source@,
                        j as int,
                    ),
                    closed ==> string_close(source@, start as int + 1) == Some(j as int),
                decreases len + 1 - j + (if closed { 0int } else { 1int }),
            {
                let cj = s.get_char(j);
                if cj == '"' {
                    closed = true;
                } else if cj == '\\' {
                    if j + 1 < len {
                        j += 2;
                    } else {
                        j += 1;
                    }
                } else {
                    j += 1;
                }
            }
            if !closed {
                proof {
                    assert(string_close(source@, start as int + 1) is None);
                    let err = Spanned {
                        span: Span { lo: start, hi: len },
                        node: Error_::UnterminatedString,
                    };
                    assert(lex(source@, pos as int, interner@) == (
                        interner@,
                        Err::<Seq<Spanned<Token>>, Error>(err),
                    ));
                }
                return Err(Spanned::new(Span::new(start, len), Error_::UnterminatedString));
            }
            let t = Spanned::new(Span::new(start, j + 1), Token::Str);
            proof {
                assert(lex(source@, pos as int, interner@) == lex_cons(
                    t,
                    lex(source@, j as int + 1, interner@),
                ));
                lemma_lex_append_cons(toks@, t, lex(source@, j as int + 1, interner@));
            }
            toks.push(t);
            pos = j + 1;
        } else if c == ':' {
            let start = pos;
            let mut j = pos + 1;
            while j < len && !is_ws_exec(s.get_char(j)) && !is_delim_exec(s.get_char(j))
                invariant
                    start < j <= len,
                    ident_end(source@, start as int + 1) == ident_end(source@, j as int),
                decreases len - j,
            {
                j += 1;
            }
            proof {
                assert(ident_end(source@, j as int) == j as int);
                assert(ident_end(source@, start as int + 1) == j as int);
            }
            if j == pos + 1 {
                proof {
                    let err = Spanned {
                        span: Span { lo: start, hi: (start + 1) as usize },
                        node: Error_::UnexpectedToken,
                    };
                    assert(lex(source@, pos as int, interner@) == (
                        interner@,
                        Err::<Seq<Spanned<Token>>, Error>(err),
                    ));
                }
                return Err(Spanned::new(Span::new(start, j), Error_::UnexpectedToken));
            }
            let ghost tbl_before = interner@;
            let text = s.substring_char(pos + 1, j);
            let name = interner.intern(text);
            let t = Spanned::new(Span::new(start, j), Token::Keyword(name));
            proof {
                let text_v = source@.subrange(pos as int + 1, j as int);
                assert(name.raw as int == crate::interner::intern_index(tbl_before, text_v));
                assert(name == (crate::interner::Name {
                    raw: crate::interner::intern_index(tbl_before, text_v) as usize,
                }));
                assert(interner@ == crate::interner::intern_table(tbl_before, text_v));
                assert(lex(source@, pos as int, tbl_before) == lex_cons(
                    t,
                    lex(source@, j as int, interner@),
                ));
                lemma_lex_append_cons(toks@, t, lex(source@, j as int, interner@));
            }
            toks.push(t);
            pos = j;
        } else if is_digit_exec(c) || (c == '-' && pos + 1 < len && is_digit_exec(
            s.get_char(pos + 1),
        )) {
            let start = pos;
            let neg = c == '-';
            let mut j = if neg {
                pos + 1
            } else {
                pos
            };
            let ghost ds = j as int;
            let mut acc: i64 = 0;
            let mut overflow = false;
            while j < len && !is_ws_exec(s.get_char(j)) && !is_delim_exec(s.get_char(j))
                invariant
                    ds <= j <= len,
                    start < len,
                    start <= ds <= start + 1,
                    digits_end(source@, ds) == digits_end(source@, j as int),
                    !overflow ==> !int_too_wide(neg, dec_value(source@, ds, j as int)),
                    !overflow ==> acc as int == (if neg {
                        0 - dec_value(source@, ds, j as int) as int
                    } else {
                        dec_value(source@, ds, j as int) as int
                    }),
                    overflow ==> int_too_wide(neg, dec_value(source@, ds, j as int)),
                decreases len - j,
            {
                let cj = s.get_char(j);
                if !is_digit_exec(cj) {
                    proof {
                        assert(digits_end(source@, j as int) == j as int);
                        let err = Spanned {
                            span: Span { lo: start, hi: (j + 1) as usize },
                            node: Error_::InvalidInteger,
                        };
                        assert(lex(source@, pos as int, interner@) == (
                            interner@,
                            Err::<Seq<Spanned<Token>>, Error>(err),
                        ));
                    }
                    return Err(Spanned::new(Span::new(start, j + 1), Error_::InvalidInteger));
                }
                proof {
                    assert(digits_end(source@, j as int) == digits_end(source@, j as int + 1));
                }
                let d = (cj as u32) - ('0' as u32);
                let ghost m = dec_value(source@, ds, j as int);
                let ghost m2 = dec_value(source@, ds, j as int + 1);
                proof {
                    assert(m2 == m * 10 + digit_of(source@[j as int]));
                    assert(digit_of(source@[j as int]) == d as nat);
                    assert(d <= 9);
                    if overflow {
                        assert(m2 >= m);
                    }
                }
                let step = acc.checked_mul(10);
                match step {
                    Some(acc10) => {
                        let step2 = if neg {
                            acc10.checked_sub(d as i64)
                        } else {
                            acc10.checked_add(d as i64)
                        };
                        match step2 {
                            Some(a) => {
                                acc = a;
                            },
                            None => {
                                overflow = true;
                            },
                        }
                    },
                    None => {
                        overflow = true;
                    },
                }
                j += 1;
            }
            proof {
                assert(digits_end(source@, j as int) == j as int);
                assert(digits_end(source@, ds) == j as int);
            }
            if overflow {
                proof {
                    let err = Spanned {
                        span: Span { lo: start, hi: j },
                        node: Error_::InvalidInteger,
                    };
                    assert(lex(source@, pos as int, interner@) == (
                        interner@,
                        Err::<Seq<Spanned<Token>>, Error>(err),
                    ));
                }
                return Err(Spanned::new(Span::new(start, j), Error_::InvalidInteger));
            }
            let t = Spanned::new(Span::new(start, j), Token::Integer(acc));
            proof {
                let m = dec_value(source@, ds, j as int);
                if neg {
                    assert(acc == (0 - m as int) as i64);
                } else {
                    assert(acc == m as i64);
                }
                assert(lex(source@, pos as int, interner@) == lex_cons(
                    t,
                    lex(source@, j as int, interner@),
                ));
                lemma_lex_append_cons(toks@, t, lex(source@, j as int, interner@));
            }
            toks.push(t);
            pos = j;
        } else {
            let start = pos;
            let mut j = pos;
            while j < len && !is_ws_exec(s.get_char(j)) && !is_delim_exec(s.get_char(j))
                invariant
                    start <= j <= len,
                    ident_end(source@, start as int) == ident_end(source@, j as int),
                decreases len - j,
            {
                j += 1;
            }
            proof {
                assert(ident_end(source@, j as int) == j as int);
                assert(ident_end(source@, start as int) == j as int);
            }
            if j == start {
                // c is neither whitespace nor an identifier character: it is
                // a delimiter, all of which are handled above
                proof {
                    assert(false);
                }
                return Err(Spanned::new(Span::new(start, len), Error_::UnexpectedToken));
            }
            let ghost tbl_before = interner@;
            let text = s.substring_char(start, j);
            let tok = if str_eq(text, "def") {
                Token::Op(crate::ast::Operator::Def)
            } else if str_eq(text, "if") {
                Token::Op(crate::ast::Operator::If)
            } else if str_eq(text, "let") {
                Token::Op(crate::ast::Operator::Let)
            } else if str_eq(text, "nil") {
                Token::Nil
            } else if str_eq(text, "true") {
                Token::BoolTrue
            } else if str_eq(text, "false") {
                Token::BoolFalse
            } else {
                Token::Symbol(interner.intern(text))
            };
            let t = Spanned::new(Span::new(start, j), tok);
            proof {
                let text_v = source@.subrange(pos as int, j as int);
                assert(text_v == text@);
                assert(tok == word_token(text_v, tbl_before));
                assert(interner@ == word_table(text_v, tbl_before));
                assert(lex(source@, pos as int, tbl_before) == lex_cons(
                    t,
                    lex(source@, j as int, interner@),
                ));
                lemma_lex_append_cons(toks@, t, lex(source@, j as int, interner@));
            }
            toks.push(t);
            pos = j;
        }
    }
    proof {
        assert(lex(source@, pos as int, interner@) == (
            interner@,
            Ok::<Seq<Spanned<Token>>, Error>(Seq::empty()),
        ));
        let (t2, r2) = lex(source@, 0, tbl0);
        assert(toks@ + Seq::<Spanned<Token>>::empty() =~= toks@);
        assert(t2 == interner@ && r2 == Ok::<Seq<Spanned<Token>>, Error>(toks@));
    }
    Ok(toks)
}

} // verus!

//! Source text and spans: one line of input, and half-open character
//! ranges into it that every syntax node and diagnostic carries.

use vstd::prelude::*;

verus! {

/// A half-open range `[lo, hi)` of character positions into a [`Source`].
#[derive(Clone, Copy, PartialEq, Eq, Structural, Debug)]
pub struct Span {
    pub lo: usize,
    pub hi: usize,
}

impl Span {
    /// A span never runs backwards.
    pub open spec fn wf(self) -> bool {
        self.lo <= self.hi
    }

    /// `inner` lies entirely within `self`.
    pub open spec fn contains(self, inner: Span) -> bool {
        self.lo <= inner.lo && inner.hi <= self.hi
    }

    pub fn new(lo: usize, hi: usize) -> (s: Span)
        requires
            lo <= hi,
        ensures
            s == (Span { lo, hi }),
    {
        Span { lo, hi }
    }
}

/// A value of type `T` paired with the span it came from.
#[derive(Clone, Copy, PartialEq, Eq, Structural, Debug)]
pub struct Spanned<T> {
    pub node: T,
    pub span: Span,
}

impl<T> Spanned<T> {
    pub fn new(span: Span, node: T) -> (s: Spanned<T>)
        ensures
            s.span == span,
            s.node == node,
    {
        Spanned { node, span }
    }
}

/// One line of user input, owning its text. Positions and spans index its
/// characters.
pub struct Source {
    text: String,
}

impl View for Source {
    type V = Seq<char>;

    closed spec fn view(&self) -> Seq<char> {
        self.text@
    }
}

impl Source {
    pub fn new(text: String) -> (s: Source)
        ensures
            s@ == text@,
    {
        Source { text }
    }

    pub fn as_str(&self) -> (r: &str)
        ensures
            r@ == self@,
    {
        self.text.as_str()
    }

    /// The text under `span`.
    pub fn slice(&self, span: Span) -> (r: &str)
        requires
            span.wf(),
            span.hi <= self@.len(),
        ensures
            r@ == self@.subrange(span.lo as int, span.hi as int),
    {
        self.text.as_str().substring_char(span.lo, span.hi)
    }
}

} // verus!

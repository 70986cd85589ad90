//! Positioned diagnostics. A failed parse yields `ParseError` values: a
//! primary span with a reason, and one context frame per enclosing named
//! rule (`binding`, `let-in`) that was being parsed when the failure was
//! found.

use vstd::prelude::*;

verus! {

/// A half-open byte range in the source text.
#[derive(Debug, Clone, Copy, PartialEq, Eq, Structural)]
pub struct Span {
    pub start: usize,
    pub end: usize,
}

impl Span {
    /// A span is ordered and stays inside a source of length `len`.
    pub open spec fn wf(self, len: nat) -> bool {
        self.start <= self.end && self.end <= len
    }
}

/// A named grammar rule that contributes a context frame to errors found
/// while it is being parsed.
#[derive(Debug, Clone, Copy, PartialEq, Eq, Structural)]
pub enum Label {
    Binding,
    LetIn,
}

/// The keywords of the language.
#[derive(Debug, Clone, Copy, PartialEq, Eq, Structural)]
pub enum Keyword {
    Let,
    In,
}

/// Why a parse failed at a position.
#[derive(Debug, Clone, Copy, PartialEq, Eq, Structural)]
pub enum Reason {
    /// A byte that no rule could accept here (syntactic).
    UnexpectedChar(u8),
    /// The input ended where more was required (syntactic).
    UnexpectedEnd,
    /// A digit sequence whose value does not fit the numeric type
    /// (lexical).
    InvalidNumber,
    /// A specific byte was required and absent (structural: a missing
    /// `)`, `;`, `=` or `:`).
    ExpectedChar(u8),
    /// A keyword was required and absent (structural: a missing `in`).
    ExpectedKeyword(Keyword),
}

/// One enclosing rule of a failure: which rule, and the span from the
/// rule's start to the failure.
#[derive(Debug, Clone, Copy, PartialEq, Eq, Structural)]
pub struct Context {
    pub label: Label,
    pub span: Span,
}

/// A positioned parse error: the failing span, the reason, and the stack
/// of enclosing named rules, innermost first.
#[derive(Debug, PartialEq)]
pub struct ParseError {
    pub span: Span,
    pub reason: Reason,
    pub contexts: Vec<Context>,
}

impl ParseError {
    /// The primary span and every context span stay inside a source of
    /// length `len`.
    pub open spec fn wf(self, len: nat) -> bool {
        &&& self.span.wf(len)
        &&& forall|i: int| 0 <= i < self.contexts@.len() ==> (#[trigger] self.contexts@[i]).span.wf(
            len,
        )
    }
}

} // verus!

//! Structured diagnostics: a severity, a primary location and message,
//! labelled secondary locations and nested notes.
use vstd::prelude::*;

use crate::ty::RelativeSpan;

verus! {

#[derive(Copy, Clone, Debug, PartialEq, Eq, Structural, Hash)]
pub enum Severity {
    Error,
    Warning,
}

/// An item whose source location spans are taken from.
#[derive(Copy, Clone, Debug, PartialEq, Eq, Structural, Hash)]
pub struct ItemSymbol(pub u32);

/// A parsed source, such as a file or a macro expansion.
#[derive(Copy, Clone, Debug, PartialEq, Eq, Structural, Hash)]
pub struct SourceId(pub u32);

/// A byte range within one parsed source.
#[derive(Copy, Clone, Debug, PartialEq, Eq, Structural, Hash)]
pub struct AbsoluteSpan {
    pub source: SourceId,
    pub start: u32,
    pub end: u32,
}

/// A source location, resolvable to an absolute position when rendering.
#[derive(Copy, Clone, Debug, PartialEq, Eq, Structural, Hash)]
pub enum Span {
    /// A byte range within a symbol's body.
    Relative(ItemSymbol, RelativeSpan),
    /// The entire span of a symbol.
    Symbol(ItemSymbol),
    /// An already-absolute span.
    Absolute(AbsoluteSpan),
}

#[derive(Copy, Clone, Debug, PartialEq, Eq, Structural, Hash)]
pub enum LabelStyle {
    Primary,
    Secondary,
}

/// A message attached to a location of a diagnostic.
#[derive(Clone, Debug, PartialEq, Eq, Hash)]
pub struct Label {
    pub span: Span,
    pub message: String,
    pub style: LabelStyle,
}

/// A single diagnostic.
#[derive(Debug)]
pub struct Diagnostic {
    pub severity: Severity,
    pub span: Span,
    pub message: String,
    pub labels: Vec<Label>,
    pub notes: Vec<Diagnostic>,
}

impl Diagnostic {
    /// An error at `span` with no labels or notes.
    pub fn error(span: Span, message: String) -> (diagnostic: Self)
        ensures
            diagnostic.severity == Severity::Error,
            diagnostic.span == span,
            diagnostic.message@ == message@,
            diagnostic.labels@ == Seq::<Label>::empty(),
            diagnostic.notes@ == Seq::<Diagnostic>::empty(),
    {
        Diagnostic { severity: Severity::Error, span, message, labels: Vec::new(), notes: Vec::new() }
    }

    /// A warning at `span` with no labels or notes.
    pub fn warning(span: Span, message: String) -> (diagnostic: Self)
        ensures
            diagnostic.severity == Severity::Warning,
            diagnostic.span == span,
            diagnostic.message@ == message@,
            diagnostic.labels@ == Seq::<Label>::empty(),
            diagnostic.notes@ == Seq::<Diagnostic>::empty(),
    {
        Diagnostic {
            severity: Severity::Warning,
            span,
            message,
            labels: Vec::new(),
            notes: Vec::new(),
        }
    }

    /// Add a primary label.
    pub fn label(self, span: Span, message: String) -> (diagnostic: Self)
        ensures
            diagnostic.severity == self.severity,
            diagnostic.span == self.span,
            diagnostic.message@ == self.message@,
            diagnostic.labels@ == self.labels@.push(Label { span, message, style: LabelStyle::Primary }),
            diagnostic.notes@ == self.notes@,
    {
        let mut diagnostic = self;
        diagnostic.labels.push(Label { span, message, style: LabelStyle::Primary });
        diagnostic
    }

    /// Add a secondary label.
    pub fn secondary(self, span: Span, message: String) -> (diagnostic: Self)
        ensures
            diagnostic.severity == self.severity,
            diagnostic.span == self.span,
            diagnostic.message@ == self.message@,
            diagnostic.labels@ == self.labels@.push(
                Label { span, message, style: LabelStyle::Secondary },
            ),
            diagnostic.notes@ == self.notes@,
    {
        let mut diagnostic = self;
        diagnostic.labels.push(Label { span, message, style: LabelStyle::Secondary });
        diagnostic
    }

    /// Add a nested note.
    pub fn note(self, sub: Diagnostic) -> (diagnostic: Self)
        ensures
            diagnostic.severity == self.severity,
            diagnostic.span == self.span,
            diagnostic.message@ == self.message@,
            diagnostic.labels@ == self.labels@,
            diagnostic.notes@ == self.notes@.push(sub),
    {
        let mut diagnostic = self;
        diagnostic.notes.push(sub);
        diagnostic
    }
}

/// Witness that at least one diagnostic has been emitted. Only the
/// diagnostic-reporting machinery constructs it.
#[derive(Copy, Clone, Debug, PartialEq, Eq, Structural, Hash)]
pub struct ErrorReported {
    witness: bool,
}

impl ErrorReported {
    /// The witness value: every token the reporting machinery hands out is this one.
    pub closed spec fn reported() -> ErrorReported {
        ErrorReported { witness: true }
    }

    /// Mint a new witness.
    pub(crate) fn mint() -> (token: Self)
        ensures
            token == ErrorReported::reported(),
    {
        ErrorReported { witness: true }
    }
}

} // verus!

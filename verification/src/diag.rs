//! Spans and diagnostics: the data every reported failure carries, and the
//! two independent collections (lexical and grammar) a parse accumulates.

use vstd::prelude::*;

verus! {

/// A half-open `[start, end)` byte-offset range into the source text.
#[derive(Clone, Copy, Debug, PartialEq, Eq, Structural)]
pub struct Span {
    pub start: usize,
    pub end: usize,
}

/// Mathematical model of a [`Span`]: the same pair over unbounded integers.
#[verifier::ext_equal]
pub struct SpanModel {
    pub start: int,
    pub end: int,
}

impl View for Span {
    type V = SpanModel;

    open spec fn view(&self) -> SpanModel {
        SpanModel { start: self.start as int, end: self.end as int }
    }
}

/// The classes of failure the pipeline reports.
#[derive(Clone, Copy, Debug, PartialEq, Eq, Structural)]
pub enum DiagnosticKind {
    /// A source slice matches no lexical rule.
    InvalidToken,
    /// The grammar required a token kind absent at this position.
    Expected,
    /// A format value list has a count other than three.
    ArityMismatch,
    /// A statement opens but never reaches its closing delimiter before the
    /// input ends or before the next statement begins.
    UnterminatedStatement,
}

/// Mathematical model of a [`Diagnostic`].
#[verifier::ext_equal]
pub struct DiagModel {
    pub kind: DiagnosticKind,
    pub span: SpanModel,
    pub message: Seq<char>,
    pub contexts: Seq<(Seq<char>, SpanModel)>,
}

/// A reported failure: its kind, the primary span, a human-readable message,
/// and an innermost-first list of (rule label, span) context frames naming
/// the grammar productions that were active when the failure occurred.
#[derive(Debug, PartialEq)]
pub struct Diagnostic {
    pub kind: DiagnosticKind,
    pub span: Span,
    pub message: String,
    pub contexts: Vec<(&'static str, Span)>,
}

impl View for Diagnostic {
    type V = DiagModel;

    open spec fn view(&self) -> DiagModel {
        DiagModel {
            kind: self.kind,
            span: self.span@,
            message: self.message@,
            contexts: self.contexts@.map_values(|c: (&'static str, Span)| (c.0@, c.1@)),
        }
    }
}

/// The two independent collections of diagnostics a parse produces: lexical
/// errors and grammar errors are tracked separately, and neither is ever
/// dropped.
#[derive(Debug, PartialEq)]
pub struct Diagnostics {
    pub lex_errors: Vec<Diagnostic>,
    pub parse_errors: Vec<Diagnostic>,
}

/// The models of a list of diagnostics.
pub open spec fn diags_model(ds: Seq<Diagnostic>) -> Seq<DiagModel> {
    ds.map_values(|d: Diagnostic| d@)
}

/// The message reported for a source slice that matches no lexical rule.
pub open spec fn invalid_token_msg(text: Seq<char>) -> Seq<char> {
    "invalid token '"@ + text + "'"@
}

/// The message reported when the grammar required one token kind and found
/// another.
pub open spec fn expected_msg(what: Seq<char>, found: Seq<char>) -> Seq<char> {
    "expected "@ + what + ", found "@ + found
}

/// The message reported for a statement that never reaches its closing
/// delimiter.
pub open spec fn unterminated_msg() -> Seq<char> {
    "unterminated statement"@
}

/// The message reported for a format value list whose count is not three.
pub open spec fn arity_msg() -> Seq<char> {
    "expected exactly 3 numeric values"@
}

pub(crate) fn make_invalid_token_msg(text: &str) -> (r: String)
    ensures
        r@ == invalid_token_msg(text@),
{
    let mut m = String::from_str("invalid token '");
    m.append(text);
    m.append("'");
    m
}

pub(crate) fn make_expected_msg(what: &str, found: &str) -> (r: String)
    ensures
        r@ == expected_msg(what@, found@),
{
    let mut m = String::from_str("expected ");
    m.append(what);
    m.append(", found ");
    m.append(found);
    m
}

pub(crate) fn make_unterminated_msg() -> (r: String)
    ensures
        r@ == unterminated_msg(),
{
    String::from_str("unterminated statement")
}

pub(crate) fn make_arity_msg() -> (r: String)
    ensures
        r@ == arity_msg(),
{
    String::from_str("expected exactly 3 numeric values")
}

} // verus!

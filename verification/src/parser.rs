//! The parser: recursive descent over the token stream. The authoritative
//! grammar is the statement form
//!
//! ```text
//! program   := statement*
//! statement := [keyword] name '@' '{' key format '}' ';'
//! format    := ['.' transform] ['(' number number number ')']
//! ```
//!
//! with the keyword optional and the terminating `;` mandatory. A malformed
//! statement yields one diagnostic scoped to the malformed region, and the
//! parser resynchronizes (past the next `;`, or to the next keyword) and
//! goes on: one bad statement never suppresses its siblings. The executable
//! parser is proved to return exactly [`spec_parse`], so its output is a
//! function of the token stream alone.

use vstd::prelude::*;

use crate::diag::{
    arity_msg, diags_model, expected_msg, make_arity_msg, make_expected_msg,
    make_unterminated_msg, unterminated_msg, DiagModel, Diagnostic, DiagnosticKind, Diagnostics,
    Span, SpanModel,
};
use crate::lexer::{lex, spec_lex, toks_model, Token, TokenModel};

verus! {

/// The optional value-transformation attached to a target key. Numeric
/// entries keep the raw matched text; conversion is deferred to the
/// consumer.
#[derive(Clone, Copy, Debug, PartialEq)]
pub enum Format<'a> {
    /// A named transform applied to three numeric values.
    Full(&'a str, (&'a str, &'a str, &'a str)),
    /// A named transform without values.
    Name(&'a str),
    /// Three numeric values without a transform name.
    Values((&'a str, &'a str, &'a str)),
}

/// Mathematical model of a [`Format`].
#[verifier::ext_equal]
pub enum FormatModel {
    Full(Seq<char>, (Seq<char>, Seq<char>, Seq<char>)),
    Name(Seq<char>),
    Values((Seq<char>, Seq<char>, Seq<char>)),
}

impl<'a> View for Format<'a> {
    type V = FormatModel;

    open spec fn view(&self) -> FormatModel {
        match *self {
            Format::Full(n, v) => FormatModel::Full(n@, (v.0@, v.1@, v.2@)),
            Format::Name(n) => FormatModel::Name(n@),
            Format::Values(v) => FormatModel::Values((v.0@, v.1@, v.2@)),
        }
    }
}

/// A parsed record: the bound name, the target key, and the optional format.
#[derive(Clone, Copy, Debug, PartialEq)]
pub struct Target<'a> {
    pub name: &'a str,
    pub key: &'a str,
    pub format: Option<Format<'a>>,
}

/// Mathematical model of a [`Target`].
#[verifier::ext_equal]
pub struct TargetModel {
    pub name: Seq<char>,
    pub key: Seq<char>,
    pub format: Option<FormatModel>,
}

impl<'a> View for Target<'a> {
    type V = TargetModel;

    open spec fn view(&self) -> TargetModel {
        TargetModel {
            name: self.name@,
            key: self.key@,
            format: match self.format {
                Some(f) => Some(f@),
                None => None,
            },
        }
    }
}

/// The models of a list of spanned records.
pub open spec fn recs_model<'a>(rs: Seq<(Target<'a>, Span)>) -> Seq<(TargetModel, SpanModel)> {
    rs.map_values(|p: (Target<'a>, Span)| (p.0@, p.1@))
}

/// The rule label carried by statement-level context frames.
pub open spec fn stmt_label() -> Seq<char> {
    "statement"@
}

/// The rule label carried by format-clause context frames.
pub open spec fn format_label() -> Seq<char> {
    "format"@
}

/// The rule label carried by value-list context frames.
pub open spec fn values_label() -> Seq<char> {
    "value list"@
}

/// How a token kind is described in messages.
pub open spec fn tok_desc(t: TokenModel) -> Seq<char> {
    match t {
        TokenModel::Define => "'@define-color'"@,
        TokenModel::Identifier(_) => "identifier"@,
        TokenModel::Number(_) => "number"@,
        TokenModel::Dot => "'.'"@,
        TokenModel::Asperand => "'@'"@,
        TokenModel::LBracket => "'{'"@,
        TokenModel::RBracket => "'}'"@,
        TokenModel::LParen => "'('"@,
        TokenModel::RParen => "')'"@,
        TokenModel::Semi => "';'"@,
    }
}

/// The byte offset just past the last token, where end-of-input failures are
/// reported.
pub open spec fn end_pos(t: Seq<(TokenModel, SpanModel)>) -> int {
    if t.len() == 0 {
        0
    } else {
        t[t.len() - 1].1.end
    }
}

/// The span of the token at `j`, or an empty span at the end of input.
pub open spec fn fail_span(t: Seq<(TokenModel, SpanModel)>, j: int) -> SpanModel {
    if 0 <= j < t.len() {
        t[j].1
    } else {
        SpanModel { start: end_pos(t), end: end_pos(t) }
    }
}

/// A failure at the end of input, or at the start of the next statement, is
/// an unterminated statement; any other is a wrong token kind.
pub open spec fn fail_kind(t: Seq<(TokenModel, SpanModel)>, j: int) -> DiagnosticKind {
    if j >= t.len() || t[j].0 is Define {
        DiagnosticKind::UnterminatedStatement
    } else {
        DiagnosticKind::Expected
    }
}

pub open spec fn fail_msg(t: Seq<(TokenModel, SpanModel)>, j: int, what: Seq<char>) -> Seq<
    char,
> {
    if j >= t.len() || t[j].0 is Define {
        unterminated_msg()
    } else {
        expected_msg(what, tok_desc(t[j].0))
    }
}

/// The diagnostic for a grammar failure at token position `j`, expecting
/// `what`, with the active rule-context frames `ctx`.
pub open spec fn fail_diag(
    t: Seq<(TokenModel, SpanModel)>,
    j: int,
    what: Seq<char>,
    ctx: Seq<(Seq<char>, SpanModel)>,
) -> DiagModel {
    DiagModel {
        kind: fail_kind(t, j),
        span: fail_span(t, j),
        message: fail_msg(t, j, what),
        contexts: ctx,
    }
}

/// The span a rule-context frame covers: from the start of the token that
/// opened the rule to the failure point.
pub open spec fn cover(t: Seq<(TokenModel, SpanModel)>, a: int, j: int) -> SpanModel {
    SpanModel {
        start: t[a].1.start,
        end: if 0 <= j < t.len() {
            t[j].1.end
        } else {
            end_pos(t)
        },
    }
}

/// The statement-only context frame list.
pub open spec fn ctx1(t: Seq<(TokenModel, SpanModel)>, s0: int, j: int) -> Seq<
    (Seq<char>, SpanModel),
> {
    seq![(stmt_label(), cover(t, s0, j))]
}

/// Format-inside-statement context frames, innermost first.
pub open spec fn ctx2(t: Seq<(TokenModel, SpanModel)>, f0: int, s0: int, j: int) -> Seq<
    (Seq<char>, SpanModel),
> {
    seq![(format_label(), cover(t, f0, j)), (stmt_label(), cover(t, s0, j))]
}

/// Value-list-inside-format-inside-statement context frames, innermost
/// first.
pub open spec fn ctx3(t: Seq<(TokenModel, SpanModel)>, v0: int, f0: int, s0: int, j: int) -> Seq<
    (Seq<char>, SpanModel),
> {
    seq![
        (values_label(), cover(t, v0, j)),
        (format_label(), cover(t, f0, j)),
        (stmt_label(), cover(t, s0, j)),
    ]
}

/// Panic-mode resynchronization: skip tokens until one past a `;`, or stop
/// at the start of the next keyword-led statement, or at the end of input.
pub open spec fn resync(t: Seq<(TokenModel, SpanModel)>, j: int) -> int
    decreases t.len() - j,
{
    if j < 0 || j >= t.len() {
        t.len() as int
    } else if t[j].0 is Define {
        j
    } else if t[j].0 is Semi {
        j + 1
    } else {
        resync(t, j + 1)
    }
}

/// The first position at or after `j` that does not hold a `Number` token.
pub open spec fn nums_end(t: Seq<(TokenModel, SpanModel)>, j: int) -> int
    decreases t.len() - j,
{
    if 0 <= j < t.len() && t[j].0 is Number {
        nums_end(t, j + 1)
    } else {
        j
    }
}

/// What parsing an optional parenthesized value list at `j` yields.
pub enum ValuesStep {
    /// No `(` at `j`: the list is absent.
    Absent,
    /// Exactly three numeric entries; the position after the `)` follows.
    Three((Seq<char>, Seq<char>, Seq<char>), int),
    /// A diagnostic and the resynchronization position.
    Bad(DiagModel, int),
}

/// Parse an optional `( number number number )` at `j`. `v0`, `f0` and `s0`
/// are the opening token positions of the value list, format clause and
/// statement, for context frames. Exactly three entries are required: any
/// other count is an arity error, never truncated or padded.
pub open spec fn values_result(t: Seq<(TokenModel, SpanModel)>, j: int, f0: int, s0: int) -> ValuesStep {
    if !(0 <= j < t.len() && t[j].0 is LParen) {
        ValuesStep::Absent
    } else {
        let e = nums_end(t, j + 1);
        if !(e < t.len() && t[e].0 is RParen) {
            ValuesStep::Bad(fail_diag(t, e, "')'"@, ctx3(t, j, f0, s0, e)), resync(t, e))
        } else if e - (j + 1) != 3 {
            ValuesStep::Bad(
                DiagModel {
                    kind: DiagnosticKind::ArityMismatch,
                    span: SpanModel { start: t[j].1.start, end: t[e].1.end },
                    message: arity_msg(),
                    contexts: ctx3(t, j, f0, s0, e),
                },
                resync(t, e + 1),
            )
        } else {
            ValuesStep::Three(
                (t[j + 1].0->Number_0, t[j + 2].0->Number_0, t[j + 3].0->Number_0),
                e + 1,
            )
        }
    }
}

/// What parsing a format clause at `j` yields.
pub enum FormatStep {
    /// The parsed optional format and the position after it.
    Parsed(Option<FormatModel>, int),
    /// A diagnostic and the resynchronization position.
    Bad(DiagModel, int),
}

/// Parse an optional format clause at `j`: an optional `.` plus transform
/// name, then an optional value list. The four legal combinations map to
/// absent, `Name`, `Values` and `Full`.
pub open spec fn format_result(t: Seq<(TokenModel, SpanModel)>, j: int, s0: int) -> FormatStep {
    if 0 <= j < t.len() && t[j].0 is Dot {
        if !(j + 1 < t.len() && t[j + 1].0 is Identifier) {
            FormatStep::Bad(
                fail_diag(t, j + 1, "identifier"@, ctx2(t, j, s0, j + 1)),
                resync(t, j + 1),
            )
        } else {
            let fname = t[j + 1].0->Identifier_0;
            match values_result(t, j + 2, j, s0) {
                ValuesStep::Absent => FormatStep::Parsed(Some(FormatModel::Name(fname)), j + 2),
                ValuesStep::Three(v, e) => FormatStep::Parsed(Some(FormatModel::Full(fname, v)), e),
                ValuesStep::Bad(d, r) => FormatStep::Bad(d, r),
            }
        }
    } else {
        match values_result(t, j, j, s0) {
            ValuesStep::Absent => FormatStep::Parsed(None, j),
            ValuesStep::Three(v, e) => FormatStep::Parsed(Some(FormatModel::Values(v)), e),
            ValuesStep::Bad(d, r) => FormatStep::Bad(d, r),
        }
    }
}

/// What parsing one statement yields.
pub enum StmtStep {
    /// A spanned record and the position after the `;`.
    Record((TargetModel, SpanModel), int),
    /// A diagnostic and the resynchronization position.
    Failed(DiagModel, int),
}

/// Parse one statement at `i`, which must hold its start token (the keyword
/// or the name). The record's span runs from the statement's first token
/// through its `;`.
pub open spec fn stmt_result(t: Seq<(TokenModel, SpanModel)>, i: int) -> StmtStep {
    let j0 = if t[i].0 is Define {
        i + 1
    } else {
        i
    };
    if !(j0 < t.len() && t[j0].0 is Identifier) {
        StmtStep::Failed(fail_diag(t, j0, "identifier"@, ctx1(t, i, j0)), resync(t, j0))
    } else {
        let name = t[j0].0->Identifier_0;
        if !(j0 + 1 < t.len() && t[j0 + 1].0 is Asperand) {
            StmtStep::Failed(
                fail_diag(t, j0 + 1, "'@'"@, ctx1(t, i, j0 + 1)),
                resync(t, j0 + 1),
            )
        } else if !(j0 + 2 < t.len() && t[j0 + 2].0 is LBracket) {
            StmtStep::Failed(
                fail_diag(t, j0 + 2, "'{'"@, ctx1(t, i, j0 + 2)),
                resync(t, j0 + 2),
            )
        } else if !(j0 + 3 < t.len() && t[j0 + 3].0 is Identifier) {
            StmtStep::Failed(
                fail_diag(t, j0 + 3, "identifier"@, ctx1(t, i, j0 + 3)),
                resync(t, j0 + 3),
            )
        } else {
            let key = t[j0 + 3].0->Identifier_0;
            match format_result(t, j0 + 4, i) {
                FormatStep::Bad(d, r) => StmtStep::Failed(d, r),
                FormatStep::Parsed(fm, j5) => {
                    if !(j5 < t.len() && t[j5].0 is RBracket) {
                        StmtStep::Failed(
                            fail_diag(t, j5, "'}'"@, ctx1(t, i, j5)),
                            resync(t, j5),
                        )
                    } else if !(j5 + 1 < t.len() && t[j5 + 1].0 is Semi) {
                        StmtStep::Failed(
                            fail_diag(t, j5 + 1, "';'"@, ctx1(t, i, j5 + 1)),
                            resync(t, j5 + 1),
                        )
                    } else {
                        StmtStep::Record(
                            (
                                TargetModel { name, key, format: fm },
                                SpanModel { start: t[i].1.start, end: t[j5 + 1].1.end },
                            ),
                            j5 + 2,
                        )
                    }
                },
            }
        }
    }
}

/// The mathematical parsing function from token position `i` on: the spanned
/// records and the grammar diagnostics, in source order. A token that cannot
/// start a statement is reported and skipped; a malformed statement is
/// reported and resynchronized past.
pub open spec fn spec_parse_at(t: Seq<(TokenModel, SpanModel)>, i: int) -> (
    Seq<(TargetModel, SpanModel)>,
    Seq<DiagModel>,
)
    decreases t.len() - i,
{
    if i < 0 || i >= t.len() {
        (seq![], seq![])
    } else if t[i].0 is Define || t[i].0 is Identifier {
        match stmt_result(t, i) {
            StmtStep::Record(rec, j) => {
                let next = if j <= i {
                    i + 1
                } else if j > t.len() {
                    t.len() as int
                } else {
                    j
                };
                let rest = spec_parse_at(t, next);
                (seq![rec] + rest.0, rest.1)
            },
            StmtStep::Failed(d, j) => {
                let next = if j <= i {
                    i + 1
                } else if j > t.len() {
                    t.len() as int
                } else {
                    j
                };
                let rest = spec_parse_at(t, next);
                (rest.0, seq![d] + rest.1)
            },
        }
    } else {
        let d = DiagModel {
            kind: DiagnosticKind::Expected,
            span: t[i].1,
            message: expected_msg("statement"@, tok_desc(t[i].0)),
            contexts: seq![],
        };
        let rest = spec_parse_at(t, i + 1);
        (rest.0, seq![d] + rest.1)
    }
}

/// The mathematical parsing function over a whole token stream.
pub open spec fn spec_parse(t: Seq<(TokenModel, SpanModel)>) -> (
    Seq<(TargetModel, SpanModel)>,
    Seq<DiagModel>,
) {
    spec_parse_at(t, 0)
}

pub proof fn lemma_resync_bounds(t: Seq<(TokenModel, SpanModel)>, j: int)
    requires
        0 <= j <= t.len(),
    ensures
        j <= resync(t, j) <= t.len(),
    decreases t.len() - j,
{
    if j < t.len() && !(t[j].0 is Define) && !(t[j].0 is Semi) {
        lemma_resync_bounds(t, j + 1);
    }
}

pub proof fn lemma_nums_end_bounds(t: Seq<(TokenModel, SpanModel)>, j: int)
    requires
        0 <= j <= t.len(),
    ensures
        j <= nums_end(t, j) <= t.len(),
        forall|k: int| j <= k < nums_end(t, j) ==> t[k].0 is Number,
        nums_end(t, j) < t.len() ==> !(t[nums_end(t, j)].0 is Number),
    decreases t.len() - j,
{
    if j < t.len() && t[j].0 is Number {
        lemma_nums_end_bounds(t, j + 1);
    }
}

pub proof fn lemma_nums_end_is(t: Seq<(TokenModel, SpanModel)>, j: int, e: int)
    requires
        0 <= j <= e <= t.len(),
        forall|k: int| j <= k < e ==> t[k].0 is Number,
        e < t.len() ==> !(t[e].0 is Number),
    ensures
        nums_end(t, j) == e,
    decreases e - j,
{
    if j < e {
        lemma_nums_end_is(t, j + 1, e);
    }
}

/// The model of an optional format.
pub open spec fn opt_format_model<'a>(f: Option<Format<'a>>) -> Option<FormatModel> {
    match f {
        Some(x) => Some(x@),
        None => None,
    }
}

fn tok_is_define(tok: &Token) -> (r: bool)
    ensures
        r == (tok@ is Define),
{
    match *tok {
        Token::Define => true,
        _ => false,
    }
}

fn tok_is_identifier(tok: &Token) -> (r: bool)
    ensures
        r == (tok@ is Identifier),
{
    match *tok {
        Token::Identifier(_) => true,
        _ => false,
    }
}

fn tok_is_dot(tok: &Token) -> (r: bool)
    ensures
        r == (tok@ is Dot),
{
    match *tok {
        Token::Dot => true,
        _ => false,
    }
}

fn tok_is_asperand(tok: &Token) -> (r: bool)
    ensures
        r == (tok@ is Asperand),
{
    match *tok {
        Token::Asperand => true,
        _ => false,
    }
}

fn tok_is_lbracket(tok: &Token) -> (r: bool)
    ensures
        r == (tok@ is LBracket),
{
    match *tok {
        Token::LBracket => true,
        _ => false,
    }
}

fn tok_is_rbracket(tok: &Token) -> (r: bool)
    ensures
        r == (tok@ is RBracket),
{
    match *tok {
        Token::RBracket => true,
        _ => false,
    }
}

fn tok_is_lparen(tok: &Token) -> (r: bool)
    ensures
        r == (tok@ is LParen),
{
    match *tok {
        Token::LParen => true,
        _ => false,
    }
}

fn tok_is_rparen(tok: &Token) -> (r: bool)
    ensures
        r == (tok@ is RParen),
{
    match *tok {
        Token::RParen => true,
        _ => false,
    }
}

fn tok_is_semi(tok: &Token) -> (r: bool)
    ensures
        r == (tok@ is Semi),
{
    match *tok {
        Token::Semi => true,
        _ => false,
    }
}

fn tok_is_number(tok: &Token) -> (r: bool)
    ensures
        r == (tok@ is Number),
{
    match *tok {
        Token::Number(_) => true,
        _ => false,
    }
}

fn starts_stmt(tok: &Token) -> (r: bool)
    ensures
        r == (tok@ is Define || tok@ is Identifier),
{
    match *tok {
        Token::Define => true,
        Token::Identifier(_) => true,
        _ => false,
    }
}

fn token_desc(tok: &Token) -> (r: &'static str)
    ensures
        r@ == tok_desc(tok@),
{
    match *tok {
        Token::Define => "'@define-color'",
        Token::Identifier(_) => "identifier",
        Token::Number(_) => "number",
        Token::Dot => "'.'",
        Token::Asperand => "'@'",
        Token::LBracket => "'{'",
        Token::RBracket => "'}'",
        Token::LParen => "'('",
        Token::RParen => "')'",
        Token::Semi => "';'",
    }
}

fn ident_text<'a>(toks: &Vec<(Token<'a>, Span)>, k: usize) -> (r: &'a str)
    requires
        k < toks@.len(),
        toks_model(toks@)[k as int].0 is Identifier,
    ensures
        r@ == toks_model(toks@)[k as int].0->Identifier_0,
{
    match toks[k].0 {
        Token::Identifier(s) => s,
        _ => vstd::pervasive::unreached(),
    }
}

fn num_text<'a>(toks: &Vec<(Token<'a>, Span)>, k: usize) -> (r: &'a str)
    requires
        k < toks@.len(),
        toks_model(toks@)[k as int].0 is Number,
    ensures
        r@ == toks_model(toks@)[k as int].0->Number_0,
{
    match toks[k].0 {
        Token::Number(s) => s,
        _ => vstd::pervasive::unreached(),
    }
}

fn cover_span<'a>(toks: &Vec<(Token<'a>, Span)>, a: usize, j: usize) -> (sp: Span)
    requires
        a < toks@.len(),
    ensures
        sp@ == cover(toks_model(toks@), a as int, j as int),
{
    let n = toks.len();
    let e = if j < n {
        toks[j].1.end
    } else {
        toks[n - 1].1.end
    };
    Span { start: toks[a].1.start, end: e }
}

fn make_fail<'a>(
    toks: &Vec<(Token<'a>, Span)>,
    j: usize,
    what: &'static str,
    ctx: Vec<(&'static str, Span)>,
) -> (d: Diagnostic)
    requires
        j <= toks@.len(),
    ensures
        d@ == fail_diag(
            toks_model(toks@),
            j as int,
            what@,
            ctx@.map_values(|c: (&'static str, Span)| (c.0@, c.1@)),
        ),
{
    let n = toks.len();
    if j < n {
        if tok_is_define(&toks[j].0) {
            Diagnostic {
                kind: DiagnosticKind::UnterminatedStatement,
                span: toks[j].1,
                message: make_unterminated_msg(),
                contexts: ctx,
            }
        } else {
            Diagnostic {
                kind: DiagnosticKind::Expected,
                span: toks[j].1,
                message: make_expected_msg(what, token_desc(&toks[j].0)),
                contexts: ctx,
            }
        }
    } else {
        let ep = if n > 0 {
            toks[n - 1].1.end
        } else {
            0
        };
        Diagnostic {
            kind: DiagnosticKind::UnterminatedStatement,
            span: Span { start: ep, end: ep },
            message: make_unterminated_msg(),
            contexts: ctx,
        }
    }
}

fn is_sync_point(tok: &Token) -> (r: bool)
    ensures
        r == (tok@ is Define || tok@ is Semi),
{
    match *tok {
        Token::Define => true,
        Token::Semi => true,
        _ => false,
    }
}

fn resync_from<'a>(toks: &Vec<(Token<'a>, Span)>, j: usize) -> (r: usize)
    requires
        j <= toks@.len(),
    ensures
        r as int == resync(toks_model(toks@), j as int),
        j <= r <= toks@.len(),
{
    let ghost t = toks_model(toks@);
    let n = toks.len();
    let mut k: usize = j;
    while k < n && !is_sync_point(&toks[k].0)
        invariant
            t == toks_model(toks@),
            n == toks@.len(),
            j <= k <= n,
            resync(t, j as int) == resync(t, k as int),
        decreases n - k,
    {
        k = k + 1;
    }
    if k < n {
        if tok_is_semi(&toks[k].0) {
            k + 1
        } else {
            k
        }
    } else {
        k
    }
}

fn nums_to<'a>(toks: &Vec<(Token<'a>, Span)>, j: usize) -> (r: usize)
    requires
        j <= toks@.len(),
    ensures
        r as int == nums_end(toks_model(toks@), j as int),
        j <= r <= toks@.len(),
{
    let ghost t = toks_model(toks@);
    let n = toks.len();
    let mut k: usize = j;
    while k < n && tok_is_number(&toks[k].0)
        invariant
            t == toks_model(toks@),
            n == toks@.len(),
            j <= k <= n,
            forall|m: int| j <= m < k ==> t[m].0 is Number,
        decreases n - k,
    {
        k = k + 1;
    }
    proof {
        lemma_nums_end_is(t, j as int, k as int);
    }
    k
}

enum ValuesOutcome<'a> {
    Absent,
    Three((&'a str, &'a str, &'a str), usize),
    Bad(Diagnostic, usize),
}

fn parse_values<'a>(toks: &Vec<(Token<'a>, Span)>, j: usize, f0: usize, s0: usize) -> (r:
    ValuesOutcome<'a>)
    requires
        f0 <= j <= toks@.len(),
        s0 < toks@.len(),
    ensures
        ({
            let t = toks_model(toks@);
            match r {
                ValuesOutcome::Absent => values_result(t, j as int, f0 as int, s0 as int)
                    == ValuesStep::Absent,
                ValuesOutcome::Three(v, e) => values_result(t, j as int, f0 as int, s0 as int)
                    == ValuesStep::Three((v.0@, v.1@, v.2@), e as int) && j < e <= toks@.len(),
                ValuesOutcome::Bad(d, rr) => values_result(t, j as int, f0 as int, s0 as int)
                    == ValuesStep::Bad(d@, rr as int) && j < rr <= toks@.len(),
            }
        }),
{
    let ghost t = toks_model(toks@);
    let n = toks.len();
    if !(j < n && tok_is_lparen(&toks[j].0)) {
        return ValuesOutcome::Absent;
    }
    let e = nums_to(toks, j + 1);
    if !(e < n && tok_is_rparen(&toks[e].0)) {
        let mut ctx: Vec<(&'static str, Span)> = Vec::new();
        ctx.push(("value list", cover_span(toks, j, e)));
        ctx.push(("format", cover_span(toks, f0, e)));
        ctx.push(("statement", cover_span(toks, s0, e)));
        proof {
            assert(ctx@.map_values(|c: (&'static str, Span)| (c.0@, c.1@)) =~= ctx3(
                t,
                j as int,
                f0 as int,
                s0 as int,
                e as int,
            ));
        }
        let d = make_fail(toks, e, "')'", ctx);
        let rr = resync_from(toks, e);
        return ValuesOutcome::Bad(d, rr);
    }
    if e - (j + 1) != 3 {
        let mut ctx: Vec<(&'static str, Span)> = Vec::new();
        ctx.push(("value list", cover_span(toks, j, e)));
        ctx.push(("format", cover_span(toks, f0, e)));
        ctx.push(("statement", cover_span(toks, s0, e)));
        proof {
            assert(ctx@.map_values(|c: (&'static str, Span)| (c.0@, c.1@)) =~= ctx3(
                t,
                j as int,
                f0 as int,
                s0 as int,
                e as int,
            ));
        }
        let d = Diagnostic {
            kind: DiagnosticKind::ArityMismatch,
            span: Span { start: toks[j].1.start, end: toks[e].1.end },
            message: make_arity_msg(),
            contexts: ctx,
        };
        let rr = resync_from(toks, e + 1);
        return ValuesOutcome::Bad(d, rr);
    }
    proof {
        lemma_nums_end_bounds(t, j as int + 1);
    }
    let v0 = num_text(toks, j + 1);
    let v1 = num_text(toks, j + 2);
    let v2 = num_text(toks, j + 3);
    ValuesOutcome::Three((v0, v1, v2), e + 1)
}

enum FormatOutcome<'a> {
    Parsed(Option<Format<'a>>, usize),
    Bad(Diagnostic, usize),
}

fn parse_format<'a>(toks: &Vec<(Token<'a>, Span)>, j: usize, s0: usize) -> (r: FormatOutcome<'a>)
    requires
        j <= toks@.len(),
        s0 < toks@.len(),
    ensures
        ({
            let t = toks_model(toks@);
            match r {
                FormatOutcome::Parsed(f, e) => format_result(t, j as int, s0 as int)
                    == FormatStep::Parsed(opt_format_model(f), e as int) && j <= e <= toks@.len(),
                FormatOutcome::Bad(d, rr) => format_result(t, j as int, s0 as int)
                    == FormatStep::Bad(d@, rr as int) && j < rr <= toks@.len(),
            }
        }),
{
    let ghost t = toks_model(toks@);
    let n = toks.len();
    if j < n && tok_is_dot(&toks[j].0) {
        if !(j + 1 < n && tok_is_identifier(&toks[j + 1].0)) {
            let mut ctx: Vec<(&'static str, Span)> = Vec::new();
            ctx.push(("format", cover_span(toks, j, j + 1)));
            ctx.push(("statement", cover_span(toks, s0, j + 1)));
            proof {
                assert(ctx@.map_values(|c: (&'static str, Span)| (c.0@, c.1@)) =~= ctx2(
                    t,
                    j as int,
                    s0 as int,
                    j as int + 1,
                ));
            }
            let d = make_fail(toks, j + 1, "identifier", ctx);
            let rr = resync_from(toks, j + 1);
            return FormatOutcome::Bad(d, rr);
        }
        let fname = ident_text(toks, j + 1);
        match parse_values(toks, j + 2, j, s0) {
            ValuesOutcome::Absent => FormatOutcome::Parsed(Some(Format::Name(fname)), j + 2),
            ValuesOutcome::Three(v, e) => FormatOutcome::Parsed(
                Some(Format::Full(fname, v)),
                e,
            ),
            ValuesOutcome::Bad(d, rr) => FormatOutcome::Bad(d, rr),
        }
    } else {
        match parse_values(toks, j, j, s0) {
            ValuesOutcome::Absent => FormatOutcome::Parsed(None, j),
            ValuesOutcome::Three(v, e) => FormatOutcome::Parsed(Some(Format::Values(v)), e),
            ValuesOutcome::Bad(d, rr) => FormatOutcome::Bad(d, rr),
        }
    }
}

enum StmtOutcome<'a> {
    Parsed(Target<'a>, Span, usize),
    Failed(Diagnostic, usize),
}

#[verifier::rlimit(30)]
fn parse_stmt<'a>(toks: &Vec<(Token<'a>, Span)>, i: usize) -> (r: StmtOutcome<'a>)
    requires
        i < toks@.len(),
        toks_model(toks@)[i as int].0 is Define || toks_model(toks@)[i as int].0 is Identifier,
    ensures
        ({
            let t = toks_model(toks@);
            match r {
                StmtOutcome::Parsed(tgt, sp, j) => stmt_result(t, i as int) == StmtStep::Record(
                    (tgt@, sp@),
                    j as int,
                ) && i < j <= toks@.len(),
                StmtOutcome::Failed(d, j) => stmt_result(t, i as int) == StmtStep::Failed(
                    d@,
                    j as int,
                ) && i < j <= toks@.len(),
            }
        }),
{
    let ghost t = toks_model(toks@);
    let n = toks.len();
    let j0 = if tok_is_define(&toks[i].0) {
        i + 1
    } else {
        i
    };
    if !(j0 < n && tok_is_identifier(&toks[j0].0)) {
        let mut ctx: Vec<(&'static str, Span)> = Vec::new();
        ctx.push(("statement", cover_span(toks, i, j0)));
        proof {
            assert(ctx@.map_values(|c: (&'static str, Span)| (c.0@, c.1@)) =~= ctx1(
                t,
                i as int,
                j0 as int,
            ));
        }
        let d = make_fail(toks, j0, "identifier", ctx);
        let rr = resync_from(toks, j0);
        return StmtOutcome::Failed(d, rr);
    }
    let name = ident_text(toks, j0);
    if !(j0 + 1 < n && tok_is_asperand(&toks[j0 + 1].0)) {
        let mut ctx: Vec<(&'static str, Span)> = Vec::new();
        ctx.push(("statement", cover_span(toks, i, j0 + 1)));
        proof {
            assert(ctx@.map_values(|c: (&'static str, Span)| (c.0@, c.1@)) =~= ctx1(
                t,
                i as int,
                j0 as int + 1,
            ));
        }
        let d = make_fail(toks, j0 + 1, "'@'", ctx);
        let rr = resync_from(toks, j0 + 1);
        return StmtOutcome::Failed(d, rr);
    }
    if !(j0 + 2 < n && tok_is_lbracket(&toks[j0 + 2].0)) {
        let mut ctx: Vec<(&'static str, Span)> = Vec::new();
        ctx.push(("statement", cover_span(toks, i, j0 + 2)));
        proof {
            assert(ctx@.map_values(|c: (&'static str, Span)| (c.0@, c.1@)) =~= ctx1(
                t,
                i as int,
                j0 as int + 2,
            ));
        }
        let d = make_fail(toks, j0 + 2, "'{'", ctx);
        let rr = resync_from(toks, j0 + 2);
        return StmtOutcome::Failed(d, rr);
    }
    if !(j0 + 3 < n && tok_is_identifier(&toks[j0 + 3].0)) {
        let mut ctx: Vec<(&'static str, Span)> = Vec::new();
        ctx.push(("statement", cover_span(toks, i, j0 + 3)));
        proof {
            assert(ctx@.map_values(|c: (&'static str, Span)| (c.0@, c.1@)) =~= ctx1(
                t,
                i as int,
                j0 as int + 3,
            ));
        }
        let d = make_fail(toks, j0 + 3, "identifier", ctx);
        let rr = resync_from(toks, j0 + 3);
        return StmtOutcome::Failed(d, rr);
    }
    let key = ident_text(toks, j0 + 3);
    match parse_format(toks, j0 + 4, i) {
        FormatOutcome::Bad(d, rr) => StmtOutcome::Failed(d, rr),
        FormatOutcome::Parsed(fm, j5) => {
            if !(j5 < n && tok_is_rbracket(&toks[j5].0)) {
                let mut ctx: Vec<(&'static str, Span)> = Vec::new();
                ctx.push(("statement", cover_span(toks, i, j5)));
                proof {
                    assert(ctx@.map_values(|c: (&'static str, Span)| (c.0@, c.1@)) =~= ctx1(
                        t,
                        i as int,
                        j5 as int,
                    ));
                }
                let d = make_fail(toks, j5, "'}'", ctx);
                let rr = resync_from(toks, j5);
                StmtOutcome::Failed(d, rr)
            } else if !(j5 + 1 < n && tok_is_semi(&toks[j5 + 1].0)) {
                let mut ctx: Vec<(&'static str, Span)> = Vec::new();
                ctx.push(("statement", cover_span(toks, i, j5 + 1)));
                proof {
                    assert(ctx@.map_values(|c: (&'static str, Span)| (c.0@, c.1@)) =~= ctx1(
                        t,
                        i as int,
                        j5 as int + 1,
                    ));
                }
                let d = make_fail(toks, j5 + 1, "';'", ctx);
                let rr = resync_from(toks, j5 + 1);
                StmtOutcome::Failed(d, rr)
            } else {
                let sp = Span { start: toks[i].1.start, end: toks[j5 + 1].1.end };
                StmtOutcome::Parsed(Target { name, key, format: fm }, sp, j5 + 2)
            }
        },
    }
}

/// Parse a whole token stream into spanned records plus grammar
/// diagnostics. The result is exactly the mathematical parsing function of
/// the stream.
pub fn parse_tokens<'a>(toks: &Vec<(Token<'a>, Span)>) -> (r: (
    Vec<(Target<'a>, Span)>,
    Vec<Diagnostic>,
))
    ensures
        recs_model(r.0@) == spec_parse(toks_model(toks@)).0,
        diags_model(r.1@) == spec_parse(toks_model(toks@)).1,
{
    let ghost t = toks_model(toks@);
    let n = toks.len();
    let mut recs: Vec<(Target<'a>, Span)> = Vec::new();
    let mut errs: Vec<Diagnostic> = Vec::new();
    let mut i: usize = 0;
    proof {
        assert(recs_model(recs@) =~= Seq::<(TargetModel, SpanModel)>::empty());
        assert(diags_model(errs@) =~= Seq::<DiagModel>::empty());
    }
    while i < n
        invariant
            t == toks_model(toks@),
            n == toks@.len(),
            i <= n,
            spec_parse(t).0 == recs_model(recs@) + spec_parse_at(t, i as int).0,
            spec_parse(t).1 == diags_model(errs@) + spec_parse_at(t, i as int).1,
        decreases n - i,
    {
        let ghost i0 = i as int;
        let ghost rm0 = recs_model(recs@);
        let ghost em0 = diags_model(errs@);
        if starts_stmt(&toks[i].0) {
            match parse_stmt(toks, i) {
                StmtOutcome::Parsed(tgt, sp, j) => {
                    recs.push((tgt, sp));
                    i = j;
                    proof {
                        let rest = spec_parse_at(t, i as int);
                        let x = (tgt@, sp@);
                        assert(recs_model(recs@) =~= rm0.push(x));
                        assert(rm0 + (seq![x] + rest.0) =~= rm0.push(x) + rest.0);
                    }
                },
                StmtOutcome::Failed(d, j) => {
                    errs.push(d);
                    i = j;
                    proof {
                        let rest = spec_parse_at(t, i as int);
                        assert(diags_model(errs@) =~= em0.push(d@));
                        assert(em0 + (seq![d@] + rest.1) =~= em0.push(d@) + rest.1);
                    }
                },
            }
        } else {
            let d = Diagnostic {
                kind: DiagnosticKind::Expected,
                span: toks[i].1,
                message: make_expected_msg("statement", token_desc(&toks[i].0)),
                contexts: Vec::new(),
            };
            errs.push(d);
            i = i + 1;
            proof {
                let rest = spec_parse_at(t, i as int);
                let dm = DiagModel {
                    kind: DiagnosticKind::Expected,
                    span: t[i0].1,
                    message: expected_msg("statement"@, tok_desc(t[i0].0)),
                    contexts: seq![],
                };
                assert(errs@.last()@.contexts =~= Seq::<(Seq<char>, SpanModel)>::empty());
                assert(errs@.last()@ =~= dm);
                assert(diags_model(errs@) =~= em0.push(dm));
                assert(em0 + (seq![dm] + rest.1) =~= em0.push(dm) + rest.1);
            }
        }
    }
    proof {
        assert(spec_parse_at(t, n as int).0 =~= Seq::<(TargetModel, SpanModel)>::empty());
        assert(spec_parse_at(t, n as int).1 =~= Seq::<DiagModel>::empty());
        assert(recs_model(recs@) =~= spec_parse(t).0);
        assert(diags_model(errs@) =~= spec_parse(t).1);
    }
    (recs, errs)
}

/// Parse a whole text: lex it, parse the token stream, and hand back the
/// records (always present: recovery never abandons the whole input) plus
/// the two diagnostic collections. The result is exactly the mathematical
/// pipeline applied to the text, so parsing the same input twice produces
/// structurally identical record and diagnostic lists. The length bound is a
/// machine limit: every byte offset must fit in `usize`.
pub fn parse<'a>(input: &'a str) -> (r: (Option<Vec<(Target<'a>, Span)>>, Diagnostics))
    requires
        4 * input@.len() <= usize::MAX,
    ensures
        ({
            let lexed = spec_lex(input@);
            let parsed = spec_parse(lexed.tokens);
            &&& r.0 matches Some(recs) && recs_model(recs@) == parsed.0
            &&& diags_model(r.1.lex_errors@) == lexed.errors
            &&& diags_model(r.1.parse_errors@) == parsed.1
        }),
{
    let (toks, lex_errors) = lex(input);
    let (recs, parse_errors) = parse_tokens(&toks);
    (Some(recs), Diagnostics { lex_errors, parse_errors })
}

/// Law: a statement whose envelope holds a bare key and no format clause
/// parses to exactly one record with the matching name and key, no format,
/// and no diagnostics, whatever the identifier texts and spans are.
pub proof fn lemma_shape_bare(t: Seq<(TokenModel, SpanModel)>, name: Seq<char>, key: Seq<char>)
    requires
        t.len() == 7,
        t[0].0 == TokenModel::Define,
        t[1].0 == TokenModel::Identifier(name),
        t[2].0 == TokenModel::Asperand,
        t[3].0 == TokenModel::LBracket,
        t[4].0 == TokenModel::Identifier(key),
        t[5].0 == TokenModel::RBracket,
        t[6].0 == TokenModel::Semi,
    ensures
        spec_parse(t).0 =~= seq![
            (TargetModel { name, key, format: None }, SpanModel {
                start: t[0].1.start,
                end: t[6].1.end,
            }),
        ],
        spec_parse(t).1 =~= Seq::<DiagModel>::empty(),
{
    assert(stmt_result(t, 0) == StmtStep::Record(
        (TargetModel { name, key, format: None }, SpanModel {
            start: t[0].1.start,
            end: t[6].1.end,
        }),
        7,
    ));
    assert(spec_parse_at(t, 7).0 =~= Seq::<(TargetModel, SpanModel)>::empty());
    assert(spec_parse_at(t, 7).1 =~= Seq::<DiagModel>::empty());
}

/// Law: a statement whose envelope holds a key and a named transform with
/// no value list parses to exactly one record with format `Name`, and no
/// diagnostics.
pub proof fn lemma_shape_name(
    t: Seq<(TokenModel, SpanModel)>,
    name: Seq<char>,
    key: Seq<char>,
    f: Seq<char>,
)
    requires
        t.len() == 9,
        t[0].0 == TokenModel::Define,
        t[1].0 == TokenModel::Identifier(name),
        t[2].0 == TokenModel::Asperand,
        t[3].0 == TokenModel::LBracket,
        t[4].0 == TokenModel::Identifier(key),
        t[5].0 == TokenModel::Dot,
        t[6].0 == TokenModel::Identifier(f),
        t[7].0 == TokenModel::RBracket,
        t[8].0 == TokenModel::Semi,
    ensures
        spec_parse(t).0 =~= seq![
            (TargetModel { name, key, format: Some(FormatModel::Name(f)) }, SpanModel {
                start: t[0].1.start,
                end: t[8].1.end,
            }),
        ],
        spec_parse(t).1 =~= Seq::<DiagModel>::empty(),
{
    assert(stmt_result(t, 0) == StmtStep::Record(
        (TargetModel { name, key, format: Some(FormatModel::Name(f)) }, SpanModel {
            start: t[0].1.start,
            end: t[8].1.end,
        }),
        9,
    ));
    assert(spec_parse_at(t, 9).0 =~= Seq::<(TargetModel, SpanModel)>::empty());
    assert(spec_parse_at(t, 9).1 =~= Seq::<DiagModel>::empty());
}

/// Law: a statement whose envelope holds a key and a parenthesized list of
/// exactly three numeric entries parses to exactly one record with format
/// `Values`, and no diagnostics, whatever the texts and spans are.
pub proof fn lemma_shape_values(
    t: Seq<(TokenModel, SpanModel)>,
    name: Seq<char>,
    key: Seq<char>,
    a: Seq<char>,
    b: Seq<char>,
    c: Seq<char>,
)
    requires
        t.len() == 12,
        t[0].0 == TokenModel::Define,
        t[1].0 == TokenModel::Identifier(name),
        t[2].0 == TokenModel::Asperand,
        t[3].0 == TokenModel::LBracket,
        t[4].0 == TokenModel::Identifier(key),
        t[5].0 == TokenModel::LParen,
        t[6].0 == TokenModel::Number(a),
        t[7].0 == TokenModel::Number(b),
        t[8].0 == TokenModel::Number(c),
        t[9].0 == TokenModel::RParen,
        t[10].0 == TokenModel::RBracket,
        t[11].0 == TokenModel::Semi,
    ensures
        spec_parse(t).0 =~= seq![
            (TargetModel { name, key, format: Some(FormatModel::Values((a, b, c))) }, SpanModel {
                start: t[0].1.start,
                end: t[11].1.end,
            }),
        ],
        spec_parse(t).1 =~= Seq::<DiagModel>::empty(),
{
    lemma_nums_end_is(t, 6, 9);
    assert(values_result(t, 5, 5, 0) == ValuesStep::Three((a, b, c), 10));
    assert(stmt_result(t, 0) == StmtStep::Record(
        (TargetModel { name, key, format: Some(FormatModel::Values((a, b, c))) }, SpanModel {
            start: t[0].1.start,
            end: t[11].1.end,
        }),
        12,
    ));
    assert(spec_parse_at(t, 12).0 =~= Seq::<(TargetModel, SpanModel)>::empty());
    assert(spec_parse_at(t, 12).1 =~= Seq::<DiagModel>::empty());
}

/// Law: a statement whose envelope holds a key, a named transform and a
/// parenthesized list of exactly three numeric entries parses to exactly
/// one record with format `Full`, and no diagnostics, whatever the texts
/// and spans are.
pub proof fn lemma_shape_full(
    t: Seq<(TokenModel, SpanModel)>,
    name: Seq<char>,
    key: Seq<char>,
    f: Seq<char>,
    a: Seq<char>,
    b: Seq<char>,
    c: Seq<char>,
)
    requires
        t.len() == 14,
        t[0].0 == TokenModel::Define,
        t[1].0 == TokenModel::Identifier(name),
        t[2].0 == TokenModel::Asperand,
        t[3].0 == TokenModel::LBracket,
        t[4].0 == TokenModel::Identifier(key),
        t[5].0 == TokenModel::Dot,
        t[6].0 == TokenModel::Identifier(f),
        t[7].0 == TokenModel::LParen,
        t[8].0 == TokenModel::Number(a),
        t[9].0 == TokenModel::Number(b),
        t[10].0 == TokenModel::Number(c),
        t[11].0 == TokenModel::RParen,
        t[12].0 == TokenModel::RBracket,
        t[13].0 == TokenModel::Semi,
    ensures
        spec_parse(t).0 =~= seq![
            (TargetModel { name, key, format: Some(FormatModel::Full(f, (a, b, c))) }, SpanModel {
                start: t[0].1.start,
                end: t[13].1.end,
            }),
        ],
        spec_parse(t).1 =~= Seq::<DiagModel>::empty(),
{
    lemma_nums_end_is(t, 8, 11);
    assert(values_result(t, 7, 5, 0) == ValuesStep::Three((a, b, c), 12));
    assert(stmt_result(t, 0) == StmtStep::Record(
        (TargetModel { name, key, format: Some(FormatModel::Full(f, (a, b, c))) }, SpanModel {
            start: t[0].1.start,
            end: t[13].1.end,
        }),
        14,
    ));
    assert(spec_parse_at(t, 14).0 =~= Seq::<(TargetModel, SpanModel)>::empty());
    assert(spec_parse_at(t, 14).1 =~= Seq::<DiagModel>::empty());
}

/// Law: a format value list with two numeric entries yields exactly one
/// `ArityMismatch` diagnostic and no record at all for that statement,
/// whatever the texts and spans are.
pub proof fn lemma_arity_two(
    t: Seq<(TokenModel, SpanModel)>,
    name: Seq<char>,
    key: Seq<char>,
    a: Seq<char>,
    b: Seq<char>,
)
    requires
        t.len() == 11,
        t[0].0 == TokenModel::Define,
        t[1].0 == TokenModel::Identifier(name),
        t[2].0 == TokenModel::Asperand,
        t[3].0 == TokenModel::LBracket,
        t[4].0 == TokenModel::Identifier(key),
        t[5].0 == TokenModel::LParen,
        t[6].0 == TokenModel::Number(a),
        t[7].0 == TokenModel::Number(b),
        t[8].0 == TokenModel::RParen,
        t[9].0 == TokenModel::RBracket,
        t[10].0 == TokenModel::Semi,
    ensures
        spec_parse(t).0 =~= Seq::<(TargetModel, SpanModel)>::empty(),
        spec_parse(t).1.len() == 1,
        spec_parse(t).1[0].kind == DiagnosticKind::ArityMismatch,
{
    lemma_nums_end_is(t, 6, 8);
    assert(resync(t, 11) == 11);
    assert(resync(t, 10) == 11);
    assert(resync(t, 9) == 11);
    assert(values_result(t, 5, 5, 0) matches ValuesStep::Bad(d, r) && d.kind
        == DiagnosticKind::ArityMismatch && r == 11);
    assert(stmt_result(t, 0) matches StmtStep::Failed(d, r) && d.kind
        == DiagnosticKind::ArityMismatch && r == 11);
    assert(spec_parse_at(t, 11).0 =~= Seq::<(TargetModel, SpanModel)>::empty());
    assert(spec_parse_at(t, 11).1 =~= Seq::<DiagModel>::empty());
    assert(spec_parse(t).0 =~= Seq::<(TargetModel, SpanModel)>::empty());
}

/// Law: a format value list with four numeric entries yields exactly one
/// `ArityMismatch` diagnostic and no record at all for that statement,
/// whatever the texts and spans are.
pub proof fn lemma_arity_four(
    t: Seq<(TokenModel, SpanModel)>,
    name: Seq<char>,
    key: Seq<char>,
    a: Seq<char>,
    b: Seq<char>,
    c: Seq<char>,
    d: Seq<char>,
)
    requires
        t.len() == 13,
        t[0].0 == TokenModel::Define,
        t[1].0 == TokenModel::Identifier(name),
        t[2].0 == TokenModel::Asperand,
        t[3].0 == TokenModel::LBracket,
        t[4].0 == TokenModel::Identifier(key),
        t[5].0 == TokenModel::LParen,
        t[6].0 == TokenModel::Number(a),
        t[7].0 == TokenModel::Number(b),
        t[8].0 == TokenModel::Number(c),
        t[9].0 == TokenModel::Number(d),
        t[10].0 == TokenModel::RParen,
        t[11].0 == TokenModel::RBracket,
        t[12].0 == TokenModel::Semi,
    ensures
        spec_parse(t).0 =~= Seq::<(TargetModel, SpanModel)>::empty(),
        spec_parse(t).1.len() == 1,
        spec_parse(t).1[0].kind == DiagnosticKind::ArityMismatch,
{
    lemma_nums_end_is(t, 6, 10);
    assert(resync(t, 13) == 13);
    assert(resync(t, 12) == 13);
    assert(resync(t, 11) == 13);
    assert(values_result(t, 5, 5, 0) matches ValuesStep::Bad(dg, r) && dg.kind
        == DiagnosticKind::ArityMismatch && r == 13);
    assert(stmt_result(t, 0) matches StmtStep::Failed(dg, r) && dg.kind
        == DiagnosticKind::ArityMismatch && r == 13);
    assert(spec_parse_at(t, 13).0 =~= Seq::<(TargetModel, SpanModel)>::empty());
    assert(spec_parse_at(t, 13).1 =~= Seq::<DiagModel>::empty());
    assert(spec_parse(t).0 =~= Seq::<(TargetModel, SpanModel)>::empty());
}

} // verus!

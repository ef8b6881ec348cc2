//! The lexer: turns source text into an ordered stream of spanned tokens,
//! reporting each unrecognized character as a localized diagnostic and
//! resuming immediately after it, so lexing never aborts.
//!
//! The executable lexer is proved to return exactly [`spec_lex`], the
//! mathematical lexing function, so its output is a function of the input
//! text alone.

use vstd::prelude::*;

use crate::diag::{
    diags_model, invalid_token_msg, make_invalid_token_msg, DiagModel, Diagnostic, DiagnosticKind,
    Span, SpanModel,
};

verus! {

/// A minimal lexical unit. `Identifier` and `Number` keep the raw matched
/// text: numeric conversion is deferred to the consumer, so lexing can never
/// fail on numeric overflow or format.
#[derive(Clone, Copy, Debug, PartialEq)]
pub enum Token<'a> {
    /// The fixed keyword `@define-color`.
    Define,
    /// A name: a Unicode letter or `_`, then letters, digits or `_`.
    Identifier(&'a str),
    /// A numeric literal: optional `-`, digits, optional `.` plus digits.
    Number(&'a str),
    Dot,
    Asperand,
    LBracket,
    RBracket,
    LParen,
    RParen,
    Semi,
}

/// Mathematical model of a [`Token`]: the same variants over `Seq<char>`.
#[verifier::ext_equal]
pub enum TokenModel {
    Define,
    Identifier(Seq<char>),
    Number(Seq<char>),
    Dot,
    Asperand,
    LBracket,
    RBracket,
    LParen,
    RParen,
    Semi,
}

impl<'a> View for Token<'a> {
    type V = TokenModel;

    open spec fn view(&self) -> TokenModel {
        match *self {
            Token::Define => TokenModel::Define,
            Token::Identifier(s) => TokenModel::Identifier(s@),
            Token::Number(s) => TokenModel::Number(s@),
            Token::Dot => TokenModel::Dot,
            Token::Asperand => TokenModel::Asperand,
            Token::LBracket => TokenModel::LBracket,
            Token::RBracket => TokenModel::RBracket,
            Token::LParen => TokenModel::LParen,
            Token::RParen => TokenModel::RParen,
            Token::Semi => TokenModel::Semi,
        }
    }
}

/// The exact source text a token of this kind stands for.
pub open spec fn token_text(t: TokenModel) -> Seq<char> {
    match t {
        TokenModel::Define => keyword(),
        TokenModel::Identifier(s) => s,
        TokenModel::Number(s) => s,
        TokenModel::Dot => "."@,
        TokenModel::Asperand => "@"@,
        TokenModel::LBracket => "{"@,
        TokenModel::RBracket => "}"@,
        TokenModel::LParen => "("@,
        TokenModel::RParen => ")"@,
        TokenModel::Semi => ";"@,
    }
}

impl<'a> Token<'a> {
    /// The exact source text this token stands for.
    pub fn text(&self) -> (r: &'a str)
        ensures
            r@ == token_text(self@),
    {
        match *self {
            Token::Define => "@define-color",
            Token::Identifier(s) => s,
            Token::Number(s) => s,
            Token::Dot => ".",
            Token::Asperand => "@",
            Token::LBracket => "{",
            Token::RBracket => "}",
            Token::LParen => "(",
            Token::RParen => ")",
            Token::Semi => ";",
        }
    }
}

/// The fixed keyword literal, matched greedily before the identifier and
/// single-character rules.
pub open spec fn keyword() -> Seq<char> {
    "@define-color"@
}

/// The length of the keyword in characters (all of them ASCII, so also in
/// bytes).
pub const KEYWORD_LEN: usize = 13;

/// Whether a character beyond ASCII has the Unicode `Alphabetic` property.
/// Named, not written out: only `char::is_alphabetic` decides it.
pub uninterp spec fn nonascii_letter(c: char) -> bool;

/// An ASCII letter: `a`-`z` or `A`-`Z`.
pub open spec fn ascii_letter(c: char) -> bool {
    (97 <= c as u32 && c as u32 <= 122) || (65 <= c as u32 && c as u32 <= 90)
}

/// A letter as the identifier rules understand it: on ASCII exactly the
/// letters, beyond ASCII the characters with the Unicode `Alphabetic`
/// property.
pub open spec fn unicode_letter(c: char) -> bool {
    if (c as u32) < 128 {
        ascii_letter(c)
    } else {
        nonascii_letter(c)
    }
}

/// Relies on `char::is_alphabetic` from std: it returns whether the
/// character has the Unicode `Alphabetic` property, a fixed function of the
/// character alone; on ASCII these are exactly the letters `a`-`z` and
/// `A`-`Z`.
#[verifier::external_body]
pub(crate) fn is_letter(c: char) -> (r: bool)
    ensures
        r == unicode_letter(c),
        (c as u32) >= 128 ==> r == nonascii_letter(c),
{
    c.is_alphabetic()
}

/// An ASCII decimal digit.
pub open spec fn is_digit_char(c: char) -> bool {
    48 <= c as u32 && c as u32 <= 57
}

/// A character that may start an identifier.
pub open spec fn ident_start(c: char) -> bool {
    unicode_letter(c) || c == '_'
}

/// A character that may continue an identifier.
pub open spec fn ident_continue(c: char) -> bool {
    ident_start(c) || is_digit_char(c)
}

/// The whitespace skip set: the six ASCII whitespace characters. Line breaks
/// are included, an explicit policy choice.
pub open spec fn is_space_char(c: char) -> bool {
    c == ' ' || c == '\t' || c == '\n' || c == '\r' || c == '\u{b}' || c == '\u{c}'
}

/// The UTF-8 encoded length of a character, in bytes.
pub open spec fn char_len(c: char) -> nat {
    if (c as u32) < 0x80 {
        1
    } else if (c as u32) < 0x800 {
        2
    } else if (c as u32) < 0x10000 {
        3
    } else {
        4
    }
}

/// The UTF-8 encoded length of a character sequence, in bytes.
pub open spec fn byte_len(s: Seq<char>) -> nat
    decreases s.len(),
{
    if s.len() == 0 {
        0
    } else {
        char_len(s[0]) + byte_len(s.drop_first())
    }
}

/// The single-character token a character lexes to, if any.
pub open spec fn punct_token(c: char) -> Option<TokenModel> {
    if c == '@' {
        Some(TokenModel::Asperand)
    } else if c == '.' {
        Some(TokenModel::Dot)
    } else if c == '{' {
        Some(TokenModel::LBracket)
    } else if c == '}' {
        Some(TokenModel::RBracket)
    } else if c == '(' {
        Some(TokenModel::LParen)
    } else if c == ')' {
        Some(TokenModel::RParen)
    } else if c == ';' {
        Some(TokenModel::Semi)
    } else {
        None
    }
}

/// Whether the keyword occurs at character position `i`.
pub open spec fn keyword_at(s: Seq<char>, i: int) -> bool {
    &&& i + KEYWORD_LEN as int <= s.len()
    &&& s.subrange(i, i + KEYWORD_LEN as int) == keyword()
}

/// The first position at or after `i` that does not hold a digit.
pub open spec fn digits_end(s: Seq<char>, i: int) -> int
    decreases s.len() - i,
{
    if 0 <= i < s.len() && is_digit_char(s[i]) {
        digits_end(s, i + 1)
    } else {
        i
    }
}

/// The first position at or after `i` that does not hold an identifier
/// character.
pub open spec fn ident_end(s: Seq<char>, i: int) -> int
    decreases s.len() - i,
{
    if 0 <= i < s.len() && ident_continue(s[i]) {
        ident_end(s, i + 1)
    } else {
        i
    }
}

/// Whether a numeric literal starts at position `i`: a digit, or `-`
/// followed by a digit.
pub open spec fn starts_number(s: Seq<char>, i: int) -> bool {
    0 <= i < s.len() && (is_digit_char(s[i]) || (s[i] == '-' && i + 1 < s.len() && is_digit_char(
        s[i + 1],
    )))
}

/// Where the numeric literal starting at `i` ends: the sign, the integer
/// digits, and a fractional part only when a `.` is directly followed by a
/// digit.
pub open spec fn number_end(s: Seq<char>, i: int) -> int {
    let d0 = if s[i] == '-' {
        i + 1
    } else {
        i
    };
    let j1 = digits_end(s, d0);
    if j1 < s.len() && s[j1] == '.' && j1 + 1 < s.len() && is_digit_char(s[j1 + 1]) {
        digits_end(s, j1 + 1)
    } else {
        j1
    }
}

/// What the lexer produces: the ordered spanned tokens and the side list of
/// lexical errors.
#[verifier::ext_equal]
pub struct LexModel {
    pub tokens: Seq<(TokenModel, SpanModel)>,
    pub errors: Seq<DiagModel>,
}

/// The mathematical lexing function, from character position `i` and byte
/// offset `b` on. Longest match first: whitespace is skipped, the keyword is
/// matched before the single-character `@`, numbers and identifiers extend
/// as far as their character classes allow, and a character matching no rule
/// becomes an `InvalidToken` diagnostic covering exactly that character.
pub open spec fn spec_lex_at(s: Seq<char>, i: int, b: int) -> LexModel
    decreases s.len() - i,
        via spec_lex_at_decreases
{
    if i < 0 || s.len() <= i {
        LexModel { tokens: seq![], errors: seq![] }
    } else {
        let c = s[i];
        if is_space_char(c) {
            spec_lex_at(s, i + 1, b + char_len(c))
        } else if keyword_at(s, i) {
            let rest = spec_lex_at(s, i + KEYWORD_LEN as int, b + KEYWORD_LEN as int);
            LexModel {
                tokens: seq![
                    (TokenModel::Define, SpanModel { start: b, end: b + KEYWORD_LEN as int }),
                ] + rest.tokens,
                errors: rest.errors,
            }
        } else if punct_token(c) is Some {
            let rest = spec_lex_at(s, i + 1, b + 1);
            LexModel {
                tokens: seq![(punct_token(c).unwrap(), SpanModel { start: b, end: b + 1 })]
                    + rest.tokens,
                errors: rest.errors,
            }
        } else if starts_number(s, i) {
            let j = number_end(s, i);
            let rest = spec_lex_at(s, j, b + (j - i));
            LexModel {
                tokens: seq![
                    (TokenModel::Number(s.subrange(i, j)), SpanModel { start: b, end: b + (j - i) }),
                ] + rest.tokens,
                errors: rest.errors,
            }
        } else if ident_start(c) {
            let j = ident_end(s, i + 1);
            let blen = byte_len(s.subrange(i, j));
            let rest = spec_lex_at(s, j, b + blen);
            LexModel {
                tokens: seq![
                    (TokenModel::Identifier(s.subrange(i, j)), SpanModel {
                        start: b,
                        end: b + blen,
                    }),
                ] + rest.tokens,
                errors: rest.errors,
            }
        } else {
            let rest = spec_lex_at(s, i + 1, b + char_len(c));
            LexModel {
                tokens: rest.tokens,
                errors: seq![
                    DiagModel {
                        kind: DiagnosticKind::InvalidToken,
                        span: SpanModel { start: b, end: b + char_len(c) },
                        message: invalid_token_msg(seq![c]),
                        contexts: seq![],
                    },
                ] + rest.errors,
            }
        }
    }
}

#[via_fn]
proof fn spec_lex_at_decreases(s: Seq<char>, i: int, b: int) {
    if 0 <= i < s.len() {
        let c = s[i];
        if is_space_char(c) || keyword_at(s, i) || punct_token(c) is Some {
        } else if starts_number(s, i) {
            lemma_number_end_bounds(s, i);
        } else if ident_start(c) {
            lemma_ident_end_bounds(s, i + 1);
        }
    }
}

/// The mathematical lexing function over a whole text.
pub open spec fn spec_lex(s: Seq<char>) -> LexModel {
    spec_lex_at(s, 0, 0)
}

pub proof fn lemma_digits_end_bounds(s: Seq<char>, i: int)
    requires
        0 <= i <= s.len(),
    ensures
        i <= digits_end(s, i) <= s.len(),
        forall|k: int| i <= k < digits_end(s, i) ==> is_digit_char(s[k]),
        digits_end(s, i) < s.len() ==> !is_digit_char(s[digits_end(s, i)]),
    decreases s.len() - i,
{
    if i < s.len() && is_digit_char(s[i]) {
        lemma_digits_end_bounds(s, i + 1);
    }
}

pub proof fn lemma_digits_end_is(s: Seq<char>, i: int, j: int)
    requires
        0 <= i <= j <= s.len(),
        forall|k: int| i <= k < j ==> is_digit_char(s[k]),
        j < s.len() ==> !is_digit_char(s[j]),
    ensures
        digits_end(s, i) == j,
    decreases j - i,
{
    if i < j {
        lemma_digits_end_is(s, i + 1, j);
    }
}

pub proof fn lemma_ident_end_bounds(s: Seq<char>, i: int)
    requires
        0 <= i <= s.len(),
    ensures
        i <= ident_end(s, i) <= s.len(),
        forall|k: int| i <= k < ident_end(s, i) ==> ident_continue(s[k]),
        ident_end(s, i) < s.len() ==> !ident_continue(s[ident_end(s, i)]),
    decreases s.len() - i,
{
    if i < s.len() && ident_continue(s[i]) {
        lemma_ident_end_bounds(s, i + 1);
    }
}

pub proof fn lemma_ident_end_is(s: Seq<char>, i: int, j: int)
    requires
        0 <= i <= j <= s.len(),
        forall|k: int| i <= k < j ==> ident_continue(s[k]),
        j < s.len() ==> !ident_continue(s[j]),
    ensures
        ident_end(s, i) == j,
    decreases j - i,
{
    if i < j {
        lemma_ident_end_is(s, i + 1, j);
    }
}

pub proof fn lemma_number_end_bounds(s: Seq<char>, i: int)
    requires
        starts_number(s, i),
    ensures
        i < number_end(s, i) <= s.len(),
{
    let d0 = if s[i] == '-' {
        i + 1
    } else {
        i
    };
    lemma_digits_end_bounds(s, d0);
    let j1 = digits_end(s, d0);
    if d0 == i {
        assert(digits_end(s, i) == digits_end(s, i + 1));
        lemma_digits_end_bounds(s, i + 1);
    }
    if j1 < s.len() && s[j1] == '.' && j1 + 1 < s.len() && is_digit_char(s[j1 + 1]) {
        lemma_digits_end_bounds(s, j1 + 1);
        assert(digits_end(s, j1 + 1) == digits_end(s, j1 + 2));
    }
}

pub proof fn lemma_byte_len_push(t: Seq<char>, c: char)
    ensures
        byte_len(t.push(c)) == byte_len(t) + char_len(c),
    decreases t.len(),
{
    if t.len() == 0 {
        assert(t.push(c)[0] == c);
        assert(t.push(c).drop_first() =~= Seq::<char>::empty());
        assert(byte_len(t.push(c).drop_first()) == 0);
        assert(byte_len(t.push(c)) == char_len(c) + byte_len(t.push(c).drop_first()));
    } else {
        assert(t.push(c)[0] == t[0]);
        assert(t.push(c).drop_first() =~= t.drop_first().push(c));
        lemma_byte_len_push(t.drop_first(), c);
        assert(byte_len(t.push(c)) == char_len(t[0]) + byte_len(t.push(c).drop_first()));
        assert(byte_len(t) == char_len(t[0]) + byte_len(t.drop_first()));
    }
}

pub proof fn lemma_byte_len_single(c: char)
    ensures
        byte_len(seq![c]) == char_len(c),
{
    assert(seq![c].drop_first() =~= Seq::<char>::empty());
    assert(byte_len(seq![c]) == char_len(seq![c][0]) + byte_len(seq![c].drop_first()));
}

pub proof fn lemma_subrange_push(s: Seq<char>, a: int, j: int)
    requires
        0 <= a <= j < s.len(),
    ensures
        s.subrange(a, j + 1) =~= s.subrange(a, j).push(s[j]),
{
}

pub proof fn lemma_byte_len_ascii(t: Seq<char>)
    requires
        forall|k: int| 0 <= k < t.len() ==> (t[k] as u32) < 128,
    ensures
        byte_len(t) == t.len(),
    decreases t.len(),
{
    if t.len() > 0 {
        assert(forall|k: int|
            0 <= k < t.drop_first().len() ==> (t.drop_first()[k] as u32) < 128);
        lemma_byte_len_ascii(t.drop_first());
    }
}

pub proof fn lemma_keyword_chars()
    ensures
        keyword().len() == KEYWORD_LEN,
        forall|k: int| 0 <= k < keyword().len() ==> (#[trigger] keyword()[k] as u32) < 128,
        byte_len(keyword()) == KEYWORD_LEN,
        keyword()[0] == '@',
{
    reveal_strlit("@define-color");
    assert forall|k: int| 0 <= k < keyword().len() implies (#[trigger] keyword()[k] as u32)
        < 128 by {
        if k == 0 {
            assert(keyword()[0] == '@');
        } else if k == 1 {
            assert(keyword()[1] == 'd');
        } else if k == 2 {
            assert(keyword()[2] == 'e');
        } else if k == 3 {
            assert(keyword()[3] == 'f');
        } else if k == 4 {
            assert(keyword()[4] == 'i');
        } else if k == 5 {
            assert(keyword()[5] == 'n');
        } else if k == 6 {
            assert(keyword()[6] == 'e');
        } else if k == 7 {
            assert(keyword()[7] == '-');
        } else if k == 8 {
            assert(keyword()[8] == 'c');
        } else if k == 9 {
            assert(keyword()[9] == 'o');
        } else if k == 10 {
            assert(keyword()[10] == 'l');
        } else if k == 11 {
            assert(keyword()[11] == 'o');
        } else {
            assert(keyword()[12] == 'r');
        }
    }
    lemma_byte_len_ascii(keyword());
}

/// The models of a list of spanned tokens.
pub open spec fn toks_model<'a>(ts: Seq<(Token<'a>, Span)>) -> Seq<(TokenModel, SpanModel)> {
    ts.map_values(|p: (Token<'a>, Span)| (p.0@, p.1@))
}

pub(crate) fn char_size(c: char) -> (r: usize)
    ensures
        r as nat == char_len(c),
{
    let u = c as u32;
    if u < 0x80 {
        1
    } else if u < 0x800 {
        2
    } else if u < 0x10000 {
        3
    } else {
        4
    }
}

pub(crate) fn is_space(c: char) -> (r: bool)
    ensures
        r == is_space_char(c),
{
    c == ' ' || c == '\t' || c == '\n' || c == '\r' || c == '\u{b}' || c == '\u{c}'
}

pub(crate) fn is_digit(c: char) -> (r: bool)
    ensures
        r == is_digit_char(c),
{
    let u = c as u32;
    48 <= u && u <= 57
}

pub(crate) fn is_ident_start_char(c: char) -> (r: bool)
    ensures
        r == ident_start(c),
{
    is_letter(c) || c == '_'
}

pub(crate) fn is_ident_continue_char(c: char) -> (r: bool)
    ensures
        r == ident_continue(c),
{
    is_ident_start_char(c) || is_digit(c)
}

fn punct<'a>(c: char) -> (r: Option<Token<'a>>)
    ensures
        match r {
            Some(t) => punct_token(c) == Some(t@),
            None => punct_token(c) is None,
        },
{
    match c {
        '@' => Some(Token::Asperand),
        '.' => Some(Token::Dot),
        '{' => Some(Token::LBracket),
        '}' => Some(Token::RBracket),
        '(' => Some(Token::LParen),
        ')' => Some(Token::RParen),
        ';' => Some(Token::Semi),
        _ => None,
    }
}

fn kw_char(k: usize) -> (c: char)
    requires
        k < KEYWORD_LEN,
    ensures
        c == keyword()[k as int],
{
    proof {
        reveal_strlit("@define-color");
    }
    if k == 0 {
        '@'
    } else if k == 1 {
        'd'
    } else if k == 2 {
        'e'
    } else if k == 3 {
        'f'
    } else if k == 4 {
        'i'
    } else if k == 5 {
        'n'
    } else if k == 6 {
        'e'
    } else if k == 7 {
        '-'
    } else if k == 8 {
        'c'
    } else if k == 9 {
        'o'
    } else if k == 10 {
        'l'
    } else if k == 11 {
        'o'
    } else {
        'r'
    }
}

fn matches_keyword(input: &str, i: usize, n: usize) -> (r: bool)
    requires
        n == input@.len(),
        i <= n,
        4 * n <= usize::MAX,
    ensures
        r == keyword_at(input@, i as int),
{
    proof {
        lemma_keyword_chars();
    }
    if n - i < KEYWORD_LEN {
        return false;
    }
    let mut k: usize = 0;
    while k < KEYWORD_LEN
        invariant
            n == input@.len(),
            i + KEYWORD_LEN <= n,
            k <= KEYWORD_LEN,
            keyword().len() == KEYWORD_LEN,
            forall|m: int| 0 <= m < k ==> input@[i + m] == keyword()[m],
        decreases KEYWORD_LEN - k,
    {
        let c = input.get_char(i + k);
        let e = kw_char(k);
        if c != e {
            proof {
                let sub = input@.subrange(i as int, i + KEYWORD_LEN as int);
                assert(sub[k as int] == input@[i + k]);
                assert(sub != keyword());
            }
            return false;
        }
        k = k + 1;
    }
    proof {
        assert(input@.subrange(i as int, i + KEYWORD_LEN as int) =~= keyword());
    }
    true
}

fn digit_at(input: &str, j: usize, n: usize) -> (r: bool)
    requires
        n == input@.len(),
        j <= n,
    ensures
        r == (j < n && is_digit_char(input@[j as int])),
{
    if j < n {
        is_digit(input.get_char(j))
    } else {
        false
    }
}

fn cont_at(input: &str, j: usize, n: usize) -> (r: bool)
    requires
        n == input@.len(),
        j <= n,
    ensures
        r == (j < n && ident_continue(input@[j as int])),
{
    if j < n {
        is_ident_continue_char(input.get_char(j))
    } else {
        false
    }
}


proof fn lemma_step_space(s: Seq<char>, i: int, b: int)
    requires
        0 <= i < s.len(),
        is_space_char(s[i]),
    ensures
        spec_lex_at(s, i, b) == spec_lex_at(s, i + 1, b + char_len(s[i])),
{
}

proof fn lemma_step_keyword(s: Seq<char>, i: int, b: int)
    requires
        0 <= i < s.len(),
        !is_space_char(s[i]),
        keyword_at(s, i),
    ensures
        spec_lex_at(s, i, b).tokens == seq![
            (TokenModel::Define, SpanModel { start: b, end: b + KEYWORD_LEN as int }),
        ] + spec_lex_at(s, i + KEYWORD_LEN as int, b + KEYWORD_LEN as int).tokens,
        spec_lex_at(s, i, b).errors == spec_lex_at(
            s,
            i + KEYWORD_LEN as int,
            b + KEYWORD_LEN as int,
        ).errors,
{
}

proof fn lemma_step_punct(s: Seq<char>, i: int, b: int)
    requires
        0 <= i < s.len(),
        !is_space_char(s[i]),
        !keyword_at(s, i),
        punct_token(s[i]) is Some,
    ensures
        spec_lex_at(s, i, b).tokens == seq![
            (punct_token(s[i]).unwrap(), SpanModel { start: b, end: b + 1 }),
        ] + spec_lex_at(s, i + 1, b + 1).tokens,
        spec_lex_at(s, i, b).errors == spec_lex_at(s, i + 1, b + 1).errors,
{
}

proof fn lemma_step_number(s: Seq<char>, i: int, b: int)
    requires
        0 <= i < s.len(),
        !is_space_char(s[i]),
        !keyword_at(s, i),
        punct_token(s[i]) is None,
        starts_number(s, i),
    ensures
        spec_lex_at(s, i, b).tokens == seq![
            (TokenModel::Number(s.subrange(i, number_end(s, i))), SpanModel {
                start: b,
                end: b + (number_end(s, i) - i),
            }),
        ] + spec_lex_at(s, number_end(s, i), b + (number_end(s, i) - i)).tokens,
        spec_lex_at(s, i, b).errors == spec_lex_at(
            s,
            number_end(s, i),
            b + (number_end(s, i) - i),
        ).errors,
{
}

proof fn lemma_step_ident(s: Seq<char>, i: int, b: int)
    requires
        0 <= i < s.len(),
        !is_space_char(s[i]),
        !keyword_at(s, i),
        punct_token(s[i]) is None,
        !starts_number(s, i),
        ident_start(s[i]),
    ensures
        spec_lex_at(s, i, b).tokens == seq![
            (TokenModel::Identifier(s.subrange(i, ident_end(s, i + 1))), SpanModel {
                start: b,
                end: b + byte_len(s.subrange(i, ident_end(s, i + 1))),
            }),
        ] + spec_lex_at(
            s,
            ident_end(s, i + 1),
            b + byte_len(s.subrange(i, ident_end(s, i + 1))),
        ).tokens,
        spec_lex_at(s, i, b).errors == spec_lex_at(
            s,
            ident_end(s, i + 1),
            b + byte_len(s.subrange(i, ident_end(s, i + 1))),
        ).errors,
{
}

proof fn lemma_step_invalid(s: Seq<char>, i: int, b: int)
    requires
        0 <= i < s.len(),
        !is_space_char(s[i]),
        !keyword_at(s, i),
        punct_token(s[i]) is None,
        !starts_number(s, i),
        !ident_start(s[i]),
    ensures
        spec_lex_at(s, i, b).tokens == spec_lex_at(s, i + 1, b + char_len(s[i])).tokens,
        spec_lex_at(s, i, b).errors == seq![
            DiagModel {
                kind: DiagnosticKind::InvalidToken,
                span: SpanModel { start: b, end: b + char_len(s[i]) },
                message: invalid_token_msg(seq![s[i]]),
                contexts: seq![],
            },
        ] + spec_lex_at(s, i + 1, b + char_len(s[i])).errors,
{
}

fn scan_number(input: &str, i: usize, n: usize) -> (end: usize)
    requires
        n == input@.len(),
        4 * n <= usize::MAX,
        i < n,
        starts_number(input@, i as int),
    ensures
        end as int == number_end(input@, i as int),
        i < end <= n,
{
    let ghost s = input@;
    let c = input.get_char(i);
    let d0: usize = if c == '-' {
        i + 1
    } else {
        i
    };
    let mut j: usize = d0;
    while digit_at(input, j, n)
        invariant
            s == input@,
            n == s.len(),
            d0 <= j <= n,
            forall|k: int| d0 <= k < j ==> is_digit_char(s[k]),
        decreases n - j,
    {
        j = j + 1;
    }
    proof {
        lemma_digits_end_is(s, d0 as int, j as int);
    }
    let mut end: usize = j;
    if j < n {
        let cj = input.get_char(j);
        if cj == '.' && j + 1 < n {
            if is_digit(input.get_char(j + 1)) {
                let mut j2: usize = j + 1;
                while digit_at(input, j2, n)
                    invariant
                        s == input@,
                        n == s.len(),
                        j + 1 <= j2 <= n,
                        forall|k: int| j + 1 <= k < j2 ==> is_digit_char(s[k]),
                    decreases n - j2,
                {
                    j2 = j2 + 1;
                }
                proof {
                    lemma_digits_end_is(s, i as int + (j - i) + 1, j2 as int);
                }
                end = j2;
            }
        }
    }
    proof {
        lemma_number_end_bounds(s, i as int);
    }
    end
}

fn scan_ident(input: &str, i: usize, n: usize) -> (r: (usize, usize))
    requires
        n == input@.len(),
        4 * n <= usize::MAX,
        i < n,
        ident_start(input@[i as int]),
    ensures
        r.0 as int == ident_end(input@, i as int + 1),
        i < r.0 <= n,
        r.1 as nat == byte_len(input@.subrange(i as int, r.0 as int)),
        r.1 <= 4 * (r.0 - i),
{
    let ghost s = input@;
    let c = input.get_char(i);
    let mut j: usize = i + 1;
    let mut blen: usize = char_size(c);
    proof {
        lemma_byte_len_single(s[i as int]);
        assert(s.subrange(i as int, i as int + 1) =~= seq![s[i as int]]);
    }
    while cont_at(input, j, n)
        invariant
            s == input@,
            n == s.len(),
            4 * n <= usize::MAX,
            i < j <= n,
            blen as nat == byte_len(s.subrange(i as int, j as int)),
            blen <= 4 * (j - i),
            forall|k: int| i + 1 <= k < j ==> ident_continue(s[k]),
        decreases n - j,
    {
        let c2 = input.get_char(j);
        let cl = char_size(c2);
        proof {
            lemma_subrange_push(s, i as int, j as int);
            lemma_byte_len_push(s.subrange(i as int, j as int), s[j as int]);
        }
        blen = blen + cl;
        j = j + 1;
    }
    proof {
        lemma_ident_end_is(s, i as int + 1, j as int);
    }
    (j, blen)
}

/// Lex a whole text: the ordered spanned tokens plus the side list of
/// lexical errors. The result is exactly the mathematical lexing function of
/// the text, so two runs over one input agree. Spans are byte offsets into
/// the UTF-8 encoding of the text. The length bound is a machine limit:
/// every byte offset must fit in `usize`.
pub fn lex<'a>(input: &'a str) -> (r: (Vec<(Token<'a>, Span)>, Vec<Diagnostic>))
    requires
        4 * input@.len() <= usize::MAX,
    ensures
        toks_model(r.0@) == spec_lex(input@).tokens,
        diags_model(r.1@) == spec_lex(input@).errors,
{
    let ghost s = input@;
    let n = input.unicode_len();
    let mut toks: Vec<(Token<'a>, Span)> = Vec::new();
    let mut errs: Vec<Diagnostic> = Vec::new();
    let mut i: usize = 0;
    let mut b: usize = 0;
    proof {
        assert(toks_model(toks@) =~= Seq::<(TokenModel, SpanModel)>::empty());
        assert(diags_model(errs@) =~= Seq::<DiagModel>::empty());
    }
    while i < n
        invariant
            s == input@,
            n == s.len(),
            4 * n <= usize::MAX,
            i <= n,
            b <= 4 * i,
            spec_lex(s).tokens == toks_model(toks@) + spec_lex_at(s, i as int, b as int).tokens,
            spec_lex(s).errors == diags_model(errs@) + spec_lex_at(s, i as int, b as int).errors,
        decreases n - i,
    {
        let ghost i0 = i as int;
        let ghost b0 = b as int;
        let ghost tm0 = toks_model(toks@);
        let ghost em0 = diags_model(errs@);
        let c = input.get_char(i);
        if is_space(c) {
            let cl = char_size(c);
            i = i + 1;
            b = b + cl;
            proof {
                lemma_step_space(s, i0, b0);
            }
        } else if matches_keyword(input, i, n) {
            let sp = Span { start: b, end: b + KEYWORD_LEN };
            toks.push((Token::Define, sp));
            i = i + KEYWORD_LEN;
            b = b + KEYWORD_LEN;
            proof {
                lemma_step_keyword(s, i0, b0);
                let rest = spec_lex_at(s, i as int, b as int);
                let x = (TokenModel::Define, SpanModel { start: b0, end: b0 + KEYWORD_LEN as int });
                assert(toks_model(toks@) =~= tm0.push(x));
                assert(tm0 + (seq![x] + rest.tokens) =~= tm0.push(x) + rest.tokens);
            }
        } else if let Some(ptok) = punct(c) {
            let sp = Span { start: b, end: b + 1 };
            toks.push((ptok, sp));
            i = i + 1;
            b = b + 1;
            proof {
                lemma_step_punct(s, i0, b0);
                let rest = spec_lex_at(s, i as int, b as int);
                let x = (punct_token(c).unwrap(), SpanModel { start: b0, end: b0 + 1 });
                assert(toks_model(toks@) =~= tm0.push(x));
                assert(tm0 + (seq![x] + rest.tokens) =~= tm0.push(x) + rest.tokens);
            }
        } else if is_digit(c) || (c == '-' && i + 1 < n && is_digit(input.get_char(i + 1))) {
            let end = scan_number(input, i, n);
            let text = input.substring_char(i, end);
            let sp = Span { start: b, end: b + (end - i) };
            toks.push((Token::Number(text), sp));
            let adv = end - i;
            i = end;
            b = b + adv;
            proof {
                lemma_step_number(s, i0, b0);
                let rest = spec_lex_at(s, i as int, b as int);
                let x = (TokenModel::Number(s.subrange(i0, end as int)), SpanModel {
                    start: b0,
                    end: b0 + (end - i0),
                });
                assert(toks_model(toks@) =~= tm0.push(x));
                assert(tm0 + (seq![x] + rest.tokens) =~= tm0.push(x) + rest.tokens);
            }
        } else if is_ident_start_char(c) {
            let (end, blen) = scan_ident(input, i, n);
            let text = input.substring_char(i, end);
            let sp = Span { start: b, end: b + blen };
            toks.push((Token::Identifier(text), sp));
            i = end;
            b = b + blen;
            proof {
                lemma_step_ident(s, i0, b0);
                let rest = spec_lex_at(s, i as int, b as int);
                let x = (TokenModel::Identifier(s.subrange(i0, end as int)), SpanModel {
                    start: b0,
                    end: b0 + byte_len(s.subrange(i0, end as int)),
                });
                assert(toks_model(toks@) =~= tm0.push(x));
                assert(tm0 + (seq![x] + rest.tokens) =~= tm0.push(x) + rest.tokens);
            }
        } else {
            let cl = char_size(c);
            let text = input.substring_char(i, i + 1);
            let msg = make_invalid_token_msg(text);
            let d = Diagnostic {
                kind: DiagnosticKind::InvalidToken,
                span: Span { start: b, end: b + cl },
                message: msg,
                contexts: Vec::new(),
            };
            errs.push(d);
            i = i + 1;
            b = b + cl;
            proof {
                lemma_step_invalid(s, i0, b0);
                let rest = spec_lex_at(s, i as int, b as int);
                let dm = DiagModel {
                    kind: DiagnosticKind::InvalidToken,
                    span: SpanModel { start: b0, end: b0 + char_len(c) },
                    message: invalid_token_msg(seq![c]),
                    contexts: seq![],
                };
                assert(text@ =~= seq![c]);
                assert(errs@.last()@.contexts =~= Seq::<(Seq<char>, SpanModel)>::empty());
                assert(errs@.last()@ =~= dm);
                assert(diags_model(errs@) =~= em0.push(dm));
                assert(em0 + (seq![dm] + rest.errors) =~= em0.push(dm) + rest.errors);
            }
        }
    }
    proof {
        assert(spec_lex_at(s, n as int, b as int).tokens
            =~= Seq::<(TokenModel, SpanModel)>::empty());
        assert(spec_lex_at(s, n as int, b as int).errors =~= Seq::<DiagModel>::empty());
        assert(toks_model(toks@) =~= spec_lex(s).tokens);
        assert(diags_model(errs@) =~= spec_lex(s).errors);
    }
    (toks, errs)
}

/// Whether every character of `s` is an ASCII decimal digit.
pub open spec fn all_digits(s: Seq<char>) -> bool {
    forall|k: int| 0 <= k < s.len() ==> is_digit_char(#[trigger] s[k])
}

/// Whether `p` splits `body` into integer digits, a dot, and nonempty
/// fractional digits.
pub open spec fn frac_split(body: Seq<char>, p: int) -> bool {
    &&& 0 < p < body.len() - 1
    &&& body[p] == '.'
    &&& all_digits(body.take(p))
    &&& all_digits(body.skip(p + 1))
}

/// A numeric literal's text without its optional sign.
pub open spec fn number_body(s: Seq<char>) -> Seq<char> {
    if s.len() > 0 && s[0] == '-' {
        s.drop_first()
    } else {
        s
    }
}

/// The shape of a numeric literal: an optional `-`, nonempty integer
/// digits, and optionally a `.` followed by nonempty fractional digits.
pub open spec fn number_shape(s: Seq<char>) -> bool {
    &&& number_body(s).len() > 0
    &&& is_digit_char(number_body(s)[0])
    &&& (all_digits(number_body(s)) || exists|p: int| #[trigger] frac_split(number_body(s), p))
}

/// A token the lexer can produce: its text obeys its kind's lexical rule.
pub open spec fn wf_token(t: TokenModel) -> bool {
    match t {
        TokenModel::Identifier(s) => s.len() > 0 && ident_start(s[0]) && (forall|k: int|
            1 <= k < s.len() ==> ident_continue(#[trigger] s[k])),
        TokenModel::Number(s) => number_shape(s),
        _ => true,
    }
}

proof fn lemma_ident_start_class(c: char)
    requires
        ident_start(c),
    ensures
        !is_space_char(c),
        punct_token(c) is None,
        !is_digit_char(c),
        c != '-',
        c != '@',
{
}

proof fn lemma_number_start_class(c: char)
    requires
        is_digit_char(c) || c == '-',
    ensures
        !is_space_char(c),
        punct_token(c) is None,
        !ident_start(c),
        c != '@',
{
}

/// Law: the text of any token the lexer can produce, re-lexed alone, yields
/// exactly that token again — one token of the same kind, spanning the whole
/// text, with no lexical errors.
/// Law: the text of any token the lexer can produce, re-lexed alone, yields
/// exactly that token again — one token of the same kind, spanning the whole
/// text, with no lexical errors.
pub proof fn lemma_token_round_trip(t: TokenModel)
    requires
        wf_token(t),
    ensures
        spec_lex(token_text(t)).tokens =~= seq![
            (t, SpanModel { start: 0, end: byte_len(token_text(t)) as int }),
        ],
        spec_lex(token_text(t)).errors =~= Seq::<DiagModel>::empty(),
{
    lemma_keyword_chars();
    let s = token_text(t);
    match t {
        TokenModel::Define => {
            assert(s.subrange(0, KEYWORD_LEN as int) =~= s);
            assert(keyword_at(s, 0));
            assert(s[0] == '@');
            assert(!is_space_char(s[0]));
            let rest = spec_lex_at(s, KEYWORD_LEN as int, KEYWORD_LEN as int);
            assert(rest.tokens =~= Seq::<(TokenModel, SpanModel)>::empty());
            assert(rest.errors =~= Seq::<DiagModel>::empty());
            assert(spec_lex_at(s, 0, 0).tokens =~= seq![
                (TokenModel::Define, SpanModel { start: 0, end: KEYWORD_LEN as int }),
            ]);
        },
        TokenModel::Identifier(txt) => {
            lemma_ident_start_class(txt[0]);
            assert(!keyword_at(s, 0)) by {
                if keyword_at(s, 0) {
                    assert(s.subrange(0, KEYWORD_LEN as int)[0] == s[0]);
                    assert(s[0] == '@');
                }
            }
            assert(!starts_number(s, 0));
            lemma_ident_end_is(s, 1, s.len() as int);
            assert(s.subrange(0, s.len() as int) =~= s);
            let rest = spec_lex_at(s, s.len() as int, byte_len(s) as int);
            assert(rest.tokens =~= Seq::<(TokenModel, SpanModel)>::empty());
            assert(rest.errors =~= Seq::<DiagModel>::empty());
            assert(spec_lex_at(s, 0, 0).tokens =~= seq![
                (TokenModel::Identifier(s), SpanModel { start: 0, end: byte_len(s) as int }),
            ]);
        },
        TokenModel::Number(txt) => {
            lemma_number_round_trip(txt);
        },
        TokenModel::Dot => {
            reveal_strlit(".");
            lemma_punct_round_trip(".", TokenModel::Dot);
        },
        TokenModel::Asperand => {
            reveal_strlit("@");
            lemma_punct_round_trip("@", TokenModel::Asperand);
        },
        TokenModel::LBracket => {
            reveal_strlit("{");
            lemma_punct_round_trip("{", TokenModel::LBracket);
        },
        TokenModel::RBracket => {
            reveal_strlit("}");
            lemma_punct_round_trip("}", TokenModel::RBracket);
        },
        TokenModel::LParen => {
            reveal_strlit("(");
            lemma_punct_round_trip("(", TokenModel::LParen);
        },
        TokenModel::RParen => {
            reveal_strlit(")");
            lemma_punct_round_trip(")", TokenModel::RParen);
        },
        TokenModel::Semi => {
            reveal_strlit(";");
            lemma_punct_round_trip(";", TokenModel::Semi);
        },
    }
}

proof fn lemma_punct_round_trip(lit: &str, t: TokenModel)
    requires
        lit@.len() == 1,
        punct_token(lit@[0]) == Some(t),
        token_text(t) == lit@,
    ensures
        spec_lex(token_text(t)).tokens =~= seq![(t, SpanModel { start: 0, end: 1 })],
        spec_lex(token_text(t)).errors =~= Seq::<DiagModel>::empty(),
        byte_len(token_text(t)) == 1,
{
    lemma_keyword_chars();
    let s = token_text(t);
    let c = s[0];
    assert(c == '@' || c == '.' || c == '{' || c == '}' || c == '(' || c == ')' || c == ';');
    assert(!is_space_char(c));
    assert((c as u32) < 0x80);
    assert(!keyword_at(s, 0));
    lemma_byte_len_single(c);
    assert(s =~= seq![c]);
    assert(byte_len(s) == 1);
    assert(!starts_number(s, 0));
    let rest = spec_lex_at(s, 1, 1);
    assert(rest.tokens =~= Seq::<(TokenModel, SpanModel)>::empty());
    assert(rest.errors =~= Seq::<DiagModel>::empty());
    assert(spec_lex_at(s, 0, 0).tokens =~= seq![(t, SpanModel { start: 0, end: 1 })]);
}

proof fn lemma_number_round_trip(txt: Seq<char>)
    requires
        number_shape(txt),
    ensures
        spec_lex(txt).tokens =~= seq![
            (TokenModel::Number(txt), SpanModel { start: 0, end: byte_len(txt) as int }),
        ],
        spec_lex(txt).errors =~= Seq::<DiagModel>::empty(),
{
    lemma_keyword_chars();
    let body = number_body(txt);
    let d0: int = if txt[0] == '-' {
        1
    } else {
        0
    };
    assert(forall|k: int| 0 <= k < body.len() ==> #[trigger] body[k] == txt[k + d0]);
    let len = txt.len() as int;
    assert(starts_number(txt, 0)) by {
        assert(body[0] == txt[d0]);
    }
    lemma_number_start_class(txt[0]);
    assert(!keyword_at(txt, 0)) by {
        if keyword_at(txt, 0) {
            assert(txt.subrange(0, KEYWORD_LEN as int)[0] == txt[0]);
            assert(txt[0] == '@');
        }
    }
    if all_digits(body) {
        assert forall|k: int| d0 <= k < len implies is_digit_char(#[trigger] txt[k]) by {
            assert(body[k - d0] == txt[k]);
        }
        lemma_digits_end_is(txt, d0, len);
        assert(number_end(txt, 0) == len);
        assert forall|k: int| 0 <= k < len implies (#[trigger] txt[k] as u32) < 128 by {
            if k >= d0 {
                assert(is_digit_char(txt[k]));
            }
        }
        lemma_byte_len_ascii(txt);
    } else {
        let p = choose|p: int| #[trigger] frac_split(body, p);
        assert(frac_split(body, p));
        let dp = p + d0;
        assert forall|m: int| 0 <= m < p implies is_digit_char(#[trigger] body[m]) by {
            assert(body.take(p)[m] == body[m]);
        }
        assert forall|m: int| p < m < body.len() implies is_digit_char(#[trigger] body[m]) by {
            assert(body.skip(p + 1)[m - p - 1] == body[m]);
        }
        assert forall|k: int| d0 <= k < dp implies is_digit_char(#[trigger] txt[k]) by {
            assert(body[k - d0] == txt[k]);
        }
        assert(txt[dp] == '.') by {
            assert(body[p] == txt[dp]);
        }
        lemma_digits_end_is(txt, d0, dp);
        assert(is_digit_char(txt[dp + 1])) by {
            assert(body[p + 1] == txt[dp + 1]);
        }
        assert forall|k: int| dp + 1 <= k < len implies is_digit_char(#[trigger] txt[k]) by {
            assert(body[k - d0] == txt[k]);
        }
        lemma_digits_end_is(txt, dp + 1, len);
        assert(number_end(txt, 0) == len);
        assert forall|k: int| 0 <= k < len implies (#[trigger] txt[k] as u32) < 128 by {
            if k >= d0 {
                let m = k - d0;
                assert(body[m] == txt[k]);
                if m < p {
                    assert(is_digit_char(body[m]));
                } else if m > p {
                    assert(is_digit_char(body[m]));
                }
            }
        }
        lemma_byte_len_ascii(txt);
    }
    assert(txt.subrange(0, len) =~= txt);
    let rest = spec_lex_at(txt, len, byte_len(txt) as int);
    assert(rest.tokens =~= Seq::<(TokenModel, SpanModel)>::empty());
    assert(rest.errors =~= Seq::<DiagModel>::empty());
    assert(spec_lex_at(txt, 0, 0).tokens =~= seq![
        (TokenModel::Number(txt), SpanModel { start: 0, end: byte_len(txt) as int }),
    ]);
}

/// Every token the mathematical lexer produces obeys its kind's lexical
/// rule.
pub proof fn lemma_lex_wf(s: Seq<char>, i: int, b: int)
    ensures
        forall|k: int|
            0 <= k < spec_lex_at(s, i, b).tokens.len() ==> wf_token(
                #[trigger] spec_lex_at(s, i, b).tokens[k].0,
            ),
    decreases s.len() - i,
{
    if 0 <= i < s.len() {
        let c = s[i];
        if is_space_char(c) {
            lemma_lex_wf(s, i + 1, b + char_len(c));
            assert(spec_lex_at(s, i, b).tokens == spec_lex_at(s, i + 1, b + char_len(c)).tokens);
        } else if keyword_at(s, i) {
            lemma_lex_wf(s, i + KEYWORD_LEN as int, b + KEYWORD_LEN as int);
            let rest = spec_lex_at(s, i + KEYWORD_LEN as int, b + KEYWORD_LEN as int);
            assert forall|k: int| 0 <= k < spec_lex_at(s, i, b).tokens.len() implies wf_token(
                #[trigger] spec_lex_at(s, i, b).tokens[k].0,
            ) by {
                if k > 0 {
                    assert(spec_lex_at(s, i, b).tokens[k] == rest.tokens[k - 1]);
                }
            }
        } else if punct_token(c) is Some {
            lemma_lex_wf(s, i + 1, b + 1);
            let rest = spec_lex_at(s, i + 1, b + 1);
            assert forall|k: int| 0 <= k < spec_lex_at(s, i, b).tokens.len() implies wf_token(
                #[trigger] spec_lex_at(s, i, b).tokens[k].0,
            ) by {
                if k > 0 {
                    assert(spec_lex_at(s, i, b).tokens[k] == rest.tokens[k - 1]);
                }
            }
        } else if starts_number(s, i) {
            lemma_number_end_bounds(s, i);
            let j = number_end(s, i);
            lemma_number_text_shape(s, i);
            lemma_lex_wf(s, j, b + (j - i));
            let rest = spec_lex_at(s, j, b + (j - i));
            assert forall|k: int| 0 <= k < spec_lex_at(s, i, b).tokens.len() implies wf_token(
                #[trigger] spec_lex_at(s, i, b).tokens[k].0,
            ) by {
                if k > 0 {
                    assert(spec_lex_at(s, i, b).tokens[k] == rest.tokens[k - 1]);
                }
            }
        } else if ident_start(c) {
            lemma_ident_end_bounds(s, i + 1);
            let j = ident_end(s, i + 1);
            let txt = s.subrange(i, j);
            assert(txt[0] == s[i]);
            assert forall|k: int| 1 <= k < txt.len() implies ident_continue(#[trigger] txt[k]) by {
                assert(txt[k] == s[i + k]);
            }
            assert(wf_token(TokenModel::Identifier(txt)));
            lemma_lex_wf(s, j, b + byte_len(txt));
            let rest = spec_lex_at(s, j, b + byte_len(txt));
            assert forall|k: int| 0 <= k < spec_lex_at(s, i, b).tokens.len() implies wf_token(
                #[trigger] spec_lex_at(s, i, b).tokens[k].0,
            ) by {
                if k > 0 {
                    assert(spec_lex_at(s, i, b).tokens[k] == rest.tokens[k - 1]);
                }
            }
        } else {
            lemma_lex_wf(s, i + 1, b + char_len(c));
            assert(spec_lex_at(s, i, b).tokens == spec_lex_at(s, i + 1, b + char_len(c)).tokens);
        }
    }
}

/// The text of the numeric literal starting at `i` has the numeric shape.
proof fn lemma_number_text_shape(s: Seq<char>, i: int)
    requires
        starts_number(s, i),
    ensures
        number_shape(s.subrange(i, number_end(s, i))),
{
    lemma_number_end_bounds(s, i);
    let j = number_end(s, i);
    let txt = s.subrange(i, j);
    let d0 = if s[i] == '-' {
        i + 1
    } else {
        i
    };
    let j1 = digits_end(s, d0);
    lemma_digits_end_bounds(s, d0);
    let body = number_body(txt);
    assert(txt.len() == j - i);
    assert(txt[0] == s[i]);
    assert(forall|m: int| 0 <= m < body.len() ==> #[trigger] body[m] == s[m + d0]);
    if j1 < s.len() && s[j1] == '.' && j1 + 1 < s.len() && is_digit_char(s[j1 + 1]) {
        // fractional case: the dot sits at body position j1 - d0
        lemma_digits_end_bounds(s, j1 + 1);
        assert(j == digits_end(s, j1 + 1));
        assert(j >= j1 + 2);
        let p = j1 - d0;
        assert(body.len() == j - d0);
        assert(body[p] == '.');
        assert(body[0] == s[d0]);
        assert(0 < p < body.len() - 1);
        assert(all_digits(body.take(p))) by {
            assert forall|m: int| 0 <= m < body.take(p).len() implies is_digit_char(
                #[trigger] body.take(p)[m],
            ) by {
                assert(body.take(p)[m] == s[m + d0]);
            }
        }
        assert(all_digits(body.skip(p + 1))) by {
            assert forall|m: int| 0 <= m < body.skip(p + 1).len() implies is_digit_char(
                #[trigger] body.skip(p + 1)[m],
            ) by {
                assert(body.skip(p + 1)[m] == s[m + j1 + 1]);
            }
        }
        assert(body.len() > 0);
        assert(is_digit_char(body[0]));
        assert(frac_split(body, p));
        assert(number_shape(txt));
    } else {
        assert(j == j1);
        assert(body[0] == s[d0]);
        assert(all_digits(body)) by {
            assert forall|m: int| 0 <= m < body.len() implies is_digit_char(
                #[trigger] body[m],
            ) by {
                assert(body[m] == s[m + d0]);
            }
        }
        assert(number_shape(txt));
    }
}

/// Law: every token an actual lexing produces, re-lexed alone, yields
/// exactly that token again, spanning its whole text, with no errors.
pub proof fn lemma_lex_round_trip(s: Seq<char>, k: int)
    requires
        0 <= k < spec_lex(s).tokens.len(),
    ensures
        ({
            let t = spec_lex(s).tokens[k].0;
            &&& spec_lex(token_text(t)).tokens =~= seq![
                (t, SpanModel { start: 0, end: byte_len(token_text(t)) as int }),
            ]
            &&& spec_lex(token_text(t)).errors =~= Seq::<DiagModel>::empty()
        }),
{
    lemma_lex_wf(s, 0, 0);
    lemma_token_round_trip(spec_lex(s).tokens[k].0);
}

pub proof fn lemma_byte_len_ge(t: Seq<char>)
    ensures
        byte_len(t) >= t.len(),
    decreases t.len(),
{
    if t.len() > 0 {
        lemma_byte_len_ge(t.drop_first());
    }
}

/// Law: the token spans the lexer produces are ordered and non-overlapping.
/// From byte offset `b` on, every token's span is nonempty and starts at or
/// after `b`, and every span ends at or before the next one starts.
pub proof fn lemma_lex_spans_ordered(s: Seq<char>, i: int, b: int)
    ensures
        forall|k: int|
            0 <= k < spec_lex_at(s, i, b).tokens.len() ==> b <= (
            #[trigger] spec_lex_at(s, i, b).tokens[k]).1.start < spec_lex_at(
                s,
                i,
                b,
            ).tokens[k].1.end,
        forall|k: int|
            0 <= k && k + 1 < spec_lex_at(s, i, b).tokens.len() ==> (
            #[trigger] spec_lex_at(s, i, b).tokens[k]).1.end <= spec_lex_at(
                s,
                i,
                b,
            ).tokens[k + 1].1.start,
    decreases s.len() - i,
{
    if 0 <= i < s.len() {
        let c = s[i];
        let out = spec_lex_at(s, i, b);
        if is_space_char(c) {
            lemma_lex_spans_ordered(s, i + 1, b + char_len(c));
            assert(out.tokens == spec_lex_at(s, i + 1, b + char_len(c)).tokens);
        } else if keyword_at(s, i) {
            let b2 = b + KEYWORD_LEN as int;
            lemma_lex_spans_ordered(s, i + KEYWORD_LEN as int, b2);
            let rest = spec_lex_at(s, i + KEYWORD_LEN as int, b2);
            assert forall|k: int| 0 <= k < out.tokens.len() implies b <= (
            #[trigger] out.tokens[k]).1.start < out.tokens[k].1.end by {
                if k > 0 {
                    assert(out.tokens[k] == rest.tokens[k - 1]);
                }
            }
            assert forall|k: int| 0 <= k && k + 1 < out.tokens.len() implies (
            #[trigger] out.tokens[k]).1.end <= out.tokens[k + 1].1.start by {
                assert(out.tokens[k + 1] == rest.tokens[k]);
                if k > 0 {
                    assert(out.tokens[k] == rest.tokens[k - 1]);
                }
            }
        } else if punct_token(c) is Some {
            lemma_lex_spans_ordered(s, i + 1, b + 1);
            let rest = spec_lex_at(s, i + 1, b + 1);
            assert forall|k: int| 0 <= k < out.tokens.len() implies b <= (
            #[trigger] out.tokens[k]).1.start < out.tokens[k].1.end by {
                if k > 0 {
                    assert(out.tokens[k] == rest.tokens[k - 1]);
                }
            }
            assert forall|k: int| 0 <= k && k + 1 < out.tokens.len() implies (
            #[trigger] out.tokens[k]).1.end <= out.tokens[k + 1].1.start by {
                assert(out.tokens[k + 1] == rest.tokens[k]);
                if k > 0 {
                    assert(out.tokens[k] == rest.tokens[k - 1]);
                }
            }
        } else if starts_number(s, i) {
            lemma_number_end_bounds(s, i);
            let j = number_end(s, i);
            lemma_lex_spans_ordered(s, j, b + (j - i));
            let rest = spec_lex_at(s, j, b + (j - i));
            assert forall|k: int| 0 <= k < out.tokens.len() implies b <= (
            #[trigger] out.tokens[k]).1.start < out.tokens[k].1.end by {
                if k > 0 {
                    assert(out.tokens[k] == rest.tokens[k - 1]);
                }
            }
            assert forall|k: int| 0 <= k && k + 1 < out.tokens.len() implies (
            #[trigger] out.tokens[k]).1.end <= out.tokens[k + 1].1.start by {
                assert(out.tokens[k + 1] == rest.tokens[k]);
                if k > 0 {
                    assert(out.tokens[k] == rest.tokens[k - 1]);
                }
            }
        } else if ident_start(c) {
            lemma_ident_end_bounds(s, i + 1);
            let j = ident_end(s, i + 1);
            let blen = byte_len(s.subrange(i, j));
            lemma_byte_len_ge(s.subrange(i, j));
            lemma_lex_spans_ordered(s, j, b + blen);
            let rest = spec_lex_at(s, j, b + blen);
            assert forall|k: int| 0 <= k < out.tokens.len() implies b <= (
            #[trigger] out.tokens[k]).1.start < out.tokens[k].1.end by {
                if k > 0 {
                    assert(out.tokens[k] == rest.tokens[k - 1]);
                }
            }
            assert forall|k: int| 0 <= k && k + 1 < out.tokens.len() implies (
            #[trigger] out.tokens[k]).1.end <= out.tokens[k + 1].1.start by {
                assert(out.tokens[k + 1] == rest.tokens[k]);
                if k > 0 {
                    assert(out.tokens[k] == rest.tokens[k - 1]);
                }
            }
        } else {
            lemma_lex_spans_ordered(s, i + 1, b + char_len(c));
            assert(out.tokens == spec_lex_at(s, i + 1, b + char_len(c)).tokens);
        }
    }
}

} // verus!

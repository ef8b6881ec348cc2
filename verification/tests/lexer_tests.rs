use lexington::diag::{Diagnostic, DiagnosticKind, Span};
use lexington::lexer::{lex, Token};

fn tokens(input: &str) -> Vec<Token<'_>> {
    lex(input).0.into_iter().map(|p| p.0).collect()
}

fn spanned(input: &str) -> (Vec<(Token<'_>, Span)>, Vec<Diagnostic>) {
    lex(input)
}

#[test]
fn number_lexer_works() {
    let input = "1 2.0 3.1 4.234 5 123456789 9223372036854775807";
    assert_eq!(
        tokens(input),
        vec![
            Token::Number("1"),
            Token::Number("2.0"),
            Token::Number("3.1"),
            Token::Number("4.234"),
            Token::Number("5"),
            Token::Number("123456789"),
            Token::Number("9223372036854775807"),
        ]
    );
}

#[test]
fn id_lexer_works() {
    let input = "abc123 _abc123 Abc_123 abc_123 _ aBC_123_def ABC_123_DEF a1_b2_c3";
    assert_eq!(
        tokens(input),
        vec![
            Token::Identifier("abc123"),
            Token::Identifier("_abc123"),
            Token::Identifier("Abc_123"),
            Token::Identifier("abc_123"),
            Token::Identifier("_"),
            Token::Identifier("aBC_123_def"),
            Token::Identifier("ABC_123_DEF"),
            Token::Identifier("a1_b2_c3"),
        ]
    );
}

#[test]
fn keyword_and_punctuation() {
    let input = "@define-color x @{y.z(1 2 3)};";
    assert_eq!(
        tokens(input),
        vec![
            Token::Define,
            Token::Identifier("x"),
            Token::Asperand,
            Token::LBracket,
            Token::Identifier("y"),
            Token::Dot,
            Token::Identifier("z"),
            Token::LParen,
            Token::Number("1"),
            Token::Number("2"),
            Token::Number("3"),
            Token::RParen,
            Token::RBracket,
            Token::Semi,
        ]
    );
}

#[test]
fn keyword_matched_greedily() {
    assert_eq!(tokens("@define-colorx"), vec![Token::Define, Token::Identifier("x")]);
    assert_eq!(tokens("@define"), vec![Token::Asperand, Token::Identifier("define")]);
}

#[test]
fn dash_without_digit_is_invalid() {
    let (toks, errs) = spanned("a-b");
    let kinds: Vec<Token<'_>> = toks.into_iter().map(|p| p.0).collect();
    assert_eq!(kinds, vec![Token::Identifier("a"), Token::Identifier("b")]);
    assert_eq!(errs.len(), 1);
    assert_eq!(errs[0].kind, DiagnosticKind::InvalidToken);
    assert_eq!(errs[0].message, "invalid token '-'");
    assert_eq!(errs[0].span, Span { start: 1, end: 2 });
}

#[test]
fn trailing_dot_is_not_part_of_number() {
    assert_eq!(tokens("1."), vec![Token::Number("1"), Token::Dot]);
    assert_eq!(tokens(".5"), vec![Token::Dot, Token::Number("5")]);
    assert_eq!(tokens("-5"), vec![Token::Number("-5")]);
}

#[test]
fn invalid_character_spans_only_itself() {
    let (toks, errs) = spanned("ab # cd");
    let kinds: Vec<Token<'_>> = toks.into_iter().map(|p| p.0).collect();
    assert_eq!(kinds, vec![Token::Identifier("ab"), Token::Identifier("cd")]);
    assert_eq!(errs.len(), 1);
    assert_eq!(errs[0].kind, DiagnosticKind::InvalidToken);
    assert_eq!(errs[0].span, Span { start: 3, end: 4 });
    assert_eq!(errs[0].message, "invalid token '#'");
}

#[test]
fn empty_and_whitespace_only_input() {
    let (toks, errs) = spanned("");
    assert!(toks.is_empty());
    assert!(errs.is_empty());
    let (toks, errs) = spanned(" \t\r\n");
    assert!(toks.is_empty());
    assert!(errs.is_empty());
}

#[test]
fn unicode_letters_make_identifiers() {
    let (toks, errs) = spanned("h\u{e9}llo");
    assert_eq!(toks.len(), 1);
    assert_eq!(toks[0].0, Token::Identifier("h\u{e9}llo"));
    // byte-offset span: the accented letter takes two bytes
    assert_eq!(toks[0].1, Span { start: 0, end: 6 });
    assert!(errs.is_empty());

    // a currency sign is not alphabetic, so it is no identifier character
    let (toks, errs) = spanned("\u{20ac}");
    assert!(toks.is_empty());
    assert_eq!(errs.len(), 1);
    assert_eq!(errs[0].kind, DiagnosticKind::InvalidToken);
    assert_eq!(errs[0].span, Span { start: 0, end: 3 });
}

fn same_kind(a: &Token<'_>, b: &Token<'_>) -> bool {
    matches!(
        (a, b),
        (Token::Define, Token::Define)
            | (Token::Identifier(_), Token::Identifier(_))
            | (Token::Number(_), Token::Number(_))
            | (Token::Dot, Token::Dot)
            | (Token::Asperand, Token::Asperand)
            | (Token::LBracket, Token::LBracket)
            | (Token::RBracket, Token::RBracket)
            | (Token::LParen, Token::LParen)
            | (Token::RParen, Token::RParen)
            | (Token::Semi, Token::Semi)
    )
}

#[test]
fn token_span_relexes_to_same_kind() {
    let input = "@define-color n\u{e9}m @{key.fn(-1.5 2 33.25)}; # stray";
    let (toks, _errs) = spanned(input);
    assert!(!toks.is_empty());
    for (tok, span) in &toks {
        let slice = &input[span.start..span.end];
        let (again, again_errs) = lex(slice);
        assert_eq!(again.len(), 1, "slice {:?} should lex to one token", slice);
        assert!(again_errs.is_empty());
        assert!(same_kind(tok, &again[0].0), "slice {:?} changed kind", slice);
        assert_eq!(again[0].1, Span { start: 0, end: span.end - span.start });
    }
}

#[test]
fn token_text_returns_the_source_slice() {
    let input = "@define-color x @{y(1 2 3)};";
    let (toks, _errs) = spanned(input);
    for (tok, span) in &toks {
        assert_eq!(tok.text(), &input[span.start..span.end]);
    }
}

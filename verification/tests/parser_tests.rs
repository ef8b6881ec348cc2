use lexington::diag::DiagnosticKind;
use lexington::lexer::{lex, Token};
use lexington::parser::{parse, Format, Target};

#[test]
fn shape_bare_name() {
    let src = "@define-color nm @{key};";
    let (recs, diags) = parse(src);
    let recs = recs.unwrap();
    assert!(diags.lex_errors.is_empty());
    assert!(diags.parse_errors.is_empty());
    assert_eq!(recs.len(), 1);
    let (t, span) = recs[0];
    assert_eq!(t.name, "nm");
    assert_eq!(t.key, "key");
    assert!(t.format.is_none());
    assert_eq!(span.start, 0);
    assert_eq!(span.end, src.len());
}

#[test]
fn shape_named_transform() {
    let src = "@define-color nm @{key.fn};";
    let (recs, diags) = parse(src);
    let recs = recs.unwrap();
    assert!(diags.lex_errors.is_empty());
    assert!(diags.parse_errors.is_empty());
    assert_eq!(recs.len(), 1);
    let (t, _span) = recs[0];
    assert_eq!(t.name, "nm");
    assert_eq!(t.key, "key");
    assert_eq!(t.format, Some(Format::Name("fn")));
}

#[test]
fn shape_values_only() {
    let src = "@define-color nm @{key(1 2.5 3)};";
    let (recs, diags) = parse(src);
    let recs = recs.unwrap();
    assert!(diags.lex_errors.is_empty());
    assert!(diags.parse_errors.is_empty());
    assert_eq!(recs.len(), 1);
    let (t, _span) = recs[0];
    assert_eq!(t.format, Some(Format::Values(("1", "2.5", "3"))));
}

#[test]
fn shape_full_format() {
    let src = "@define-color nm @{key.fn(1 2 3)};";
    let (recs, diags) = parse(src);
    let recs = recs.unwrap();
    assert!(diags.lex_errors.is_empty());
    assert!(diags.parse_errors.is_empty());
    assert_eq!(recs.len(), 1);
    let (t, span) = recs[0];
    assert_eq!(t, Target { name: "nm", key: "key", format: Some(Format::Full("fn", ("1", "2", "3"))) });
    assert_eq!((span.start, span.end), (0, src.len()));
}

#[test]
fn keyword_is_optional() {
    let src = "nm @{key};";
    let (recs, diags) = parse(src);
    let recs = recs.unwrap();
    assert!(diags.parse_errors.is_empty());
    assert_eq!(recs.len(), 1);
    assert_eq!(recs[0].0.name, "nm");
}

#[test]
fn arity_two_is_rejected() {
    let src = "@define-color nm @{key(1 2)};";
    let (recs, diags) = parse(src);
    let recs = recs.unwrap();
    assert!(recs.is_empty());
    assert_eq!(diags.parse_errors.len(), 1);
    assert_eq!(diags.parse_errors[0].kind, DiagnosticKind::ArityMismatch);
    // the diagnostic covers the parenthesized list
    let open = src.find('(').unwrap();
    let close = src.find(')').unwrap();
    assert_eq!(diags.parse_errors[0].span.start, open);
    assert_eq!(diags.parse_errors[0].span.end, close + 1);
}

#[test]
fn arity_four_is_rejected() {
    let src = "@define-color nm @{key(1 2 3 4)};";
    let (recs, diags) = parse(src);
    let recs = recs.unwrap();
    assert!(recs.is_empty());
    assert_eq!(diags.parse_errors.len(), 1);
    assert_eq!(diags.parse_errors[0].kind, DiagnosticKind::ArityMismatch);
}

#[test]
fn recovery_around_malformed_middle_statement() {
    let src = "@define-color a @{b(1 2 3)}; @define-color BAD @{ @{c}; @define-color d @{e(4 5 6)};";
    let (recs, diags) = parse(src);
    let recs = recs.unwrap();
    assert_eq!(recs.len(), 2);
    assert_eq!(recs[0].0.name, "a");
    assert_eq!(recs[0].0.key, "b");
    assert_eq!(recs[1].0.name, "d");
    assert_eq!(recs[1].0.key, "e");
    assert!(diags.parse_errors.len() >= 1);
    // the diagnostic is localized to the malformed middle region
    let first_end = src.find(';').unwrap();
    let d_start = src.find("@define-color d").unwrap();
    let e = &diags.parse_errors[0];
    assert!(e.span.start > first_end);
    assert!(e.span.end < d_start);
}

#[test]
fn invalid_character_does_not_break_statement() {
    let src = "@define-color a @{b#};";
    let (recs, diags) = parse(src);
    let recs = recs.unwrap();
    assert_eq!(recs.len(), 1);
    assert_eq!(recs[0].0.name, "a");
    assert_eq!(recs[0].0.key, "b");
    assert_eq!(diags.lex_errors.len(), 1);
    assert_eq!(diags.lex_errors[0].kind, DiagnosticKind::InvalidToken);
    let hash = src.find('#').unwrap();
    assert_eq!(diags.lex_errors[0].span.start, hash);
    assert_eq!(diags.lex_errors[0].span.end, hash + 1);
    assert!(diags.parse_errors.is_empty());
}

#[test]
fn numeric_conversion_is_deferred_and_consistent() {
    let src = "@define-color a @{b(-618.4368 0 1)};";
    let (recs, _diags) = parse(src);
    let recs = recs.unwrap();
    assert_eq!(recs.len(), 1);
    let after: f32 = match recs[0].0.format {
        Some(Format::Values(v)) => v.0.parse().unwrap(),
        _ => panic!("expected a values format"),
    };
    // converting the raw token text directly gives the same value
    let (toks, _) = lex("-618.4368");
    let during: f32 = match toks[0].0 {
        Token::Number(s) => s.parse().unwrap(),
        _ => panic!("expected a number token"),
    };
    assert_eq!(after, during);
    assert_eq!(after, -618.4368f32);
}

#[test]
fn parsing_twice_is_identical() {
    let src = "@define-color a @{b(1 2 3)}; junk # @define-color BAD @{; x @{y.z};";
    let r1 = parse(src);
    let r2 = parse(src);
    assert_eq!(r1, r2);
}

#[test]
fn wrong_token_gives_expected_diagnostic() {
    let src = "@define-color 1 @{b};";
    let (recs, diags) = parse(src);
    assert!(recs.unwrap().is_empty());
    assert_eq!(diags.parse_errors.len(), 1);
    let e = &diags.parse_errors[0];
    assert_eq!(e.kind, DiagnosticKind::Expected);
    assert_eq!(e.message, "expected identifier, found number");
    assert_eq!(e.contexts.len(), 1);
    assert_eq!(e.contexts[0].0, "statement");
}

#[test]
fn unterminated_at_end_of_input() {
    let src = "@define-color a @{b";
    let (recs, diags) = parse(src);
    assert!(recs.unwrap().is_empty());
    assert_eq!(diags.parse_errors.len(), 1);
    assert_eq!(diags.parse_errors[0].kind, DiagnosticKind::UnterminatedStatement);
}

#[test]
fn unterminated_before_next_statement() {
    let src = "@define-color a @{b @define-color c @{d};";
    let (recs, diags) = parse(src);
    let recs = recs.unwrap();
    assert_eq!(recs.len(), 1);
    assert_eq!(recs[0].0.name, "c");
    assert_eq!(diags.parse_errors.len(), 1);
    assert_eq!(diags.parse_errors[0].kind, DiagnosticKind::UnterminatedStatement);
}

#[test]
fn context_frames_are_innermost_first() {
    // a value list that never closes: value list, format, statement frames
    let src = "@define-color a @{b(1 2";
    let (_recs, diags) = parse(src);
    assert_eq!(diags.parse_errors.len(), 1);
    let e = &diags.parse_errors[0];
    assert_eq!(e.kind, DiagnosticKind::UnterminatedStatement);
    let labels: Vec<&str> = e.contexts.iter().map(|c| c.0).collect();
    assert_eq!(labels, vec!["value list", "format", "statement"]);
    // each frame starts where its rule began
    assert_eq!(e.contexts[0].1.start, src.find('(').unwrap());
    assert_eq!(e.contexts[2].1.start, 0);
}

#[test]
fn statements_parse_on_both_sides_of_junk() {
    let src = "@define-color a @{b}; ) @define-color c @{d};";
    let (recs, diags) = parse(src);
    let recs = recs.unwrap();
    assert_eq!(recs.len(), 2);
    assert_eq!(recs[0].0.name, "a");
    assert_eq!(recs[1].0.name, "c");
    assert_eq!(diags.parse_errors.len(), 1);
    assert_eq!(diags.parse_errors[0].kind, DiagnosticKind::Expected);
    assert_eq!(diags.parse_errors[0].message, "expected statement, found ')'");
}

#[test]
fn stylesheet_block_parses_fully() {
    let src = "\
@define-color onPrimary_shifted @{on_primary.rgb(20 30 -20)};
@define-color primaryContainer @{primary_container.strip(20 30 -20)};
@define-color onPrimaryContainer @{on_primary_container(20 30 -20)};
@define-color secondaryContainer @{secondary_container.rgba};
@define-color onSecondaryContainer @{on_secondary_container};
";
    let (recs, diags) = parse(src);
    let recs = recs.unwrap();
    assert!(diags.lex_errors.is_empty());
    assert!(diags.parse_errors.is_empty());
    assert_eq!(recs.len(), 5);
    assert_eq!(recs[0].0.key, "on_primary");
    assert_eq!(recs[0].0.format, Some(Format::Full("rgb", ("20", "30", "-20"))));
    assert_eq!(recs[2].0.format, Some(Format::Values(("20", "30", "-20"))));
    assert_eq!(recs[3].0.format, Some(Format::Name("rgba")));
    assert_eq!(recs[4].0.format, None);
    // records carry the span of their whole construct, in order
    for w in recs.windows(2) {
        assert!(w[0].1.end <= w[1].1.start);
    }
}

use xl::syntax::xl::lexer::{stable_root_prefix, tokenize, tokenize_fragments, Token};
use xl::syntax::SyntaxError;

fn span(tokens: &(Vec<Token>, Vec<xl::syntax::Span>), k: usize) -> std::ops::Range<usize> {
    tokens.1[k].range()
}

#[test]
fn recognizes_structured_string_slices_without_payloads() {
    let mut diagnostics: Vec<SyntaxError> = Vec::new();
    let lexed = tokenize(r#""hi, \{name}\n""#, &mut diagnostics);
    assert!(diagnostics.is_empty());
    assert_eq!(
        lexed.0,
        vec![
            Token::DoubleQuote,
            Token::StringText,
            Token::InterpolationStart,
            Token::Identifier,
            Token::RBrace,
            Token::EscapeSequence,
            Token::DoubleQuote,
        ]
    );
    assert_eq!(span(&lexed, 1), 1..5);
    assert_eq!(span(&lexed, 2), 5..7);
    assert_eq!(span(&lexed, 5), 12..14);

    let lexed = tokenize(r#"let x = "text""#, &mut diagnostics);
    let quote = lexed.0.iter().position(|token| *token == Token::DoubleQuote).unwrap();
    assert_eq!(span(&lexed, quote), 8..9);
    assert_eq!(span(&lexed, quote + 1), 9..13);
    assert_eq!(span(&lexed, quote + 2), 13..14);
}

#[test]
fn recognizes_bare_and_indexed_placeholders_as_dedicated_tokens() {
    let mut diagnostics: Vec<SyntaxError> = Vec::new();
    let lexed = tokenize(r"f\(_, _1, _0, _name)", &mut diagnostics);
    assert!(diagnostics.is_empty());
    assert_eq!(
        lexed.0,
        vec![
            Token::Identifier,
            Token::SectionLParen,
            Token::Placeholder,
            Token::Comma,
            Token::Whitespace,
            Token::IndexedPlaceholder,
            Token::Comma,
            Token::Whitespace,
            Token::IndexedPlaceholder,
            Token::Comma,
            Token::Whitespace,
            Token::Identifier,
            Token::RParen,
        ]
    );
    assert_eq!(span(&lexed, 2), 3..4);
    assert_eq!(span(&lexed, 5), 6..8);
    assert_eq!(span(&lexed, 11), 14..19);
}

#[test]
fn preserves_unknown_and_unterminated_escapes_as_tokens() {
    let mut diagnostics: Vec<SyntaxError> = Vec::new();
    let lexed = tokenize(r#""a\(b""#, &mut diagnostics);
    assert_eq!(lexed.0[2], Token::UnknownEscapeSequence);
    assert_eq!(span(&lexed, 2), 2..4);
    assert_eq!(diagnostics.len(), 1);

    diagnostics.clear();
    let lexed = tokenize("\"a\\", &mut diagnostics);
    assert_eq!(lexed.0.last(), Some(&Token::UnterminatedEscapeSequence));
    assert_eq!(lexed.1.last().map(|s| s.range()), Some(2..3));
    assert_eq!(diagnostics.len(), 1);
}

#[test]
fn keywords_numbers_bytes_and_operators() {
    let mut diagnostics: Vec<SyntaxError> = Vec::new();
    let lexed = tokenize("letter let 12.5 3. b\"x\\\"y\" 'Ok == => -> |> // c", &mut diagnostics);
    let kinds: Vec<Token> = lexed.0.iter().copied().filter(|t| *t != Token::Whitespace).collect();
    assert_eq!(
        kinds,
        vec![
            Token::Identifier,
            Token::Let,
            Token::Float,
            Token::Int,
            Token::Dot,
            Token::Bytes,
            Token::Atom,
            Token::EqualEqual,
            Token::FatArrow,
            Token::Arrow,
            Token::Pipe,
            Token::Comment,
        ]
    );
    assert!(diagnostics.is_empty());
}

#[test]
fn invalid_bytes_become_one_character_error_tokens() {
    let mut diagnostics: Vec<SyntaxError> = Vec::new();
    let lexed = tokenize("中|", &mut diagnostics);
    assert_eq!(lexed.0, vec![Token::Error, Token::Error]);
    assert_eq!(span(&lexed, 0), 0..3);
    assert_eq!(span(&lexed, 1), 3..4);
    assert_eq!(diagnostics.len(), 2);
    assert_eq!(diagnostics[0].message, "invalid token");
}

#[test]
fn spans_tile_the_source() {
    let source = "let x = \"a \\{ {b: 1} } c\"; x |> f\\(_0)";
    let mut diagnostics: Vec<SyntaxError> = Vec::new();
    let lexed = tokenize(source, &mut diagnostics);
    let mut rebuilt = String::new();
    for s in &lexed.1 {
        rebuilt.push_str(&source[s.range()]);
    }
    assert_eq!(rebuilt, source);
}

#[test]
fn chunk_bridge_matches_contiguous_lexing() {
    let samples = [
        "let identifier = 123.456 // comment\nidentifier",
        r#"b\"bytes\" \"text \{name} tail\""#,
        "_12 |> transform\\(_1, 2)",
        "let 中 = \"emoji 😀 and escape \\n\"; 中",
    ];
    let view = |diags: &Vec<xl::syntax::SyntaxError>| -> Vec<(String, usize, usize)> {
        diags
            .iter()
            .map(|d| (d.message.clone(), d.span.start, d.span.end))
            .collect()
    };
    for sample in samples {
        let mut expected_diags = Vec::new();
        let expected = tokenize(sample, &mut expected_diags);
        for split in sample
            .char_indices()
            .map(|(index, _)| index)
            .chain(std::iter::once(sample.len()))
        {
            let mut actual_diags = Vec::new();
            let actual = tokenize_fragments(
                &[sample.get(..split).unwrap(), sample.get(split..).unwrap()],
                &mut actual_diags,
            );
            assert_eq!(actual, expected, "split at {split} in {sample:?}");
            assert_eq!(
                view(&actual_diags),
                view(&expected_diags),
                "split at {split} in {sample:?}"
            );
        }
    }
}

#[test]
fn stable_prefix_stops_at_root_with_eight_tokens_after() {
    let mut tokens = vec![Token::DoubleQuote, Token::StringText, Token::DoubleQuote];
    assert_eq!(stable_root_prefix(&tokens), 0);
    tokens.extend(std::iter::repeat(Token::Whitespace).take(8));
    assert_eq!(stable_root_prefix(&tokens), 3);
    let inside = vec![Token::DoubleQuote; 1]
        .into_iter()
        .chain(std::iter::repeat(Token::StringText).take(10))
        .collect::<Vec<_>>();
    assert_eq!(stable_root_prefix(&inside), 0);
}

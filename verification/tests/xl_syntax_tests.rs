use xl::source::SourceDatabase;
use xl::syntax::xl::lexer::Token;
use xl::syntax::xl::parse;
use xl::syntax::xl::parser::{CstData, Node, NodeRef, Rule};

fn reconstruct(cst: &CstData, source: &str, node: NodeRef, output: &mut String) {
    match cst.get(node) {
        Node::Token(..) => output.push_str(&source[cst.span(node)]),
        Node::Rule(..) => {
            for child in cst.children(node) {
                reconstruct(cst, source, child, output);
            }
        }
    }
}

fn find_rule(cst: &CstData, node: NodeRef, expected: Rule) -> Option<NodeRef> {
    if matches!(cst.get(node), Node::Rule(rule, _) if rule == expected) {
        return Some(node);
    }
    cst.children(node)
        .into_iter()
        .find_map(|child| find_rule(cst, child, expected))
}

fn collect_tokens(cst: &CstData, node: NodeRef) -> Vec<Token> {
    match cst.get(node) {
        Node::Token(token, _) => vec![token],
        Node::Rule(..) => cst
            .children(node)
            .into_iter()
            .flat_map(|child| collect_tokens(cst, child))
            .collect(),
    }
}

#[test]
fn cst_is_lossless_and_recovery_collects_diagnostics() {
    let source = "let x = 1 // keep me\n let y = ;\n match x { => 1, _ => }";
    let mut sources = SourceDatabase::new();
    let id = sources.add("broken.xl", source);
    let parsed = parse(id, source);
    let mut reconstructed = String::new();
    reconstruct(&parsed.syntax, source, NodeRef::root(), &mut reconstructed);
    assert_eq!(reconstructed, source);
    assert!(parsed.diagnostics.len() >= 2);
}

#[test]
fn unknown_escape_remains_inside_a_queryable_string() {
    let source = r#""a\(b""#;
    let mut sources = SourceDatabase::new();
    let id = sources.add("escape.xl", source);
    let parsed = parse(id, source);
    assert_eq!(parsed.diagnostics.len(), 1);
    assert_eq!(
        parsed.diagnostics[0].labels[0].location.range.to_usize(),
        2..4
    );
    let string_node = find_rule(&parsed.syntax, NodeRef::root(), Rule::StringLiteral)
        .expect("string literal remains in CST");
    let parts = parsed
        .syntax
        .children(string_node)
        .into_iter()
        .filter_map(|part| match parsed.syntax.get(part) {
            Node::Token(Token::DoubleQuote, _) => None,
            Node::Token(token, _) => Some(token),
            Node::Rule(..) => None,
        })
        .collect::<Vec<_>>();
    assert_eq!(
        parts,
        [
            Token::StringText,
            Token::UnknownEscapeSequence,
            Token::StringText
        ]
    );
    let mut reconstructed = String::new();
    reconstruct(&parsed.syntax, source, NodeRef::root(), &mut reconstructed);
    assert_eq!(reconstructed, source);
}

#[test]
fn cst_preserves_string_quotes_text_escapes_and_interpolation() {
    let source = r#""hi\n \{name}""#;
    let mut sources = SourceDatabase::new();
    let id = sources.add("strings.xl", source);
    let parsed = parse(id, source);
    assert!(!parsed.has_errors(), "{:?}", parsed.diagnostics);
    let tokens = parsed
        .syntax
        .children(NodeRef::root())
        .into_iter()
        .flat_map(|node| collect_tokens(&parsed.syntax, node))
        .collect::<Vec<_>>();
    assert_eq!(
        tokens,
        vec![
            Token::DoubleQuote,
            Token::StringText,
            Token::EscapeSequence,
            Token::StringText,
            Token::InterpolationStart,
            Token::Identifier,
            Token::RBrace,
            Token::DoubleQuote,
        ]
    );
    let mut reconstructed = String::new();
    reconstruct(&parsed.syntax, source, NodeRef::root(), &mut reconstructed);
    assert_eq!(reconstructed, source);
}

#[test]
fn cst_preserves_explicit_call_sections() {
    let source = r"value |> transform\(_1, 123, _0)";
    let mut sources = SourceDatabase::new();
    let id = sources.add("section.xl", source);
    let parsed = parse(id, source);
    assert!(!parsed.has_errors(), "{:?}", parsed.diagnostics);
    let mut reconstructed = String::new();
    reconstruct(&parsed.syntax, source, NodeRef::root(), &mut reconstructed);
    assert_eq!(reconstructed, source);
    let tokens = collect_tokens(&parsed.syntax, NodeRef::root());
    assert!(tokens.contains(&Token::SectionLParen));
    assert!(tokens.contains(&Token::IndexedPlaceholder));
}

#[test]
fn cst_stays_lossless_on_arbitrary_input() {
    for source in ["", "let", "let = ;", "let x = 1, 2; let y = 3; y", "\0", "let 名字 = ; 名字", "}}{{ ))", "\"\\{"] {
        let mut sources = SourceDatabase::new();
        let id = sources.add("sample.xl", source);
        let parsed = parse(id, source);
        let mut reconstructed = String::new();
        reconstruct(&parsed.syntax, source, NodeRef::root(), &mut reconstructed);
        assert_eq!(reconstructed, source);
    }
}

#[test]
fn every_invalid_token_has_a_diagnostic_at_its_span() {
    let source = "let x = 1 | 2; x";
    let mut sources = SourceDatabase::new();
    let id = sources.add("invalid.xl", source);
    let parsed = parse(id, source);
    assert!(parsed.diagnostics.iter().any(|d| d.message == "invalid token"
        && d.labels[0].location.range.to_usize() == (10..11)));
    for pair in parsed.diagnostics.windows(2) {
        assert!(pair[0].labels[0].location.range.start <= pair[1].labels[0].location.range.start);
    }
}

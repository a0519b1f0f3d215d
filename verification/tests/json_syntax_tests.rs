use xl::source::SourceDatabase;
use xl::syntax::json::lexer::{tokenize, Token};
use xl::syntax::json::parse;
use xl::syntax::json::parser::{CstData, Node, NodeRef, Rule};
use xl::json::decode_string;
use xl::syntax::SyntaxError;

fn reconstruct(cst: &CstData, source: &str, node: NodeRef, output: &mut String) {
    match cst.get(node) {
        Node::Token(..) => output.push_str(&source[cst.span(node)]),
        Node::Rule(..) => {
            for child in cst.children(node) {
                reconstruct(cst, source, child, output);
            }
        }
    }
}

fn rules(cst: &CstData, node: NodeRef, out: &mut Vec<Rule>) {
    if let Node::Rule(rule, _) = cst.get(node) {
        out.push(rule);
        for child in cst.children(node) {
            rules(cst, child, out);
        }
    }
}

fn messages(source: &str) -> Vec<String> {
    let mut sources = SourceDatabase::new();
    let id = sources.add("data.json", source);
    let parsed = parse(id, source);
    let mut reconstructed = String::new();
    reconstruct(&parsed.syntax, source, NodeRef::root(), &mut reconstructed);
    assert_eq!(reconstructed, source);
    parsed.diagnostics.iter().map(|d| d.message.clone()).collect()
}

#[test]
fn recognizes_text_and_each_escape_as_source_ranges() {
    let mut diagnostics: Vec<SyntaxError> = Vec::new();
    let (tokens, spans) = tokenize(r#""a\n\u0041b""#, &mut diagnostics);
    assert!(diagnostics.is_empty());
    assert_eq!(
        tokens,
        vec![
            Token::DoubleQuote,
            Token::StringText,
            Token::EscapeSequence,
            Token::EscapeSequence,
            Token::StringText,
            Token::DoubleQuote,
        ]
    );
    assert_eq!(spans[2].range(), 2..4);
    assert_eq!(spans[3].range(), 4..10);

    let (tokens, spans) = tokenize(r#"["text"]"#, &mut diagnostics);
    assert_eq!(tokens[1], Token::DoubleQuote);
    assert_eq!(spans[1].range(), 1..2);
    assert_eq!(spans[2].range(), 2..6);
    assert_eq!(spans[3].range(), 6..7);
}

#[test]
fn cst_is_lossless_for_json_trivia() {
    let source = "{\n  \"ok\": true\n}";
    let mut sources = SourceDatabase::new();
    let id = sources.add("data.json", source);
    let parsed = parse(id, source);
    assert!(!parsed.has_errors());
    let mut reconstructed = String::new();
    reconstruct(&parsed.syntax, source, NodeRef::root(), &mut reconstructed);
    assert_eq!(reconstructed, source);
}

#[test]
fn documents_nest_objects_members_arrays_and_literals() {
    let source = r#" {"a": [1, -2.5e3, "x\u0041"], "b": {"c": null, "d": false}} "#;
    let mut sources = SourceDatabase::new();
    let id = sources.add("data.json", source);
    let parsed = parse(id, source);
    assert!(parsed.diagnostics.is_empty());
    let mut found = Vec::new();
    rules(&parsed.syntax, NodeRef::root(), &mut found);
    assert_eq!(
        found,
        vec![
            Rule::Document,
            Rule::Object,
            Rule::Member,
            Rule::String,
            Rule::Array,
            Rule::Literal,
            Rule::Literal,
            Rule::String,
            Rule::Member,
            Rule::String,
            Rule::Object,
            Rule::Member,
            Rule::String,
            Rule::Literal,
            Rule::Member,
            Rule::String,
            Rule::Literal,
        ]
    );
    // The root spans the whole text; the object inside it starts at `{`.
    assert_eq!(parsed.syntax.span(NodeRef::root()), 0..source.len() - 1);
    let object = parsed.syntax.children(NodeRef::root())[1];
    assert_eq!(parsed.syntax.span(object).start, 1);
}

#[test]
fn malformed_documents_report_and_stay_lossless() {
    assert!(messages("").contains(&"expected a JSON value".to_string()));
    assert_eq!(messages("[1,]"), vec!["expected a JSON value".to_string()]);
    assert_eq!(messages("{\"a\" 1}"), vec!["expected `:`".to_string()]);
    assert_eq!(messages("[1 2]"), vec!["expected `,` or `]`".to_string()]);
    assert_eq!(messages("{\"a\": 1"), vec!["expected `,` or `}`".to_string()]);
    assert_eq!(messages("\"abc"), vec!["unterminated string".to_string()]);
    assert_eq!(messages("1 2"), vec!["expected end of input".to_string()]);
    assert_eq!(messages("{\"a\": 1 \"b\": 2}"), vec!["expected `,` or `}`".to_string()]);
    assert_eq!(messages("{1: 2}")[0], "expected a string");
}

#[test]
fn invalid_tokens_come_first_among_the_diagnostics() {
    let source = "[1, @, 2";
    let mut sources = SourceDatabase::new();
    let id = sources.add("data.json", source);
    let parsed = parse(id, source);
    assert_eq!(parsed.diagnostics[0].message, "invalid token");
    assert_eq!(parsed.diagnostics[0].labels[0].location.range.to_usize(), 4..5);
    assert_eq!(parsed.diagnostics[1].message, "expected a JSON value");
    assert_eq!(parsed.diagnostics[2].message, "expected `,` or `]`");
    assert_eq!(parsed.diagnostics.len(), 3);
}

#[test]
fn decodes_unicode_surrogate_pairs() {
    assert_eq!(decode_string(r#""\uD83D\uDE00""#).unwrap(), "😀");
}

#[test]
fn decodes_every_escape_and_keeps_other_text() {
    assert_eq!(
        decode_string(r#""a\"\\\/\b\f\n\r\t\u0041é""#).unwrap(),
        "a\"\\/\u{8}\u{c}\n\r\tAé"
    );
    assert_eq!(decode_string(r#""""#).unwrap(), "");
}

#[test]
fn reports_bad_escapes() {
    assert_eq!(decode_string(r#""\x""#).unwrap_err(), "invalid JSON escape \\x");
    assert_eq!(
        decode_string(r#""\u12""#).unwrap_err(),
        "Unicode escape requires four hex digits"
    );
    assert_eq!(
        decode_string(r#""\uD83D""#).unwrap_err(),
        "high surrogate requires a low surrogate"
    );
    assert_eq!(decode_string(r#""\uD83D\u0041""#).unwrap_err(), "invalid low surrogate");
    assert_eq!(decode_string(r#""\uDE00""#).unwrap_err(), "unexpected low surrogate");
}

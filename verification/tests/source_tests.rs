use xl::source::{Diagnostic, Location, SourceDatabase, TextRange};

#[test]
fn compact_layout_and_checked_ranges() {
    assert_eq!(std::mem::size_of::<xl::source::SourceId>(), 4);
    assert_eq!(std::mem::size_of::<TextRange>(), 8);
    assert_eq!(std::mem::size_of::<Location>(), 12);
    assert!(TextRange::new(2, 1).is_err());
    assert!(TextRange::from_usize(0..usize::MAX).is_err());
}

#[test]
fn resolves_utf8_byte_offsets_to_character_columns() {
    let mut sources = SourceDatabase::new();
    let source = sources.add("utf8.xl", "一二\n  x");
    let location = Location::new(source, TextRange::new(9, 10).unwrap());
    let diagnostic = Diagnostic::error("bad value".to_string(), location);
    assert_eq!(sources.render(&diagnostic), "utf8.xl:2:3: bad value");
}

#[test]
fn validation_diagnostic_can_label_data_and_rule_sources() {
    let mut sources = SourceDatabase::new();
    let data = sources.add("user.json", "{\"age\":\"old\"}");
    let rule = sources.add("schema.xl", "type User = Int;");
    let diagnostic = Diagnostic::error(
        "expected Int".to_string(),
        Location::new(data, TextRange::new(7, 12).unwrap()),
    )
    .with_secondary(
        "required by User".to_string(),
        Location::new(rule, TextRange::new(12, 15).unwrap()),
    );
    assert_eq!(
        sources.render(&diagnostic),
        "user.json:1:8: expected Int\n  schema.xl:1:13: required by User"
    );
}

#[test]
fn positions_count_lines_and_characters() {
    let mut sources = SourceDatabase::new();
    let id = sources.add("a.xl", "ab\ncd\n\nxyz");
    let file = sources.get(id);
    let p = file.position(0);
    assert_eq!((p.line, p.column), (1, 1));
    let p = file.position(4);
    assert_eq!((p.line, p.column), (2, 2));
    let p = file.position(7);
    assert_eq!((p.line, p.column), (4, 1));
    let p = file.position(1000);
    assert_eq!((p.line, p.column), (4, 4));
}

#[test]
fn rendering_without_a_primary_label_is_the_bare_message() {
    let sources = SourceDatabase::new();
    let diagnostic = Diagnostic {
        severity: xl::source::Severity::Error,
        message: "plain".to_string(),
        labels: Vec::new(),
        notes: Vec::new(),
    };
    assert_eq!(sources.render(&diagnostic), "plain");
}

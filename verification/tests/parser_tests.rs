use xl::ast::{BinaryOperator, BindingKind, ExprKind, PatternKind, StringPartKind};
use xl::parser::parse;

#[test]
fn comparisons_share_a_non_associative_precedence_level() {
    let chained = parse("test", "1 < 2 == 3").unwrap_err();
    assert!(chained.message.contains("do not associate"));
    assert!(parse("test", "(1 < 2) == 3").is_ok());
    assert!(parse("test", "1 < (2 == 3)").is_ok());
}

#[test]
fn lowers_generic_definition_declarations_with_located_parameters() {
    let program = parse(
        "identity.xl",
        "decl identity: for(A) Fn(A) -> A; def identity = fn(value) { value }; identity",
    )
    .unwrap();
    let declaration = &program.value.body.value.bindings[0];
    assert_eq!(declaration.value.kind, BindingKind::Decl);
    assert_eq!(declaration.value.type_parameters.len(), 1);
    assert_eq!(declaration.value.type_parameters[0].value, "A");
    assert_eq!(
        declaration.value.type_parameters[0].location.range.to_usize(),
        19..20
    );
    assert!(declaration.value.annotation.is_some());
}

#[test]
fn lowers_located_native_bindings_with_contracts() {
    let program = parse(
        "native.xl",
        "native map: for(A, B) Fn(Array(A), Fn(A) -> B) -> Array(B); map",
    )
    .unwrap();
    let binding = &program.value.body.value.bindings[0];
    assert_eq!(binding.value.kind, BindingKind::Native);
    assert_eq!(binding.value.name.value, "map");
    assert_eq!(
        binding
            .value
            .type_parameters
            .iter()
            .map(|parameter| parameter.value.as_str())
            .collect::<Vec<_>>(),
        vec!["A", "B"]
    );
    assert_eq!(binding.value.type_parameters[0].location.range.to_usize(), 16..17);
    assert!(binding.value.annotation.is_some());
    assert_eq!(binding.location.range.to_usize(), 0..59);
}

#[test]
fn rejects_interpolation_in_plain_string_contexts() {
    let error = parse("test", r#"match "x" { "\{1}" => 1 }"#).unwrap_err();
    assert!(error.message.contains("not allowed in string pattern"));

    let key_error = parse("test", r#"{"\{"x"}": 1}"#).unwrap_err();
    assert!(key_error.message.contains("not allowed in Dict field name"));
}

#[test]
fn reports_invalid_and_unterminated_string_parts() {
    let invalid = parse("test", r#""bad\q""#).unwrap_err();
    assert!(invalid.message.contains("unsupported string escape"));
    assert_eq!(invalid.location.offset, 4);

    let unterminated = parse("test", r#""unfinished"#).unwrap_err();
    assert!(unterminated.message.contains("expected"));
}

#[test]
fn lowers_directly_from_cst_with_spans_and_precedence() {
    let program = parse("test.xl", "let x = 1; x == 2").unwrap();
    assert_eq!(program.location.range.to_usize(), 0..17);
    assert_eq!(
        program.value.body.value.bindings[0].location.range.to_usize(),
        0..10
    );
    assert!(matches!(
        &program.value.body.value.result.value,
        ExprKind::Binary { operator, .. } if operator.value == BinaryOperator::Equal
    ));
}

#[test]
fn lowers_tagged_patterns() {
    let program = parse("test.xl", "match 'Some(1) { 'Some(value) => value }").unwrap();
    let ExprKind::Match { arms, .. } = &program.value.body.value.result.value else {
        panic!("expected match");
    };
    assert!(
        matches!(
            &arms[0].value.pattern.value,
            PatternKind::Tagged { payload, .. }
                if matches!(payload.value, PatternKind::Binding(_))
        ),
        "{:?}",
        arms[0].value.pattern.value
    );
}

#[test]
fn lowers_interpolation_with_located_text_and_expression_parts() {
    let program = parse("test", r#"let name = "Ada"; "hi, \{name}""#).unwrap();
    let ExprKind::InterpolatedString(parts) = &program.value.body.value.result.value else {
        panic!("expected interpolated string");
    };
    assert_eq!(parts.len(), 2);
    assert!(matches!(&parts[0].value, StringPartKind::Text(text) if text == "hi, "));
    assert!(matches!(
        &parts[1].value,
        StringPartKind::Expression(expression)
            if matches!(&expression.value, ExprKind::Variable(name) if name.value == "name")
    ));
    assert_eq!(parts[1].location.range.to_usize(), 25..29);
}

#[test]
fn lowers_definition_bindings_and_function_contracts() {
    let program = parse("defs.xl", "decl f: Fn(Int) -> Int; def f = fn(x) { x }; f").unwrap();
    assert_eq!(program.value.body.value.bindings.len(), 2);
    assert_eq!(
        program.value.body.value.bindings[0].value.kind,
        BindingKind::Decl
    );
    assert_eq!(
        program.value.body.value.bindings[1].value.kind,
        BindingKind::Def
    );
    assert!(matches!(
        program.value.body.value.bindings[0]
            .value
            .annotation
            .as_ref()
            .map(|annotation| &annotation.value),
        Some(ExprKind::Call { .. })
    ));
}

#[test]
fn retains_decorators_and_lowers_their_rhs_calls() {
    let program = parse(
        "decorators.xl",
        "@outer @factory(1) type T = Int; { @field value: 2 }",
    )
    .unwrap();
    let binding = &program.value.body.value.bindings[0];
    assert_eq!(binding.value.decorators.len(), 2);
    assert!(!binding.value.decorators[0].value.configured);
    assert!(binding.value.decorators[1].value.configured);
    assert!(matches!(binding.value.value.value, ExprKind::Call { .. }));
    let ExprKind::Dict(fields) = &program.value.body.value.result.value else {
        panic!("expected Dict")
    };
    assert_eq!(fields[0].value.decorators.len(), 1);
    assert!(matches!(fields[0].value.value.value, ExprKind::Call { .. }));
}

#[test]
fn exposes_recovery_as_the_earliest_error() {
    // The damaged binding itself starts before the missing value.
    let error = parse("broken.xl", "let x = ; let y = ; y").unwrap_err();
    assert_eq!(error.source_name, "broken.xl");
    assert_eq!(error.location.offset, 0);
    assert!(error.message.contains("binding has no value"));
    let error = parse("broken.xl", "let x = 1;\n(").unwrap_err();
    assert_eq!(error.location.offset, 12);
    assert_eq!(error.location.line, 2);
    assert_eq!(error.location.column, 2);
    assert!(error.message.contains("expected `)`"));
}

#[test]
fn diagnoses_invalid_placeholder_sections_with_source_locations() {
    let cases = [
        ("mixed.xl", "let f = fn(a, b) { a }; f\\(_0, _)", "cannot mix"),
        ("gap.xl", "let f = fn(a, b) { a }; f\\(_2, _0)", "missing _1"),
        ("limit.xl", "let f = fn(a) { a }; f\\(_65535)", "exceeds the limit"),
        (
            "overflow.xl",
            "let f = fn(a) { a }; f\\(_999999999999999999999999999999999)",
            "exceeds the supported range",
        ),
    ];
    for (name, source, expected) in cases {
        let error = parse(name, source).unwrap_err();
        let rendered = error.to_display_string();
        assert!(rendered.contains(expected), "{rendered}");
        assert!(rendered.contains(&format!("{name}:1:")), "{rendered}");
        assert_eq!(error.source_name, name);
        assert_eq!(error.location.line, 1);
    }
    assert!(parse("outside.xl", "let value = _; value").is_err());
    for (name, source) in [
        ("ordinary-call.xl", "let f = fn(a, b) { a }; f(_, 1)"),
        ("reserved-name.xl", "let _0 = 1; _0"),
    ] {
        assert!(parse(name, source).is_err(), "{name} unexpectedly lowered");
    }
    let error = parse("empty-section.xl", "let f = fn(a) { a }; f\\(1)").unwrap_err();
    assert!(error.message.contains("requires at least one placeholder"));
}

#[test]
fn elaborates_call_sections_into_closures() {
    let program = parse("section.xl", "let f = fn(a, b) { a }; f\\(_1, _0)").unwrap();
    let ExprKind::Closure { parameters, .. } = &program.value.body.value.result.value else {
        panic!("expected closure");
    };
    assert_eq!(parameters.len(), 2);
    assert_eq!(parameters[0].value, "\0xl_placeholder_0");
    assert_eq!(parameters[1].value, "\0xl_placeholder_1");
}

#[test]
fn lowers_literals_and_operators() {
    let program = parse("lit.xl", "let a = -9223372036854775807; let b = b\"x\\n\"; 'atom").unwrap();
    let bindings = &program.value.body.value.bindings;
    assert!(matches!(&bindings[0].value.value.value, ExprKind::Unary { .. }));
    assert!(matches!(&bindings[1].value.value.value, ExprKind::Bytes(bytes) if bytes == b"x\n"));
    assert!(matches!(&program.value.body.value.result.value, ExprKind::Atom(name) if name == "atom"));
    let overflow = parse("lit.xl", "9223372036854775808").unwrap_err();
    assert!(overflow.message.contains("outside the i64 range"));
}

#[test]
fn lowering_a_parse_with_diagnostics_reports_the_earliest() {
    let source = "let x = ;\n1";
    let parsed = xl::syntax::xl::parse(xl::source::SourceId(0), source);
    assert!(!parsed.diagnostics.is_empty());
    let earliest = parsed
        .diagnostics
        .iter()
        .map(|d| d.labels[0].location.range.start as usize)
        .min()
        .unwrap();
    let error = xl::parser::lower_parse("broken.xl", source, parsed).unwrap_err();
    assert_eq!(error.source_name, "broken.xl");
    assert!(error.location.offset <= earliest);
    assert_eq!(error.location.line, 1);
}

#[test]
fn lowering_a_clean_parse_gives_the_program() {
    let source = "let x = 1; x";
    let parsed = xl::syntax::xl::parse(xl::source::SourceId(0), source);
    assert!(parsed.diagnostics.is_empty());
    let program = xl::parser::lower_parse("clean.xl", source, parsed).unwrap();
    assert_eq!(program.value.body.value.bindings.len(), 1);
    assert_eq!(program.value.body.value.bindings[0].value.kind, BindingKind::Let);
    assert_eq!(program.location.range.start, 0);
}

fn recover_source(name: &str, text: &str) -> (xl::parser::RecoveredProgram, usize) {
    let mut sources = xl::source::SourceDatabase::new();
    let id = sources.add(name, text);
    let parsed = xl::syntax::xl::parse(id, text);
    let lowerer = xl::parser::Lowerer { source_id: id, src: text, cst: &parsed.syntax };
    let mut diagnostics = parsed.diagnostics;
    let recovered = lowerer.recover(&mut diagnostics);
    (recovered, diagnostics.len())
}

#[test]
fn exposes_all_recovery_diagnostics() {
    let text = "let x = ; let y = ; y";
    assert!(parse("broken.xl", text).is_err());
    let (_, diagnostics) = recover_source("broken.xl", text);
    assert!(diagnostics >= 2);
}

#[test]
fn recovers_complete_bindings_around_a_damaged_sibling() {
    let text = "let before = 1; let broken = ; let after = 2; after";
    assert!(parse("recover.xl", text).is_err());
    let (recovered, diagnostics) = recover_source("recover.xl", text);
    assert!(diagnostics > 0);
    let names = recovered
        .bindings
        .iter()
        .map(|binding| binding.value.name.value.as_str())
        .collect::<Vec<_>>();
    assert_eq!(names, vec!["before", "after"]);
    assert!(recovered.result.is_some());
}

#[test]
fn decorators_wrap_the_value_outermost_first_with_a_context_dict() {
    let program = parse("decorators.xl", "@outer @factory(1) type T = Int; { @field value: 2 }").unwrap();
    let binding = &program.value.body.value.bindings[0];
    // @outer(context, @factory(1)(context, Int))
    let ExprKind::Call { callee, arguments } = &binding.value.value.value else {
        panic!("expected the outer decorator call")
    };
    assert!(matches!(&callee.value, ExprKind::Variable(name) if name.value == "outer"));
    assert_eq!(arguments.len(), 2);
    let ExprKind::Dict(context) = &arguments[0].value else { panic!("expected the context Dict") };
    assert_eq!(context.len(), 2);
    assert_eq!(context[0].value.name.value, "kind");
    assert!(matches!(&context[0].value.value.value, ExprKind::Atom(kind) if kind == "Type"));
    assert_eq!(context[1].value.name.value, "name");
    assert!(matches!(&context[1].value.value.value, ExprKind::String(name) if name == "T"));
    let ExprKind::Call { callee: inner_callee, arguments: inner_arguments } = &arguments[1].value else {
        panic!("expected the inner decorator call")
    };
    let ExprKind::Call { callee: factory, arguments: factory_arguments } = &inner_callee.value else {
        panic!("a configured decorator is called with its arguments")
    };
    assert!(matches!(&factory.value, ExprKind::Variable(name) if name.value == "factory"));
    assert!(matches!(factory_arguments[0].value, ExprKind::Int(1)));
    assert!(matches!(&inner_arguments[1].value, ExprKind::Variable(name) if name.value == "Int"));
    let ExprKind::Dict(fields) = &program.value.body.value.result.value else { panic!("expected Dict") };
    assert_eq!(fields[0].value.name.value, "value");
    let ExprKind::Call { arguments: field_arguments, .. } = &fields[0].value.value.value else {
        panic!("expected the field decorator call")
    };
    let ExprKind::Dict(field_context) = &field_arguments[0].value else { panic!("expected the context Dict") };
    assert!(matches!(&field_context[0].value.value.value, ExprKind::Atom(kind) if kind == "Field"));
    assert!(matches!(field_arguments[1].value, ExprKind::Int(2)));
}

#[test]
fn lowers_atoms_bytes_and_dotted_decorator_paths() {
    let program = parse("atoms.xl", "@json.rename_all('CamelCase) type T = ['Red, b\"a\\n\"]; T").unwrap();
    let binding = &program.value.body.value.bindings[0];
    let decorator = &binding.value.decorators[0].value;
    let ExprKind::Field { receiver, field } = &decorator.callee.value else { panic!("expected a field path") };
    assert_eq!(field.value, "rename_all");
    assert!(matches!(&receiver.value, ExprKind::Variable(name) if name.value == "json"));
    assert!(matches!(&decorator.arguments[0].value, ExprKind::Atom(a) if a == "CamelCase"));
    let ExprKind::Call { arguments, .. } = &binding.value.value.value else { panic!("expected a call") };
    let ExprKind::Array(items) = &arguments[1].value else { panic!("expected an Array") };
    assert!(matches!(&items[0].value, ExprKind::Atom(a) if a == "Red"));
    assert!(matches!(&items[1].value, ExprKind::Bytes(b) if b == &vec![97u8, 10u8]));
}

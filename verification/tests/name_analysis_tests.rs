use xl::compiler::{collect_runtime_names, free_block};
use xl::module::reject_nested_imports;
use xl::parser::parse;

fn sorted(mut names: Vec<String>) -> Vec<String> {
    names.sort();
    names.dedup();
    names
}

#[test]
fn free_variables_respect_bindings_parameters_and_patterns() {
    let program = parse("free.xl", "let f = fn(x) { x + y }; f(z)").unwrap();
    let mut bound = Vec::new();
    let mut free = Vec::new();
    free_block(&program.value.body, 0, &mut bound, &mut free);
    assert_eq!(sorted(free), vec!["y".to_string(), "z".to_string()]);
    assert_eq!(sorted(bound), vec!["f".to_string()]);

    let program = parse("match.xl", "match p { (a, b) => a + c, _ => d }").unwrap();
    let mut bound = Vec::new();
    let mut free = Vec::new();
    free_block(&program.value.body, 0, &mut bound, &mut free);
    assert_eq!(
        sorted(free),
        vec!["c".to_string(), "d".to_string(), "p".to_string()]
    );
}

#[test]
fn runtime_names_cover_let_values_and_results() {
    let program = parse("names.xl", "let f = fn(x) { x + y }; f(z)").unwrap();
    let mut names = Vec::new();
    collect_runtime_names(&program.value.body.value.result, &mut names);
    assert_eq!(sorted(names), vec!["f".to_string(), "z".to_string()]);
    let mut names = Vec::new();
    xl::compiler::collect_runtime_names_block(&program.value.body, 0, &mut names);
    assert_eq!(
        sorted(names),
        vec!["f".to_string(), "x".to_string(), "y".to_string(), "z".to_string()]
    );
}

#[test]
fn imports_stand_only_at_module_top_level() {
    let top = parse("top.xl", "import b from \"b.xl\"; b").unwrap();
    assert!(reject_nested_imports(&top, "top.xl").is_ok());
    let nested = parse("nested.xl", "let a = { import b from \"b.xl\"; b }; a").unwrap();
    let error = reject_nested_imports(&nested, "nested.xl").unwrap_err();
    assert_eq!(
        error.message(),
        "nested.xl: imports and native declarations are only allowed at module top level"
    );
    let in_result = parse("result.xl", "{ import b from \"b.xl\"; b }").unwrap();
    assert!(reject_nested_imports(&in_result, "result.xl").is_err());
}

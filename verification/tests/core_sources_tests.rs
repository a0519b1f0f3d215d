use xl::ast::{BindingKind, ExprKind};
use xl::parser::parse;

const SOURCES: [&str; 4] = [
    r#"
native normalize: Fn(Any) -> Any;
native add: Fn(Any, Any) -> Any;
native get: Fn(Any, String) -> Any;
native has: Fn(Any, String) -> Any;
native all: Fn(Any) -> Any;
native strip: Fn(Any) -> Any;
{ normalize: normalize, add: add, get: get, has: has, all: all, strip: strip }
"#,
    r#"
native length: for(A) Fn(Array(A)) -> Int;
native map: for(A, B) Fn(Array(A), Fn(A) -> B) -> Array(B);
native filter: for(A) Fn(Array(A), Fn(A) -> Any) -> Array(A);
native flat_map: for(A, B) Fn(Array(A), Fn(A) -> Array(B)) -> Array(B);
native fold: for(A, B) Fn(Array(A), B, Fn(B, A) -> B) -> B;
{ length: length, map: map, filter: filter, flat_map: flat_map, fold: fold }
"#,
    r#"
native dbg: Fn(Any) -> Any;
native dbg_with: Fn(String, Any) -> Any;
{ dbg: dbg, dbg_with: dbg_with }
"#,
    r#"
native stringify: Fn(Any) -> String;
native stringify_pretty: Fn(Int) -> Fn(Any) -> String;
native default: Fn(Any) -> Fn(Any, Any) -> Any;
{
    stringify: stringify,
    stringify_pretty: stringify_pretty,
    default: default,
}
"#,
];

#[test]
fn core_module_sources_lower_to_native_bindings_and_a_dict() {
    for source in SOURCES {
        let program = parse("core.xl", source).unwrap();
        let block = &program.value.body.value;
        assert!(!block.bindings.is_empty());
        for binding in &block.bindings {
            assert_eq!(binding.value.kind, BindingKind::Native);
            assert!(matches!(
                binding.value.annotation.as_ref().map(|a| &a.value),
                Some(ExprKind::Call { .. })
            ));
        }
        let ExprKind::Dict(fields) = &block.result.value else {
            panic!("expected a Dict result");
        };
        assert_eq!(fields.len(), block.bindings.len());
        for (field, binding) in fields.iter().zip(&block.bindings) {
            assert_eq!(field.value.name.value, binding.value.name.value);
        }
    }
}

#[test]
fn function_contracts_nest_to_the_right() {
    let program = parse("core.xl", "native f: Fn(Int) -> Fn(Any) -> String; f").unwrap();
    let contract = &program.value.body.value.bindings[0].value.value;
    let ExprKind::Call { arguments, .. } = &contract.value else {
        panic!("expected Fn call");
    };
    assert_eq!(arguments.len(), 2);
    assert!(matches!(&arguments[0].value, ExprKind::Array(items) if items.len() == 1));
    assert!(matches!(&arguments[1].value, ExprKind::Call { .. }));
}

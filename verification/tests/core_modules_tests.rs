use xl::core_modules::module_specs;
use xl::parser::parse;
use xl::value::{CoreJsonFunction, NativeKind};

#[test]
fn core_modules_are_listed_in_registration_order() {
    let specs = module_specs::<u8>();
    let names: Vec<&str> = specs.iter().map(|spec| spec.name).collect();
    assert_eq!(
        names,
        vec!["core:attributes", "core:array", "core:dict", "core:debug", "core:codec", "core:result", "core:json"]
    );
}

#[test]
fn every_core_module_source_parses_and_declares_its_functions() {
    for spec in module_specs::<u8>() {
        let program = parse(spec.name, spec.source);
        assert!(program.is_ok(), "{} does not parse", spec.name);
        for (name, function) in &spec.functions {
            assert!(spec.source.contains(&format!("native {name}:")), "{name} is not declared in {}", spec.name);
            assert!(function.callback().is_none());
            assert!(function.name().starts_with(spec.name));
        }
    }
}

#[test]
fn json_module_functions_are_core_json_functions() {
    let specs = module_specs::<u8>();
    let json = &specs[6];
    let names: Vec<&str> = json.functions.iter().map(|(name, _)| *name).collect();
    assert_eq!(
        names,
        vec!["default", "flatten", "untagged", "schema", "rename", "rename_all", "skip_serializing_if", "stringify", "stringify_pretty"]
    );
    assert_eq!(json.functions[0].1.kind(), NativeKind::CoreJson(CoreJsonFunction::Default));
    assert_eq!(json.functions[0].1.name(), "core:json.default");
    assert_eq!(json.functions[8].1.name(), "core:json.stringify_pretty");
    assert_eq!(json.functions[8].1.arity(), 1);
}

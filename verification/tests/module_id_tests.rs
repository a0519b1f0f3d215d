use xl::module_id::{
    lexical_normalize_relative, ImportRequest, ModuleFormat, ModuleResolver, ResolveModuleError,
    ResolvedModuleId,
};

#[test]
fn formats_local_ids_without_format_fragments() {
    let id = ResolvedModuleId::local("/workspace/a file.yml");
    assert_eq!(id.to_uri_string(), "local:///workspace/a%20file.yml");
    assert!(matches!(
        ModuleFormat::from_path("a.yaml"),
        Ok(ModuleFormat::Yaml)
    ));
    assert!(matches!(
        ModuleFormat::from_path("a.yml"),
        Ok(ModuleFormat::Yaml)
    ));
    assert!(ModuleFormat::from_path("a.JSON").is_err());
}

#[test]
fn resolution_errors_describe_themselves() {
    assert_eq!(ResolveModuleError::EmptyPath.to_display_string(), "module path is empty");
    assert_eq!(
        ResolveModuleError::UnknownExtension("txt".into()).to_display_string(),
        "unknown module extension .txt"
    );
    assert_eq!(
        ResolveModuleError::UnknownFormat("yml".into()).to_display_string(),
        "unknown module format \"yml\""
    );
    assert_eq!(
        ResolveModuleError::UnknownDependency("a\"b".into()).to_display_string(),
        "unknown dependency \"a\\\"b\""
    );
    assert_eq!(
        ResolveModuleError::DependencyEscape("deps://x/../y".into()).to_display_string(),
        "dependency module escapes its declared root: deps://x/../y"
    );
    assert_eq!(
        ResolveModuleError::FormatConflict {
            configured: ModuleFormat::Json,
            extension: ModuleFormat::Xl,
        }
        .to_display_string(),
        "configured format json conflicts with extension format xl"
    );
}

#[test]
fn imports_are_classified_before_the_file_system() {
    let mut resolver = ModuleResolver::new("/work".to_string());
    resolver.add_dependency("lib".to_string(), "/deps/lib".to_string());
    let importer = ResolvedModuleId::local("/work/main.xl");
    match resolver.classify_import(&importer, "core:json") {
        Ok(ImportRequest::Resolved(module)) => {
            assert!(matches!(module.id, ResolvedModuleId::Core(ref name) if name == "core:json"));
            assert!(matches!(module.format, ModuleFormat::Xl));
        }
        _ => panic!("core modules resolve at once"),
    }
    match resolver.classify_import(&importer, "deps://lib/a/../b.xl") {
        Ok(ImportRequest::Dependency { name, root, path }) => {
            assert_eq!(name, "lib");
            assert_eq!(root, "/deps/lib");
            assert_eq!(path, "b.xl");
        }
        _ => panic!("a declared dependency resolves to its root"),
    }
    assert!(matches!(
        resolver.classify_import(&importer, "deps://other/x.xl"),
        Err(ResolveModuleError::UnknownDependency(ref name)) if name == "other"
    ));
    assert!(matches!(
        resolver.classify_import(&importer, "deps://lib/../x.xl"),
        Err(ResolveModuleError::DependencyEscape(_))
    ));
    assert!(matches!(
        resolver.classify_import(&importer, ""),
        Err(ResolveModuleError::EmptyPath)
    ));
    match resolver.classify_import(&importer, "sibling.json") {
        Ok(ImportRequest::Local { importer, target }) => {
            assert_eq!(importer, "/work/main.xl");
            assert_eq!(target, "sibling.json");
        }
        _ => panic!("relative imports resolve against the importer"),
    }
    let root = resolver.resolve_root("/work/main.xl".to_string()).unwrap();
    assert!(matches!(root.format, ModuleFormat::Xl));
    assert!(matches!(
        resolver.resolve_root("/work/notes".to_string()),
        Err(ResolveModuleError::MissingExtension)
    ));
    assert_eq!(lexical_normalize_relative("a/./b/../c"), Some("a/c".to_string()));
    assert_eq!(lexical_normalize_relative("../a"), None);
}

fn read_manifest(text: &str) -> Result<xl::manifest::Manifest, xl::module_id::ResolveModuleError> {
    let mut sources = xl::source::SourceDatabase::new();
    let id = sources.add("xl-deps.json", text);
    let parsed = xl::syntax::json::parse(id, text);
    assert!(parsed.diagnostics.is_empty());
    let reader = xl::manifest::ManifestReader { cst: &parsed.syntax, source: text, shown: "xl-deps.json" };
    reader.read()
}

#[test]
fn manifest_lists_dependencies_and_format_overrides_in_order() {
    let manifest = read_manifest(
        r#"{"dependencies": {"lib": {"path": "../lib"}, "util": {"path": "vendor/util"}}, "formats": {"local:/w/a.cfg": "json"}}"#,
    )
    .unwrap();
    assert_eq!(
        manifest.dependencies,
        vec![("lib".to_string(), "../lib".to_string()), ("util".to_string(), "vendor/util".to_string())]
    );
    assert_eq!(manifest.formats, vec![("local:/w/a.cfg".to_string(), xl::module_id::ModuleFormat::Json)]);
    let empty = read_manifest("{}").unwrap();
    assert!(empty.dependencies.is_empty() && empty.formats.is_empty());
}

#[test]
fn manifest_errors_name_what_is_wrong() {
    let message = |text: &str| match read_manifest(text) {
        Err(xl::module_id::ResolveModuleError::Manifest(m)) => m,
        other => panic!("unexpected {other:?}"),
    };
    assert_eq!(message("[1]"), "dependency manifest must be a JSON object");
    assert_eq!(message(r#"{"dependencies": 1}"#), "manifest field \"dependencies\" must be an object");
    assert_eq!(message(r#"{"dependencies": {"lib": 1}}"#), "dependency \"lib\" must be an object");
    assert_eq!(message(r#"{"dependencies": {"lib": {"path": 1}}}"#), "dependency \"lib\" must have a String path");
    assert_eq!(message(r#"{"a": 1, "a": 2}"#), "invalid xl-deps.json: duplicate JSON object key \"a\"");
    assert_eq!(message(r#"{"formats": {"m": 3}}"#), "format override \"m\" must be a String");
    assert!(matches!(read_manifest(r#"{"formats": {"m": "yml"}}"#), Err(xl::module_id::ResolveModuleError::UnknownFormat(f)) if f == "yml"));
}

#[test]
fn lexical_normalization_drops_dots_and_climbs() {
    let n = xl::module_id::lexical_normalize;
    assert_eq!(n("/w/app/./sub/../data.json"), "/w/app/data.json");
    assert_eq!(n("/../a//b/"), "/a/b");
    assert_eq!(n("/"), "/");
    assert_eq!(n("a/../../b"), "b");
    assert_eq!(n("/héllo/./wörld"), "/héllo/wörld");
}

use xl::semantic::{
    normalize_order, Definition, DefinitionId, DefinitionKind, Reference, ReferenceId,
    WorkspaceModuleId,
};
use xl::source::{Location, SourceId, TextRange};

fn location(source: u32, start: u32) -> Location {
    Location::new(
        SourceId(source),
        TextRange {
            start,
            end: start + 1,
        },
    )
}

fn definition(id: u32, module: u32, start: u32, name: &str) -> Definition {
    Definition {
        id: DefinitionId(id),
        module: WorkspaceModuleId(module),
        name: name.to_string(),
        kind: DefinitionKind::Let,
        location: location(module, start),
        additional_locations: vec![],
        ty: None,
        import_target: None,
    }
}

fn reference(id: u32, module: u32, start: u32, name: &str, target: Option<u32>) -> Reference {
    Reference {
        id: ReferenceId(id),
        module: WorkspaceModuleId(module),
        name: name.to_string(),
        location: location(module, start),
        definition: target.map(DefinitionId),
        external: target.is_none(),
    }
}

#[test]
fn normalizing_sorts_stably_renumbers_and_follows_definitions() {
    let mut definitions = vec![
        definition(0, 1, 5, "b"),
        definition(1, 0, 9, "c"),
        definition(2, 1, 5, "a"),
        definition(3, 0, 2, "d"),
    ];
    let mut references = vec![
        reference(0, 1, 7, "a", Some(2)),
        reference(1, 0, 1, "d", Some(3)),
        reference(2, 0, 1, "x", None),
        reference(3, 1, 0, "b", Some(0)),
    ];
    normalize_order(&mut definitions, &mut references);
    let names: Vec<&str> = definitions.iter().map(|d| d.name.as_str()).collect();
    assert_eq!(names, vec!["d", "c", "b", "a"]);
    let ids: Vec<u32> = definitions.iter().map(|d| d.id.0).collect();
    assert_eq!(ids, vec![0, 1, 2, 3]);
    let names: Vec<&str> = references.iter().map(|r| r.name.as_str()).collect();
    assert_eq!(names, vec!["d", "x", "b", "a"]);
    let ids: Vec<u32> = references.iter().map(|r| r.id.0).collect();
    assert_eq!(ids, vec![0, 1, 2, 3]);
    for reference in &references {
        if let Some(target) = reference.definition {
            assert_eq!(definitions[target.0 as usize].name, reference.name);
        }
    }
    assert_eq!(references[1].definition, None);
}

#[test]
fn normalizing_an_empty_index_leaves_it_empty() {
    let mut definitions: Vec<Definition> = vec![];
    let mut references: Vec<Reference> = vec![];
    normalize_order(&mut definitions, &mut references);
    assert!(definitions.is_empty());
    assert!(references.is_empty());
}

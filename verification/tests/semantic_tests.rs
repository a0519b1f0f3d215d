use xl::semantic::{
    Definition, DefinitionId, DefinitionKind, Reference, ReferenceId, WorkspaceModule,
    WorkspaceModuleId, WorkspaceModuleKind, WorkspaceSnapshot, WorkspaceTypeGraph,
    WorkspaceTypeId, WorkspaceTypeNode,
};
use xl::source::{Location, SourceDatabase, SourceId, TextRange};

fn at(start: u32, end: u32) -> Location {
    Location::new(SourceId(0), TextRange { start, end })
}

fn definition(id: u32, name: &str, location: Location, ty: Option<u32>) -> Definition {
    Definition {
        id: DefinitionId(id),
        module: WorkspaceModuleId(0),
        name: name.to_string(),
        kind: DefinitionKind::Let,
        location,
        additional_locations: Vec::new(),
        ty: ty.map(WorkspaceTypeId),
        import_target: None,
    }
}

fn reference(id: u32, location: Location, definition: Option<u32>) -> Reference {
    Reference {
        id: ReferenceId(id),
        module: WorkspaceModuleId(0),
        name: "x".to_string(),
        location,
        definition: definition.map(DefinitionId),
        external: false,
    }
}

fn snapshot() -> WorkspaceSnapshot {
    let mut types = WorkspaceTypeGraph::new();
    let int = types.push(WorkspaceTypeNode::Int);
    let string = types.push(WorkspaceTypeNode::String);
    let exports = types.push(WorkspaceTypeNode::Struct(vec![
        ("name".to_string(), string),
        ("size".to_string(), int),
    ]));
    let module = WorkspaceModule {
        id: WorkspaceModuleId(0),
        name: "main".to_string(),
        path: Some("/w/main.xl".to_string()),
        kind: WorkspaceModuleKind::Xl,
        source: Some(SourceId(0)),
        imports: Vec::new(),
        result_location: Some(at(40, 60)),
        result_type: Some(exports),
    };
    let definitions = vec![
        definition(0, "outer", at(0, 30), Some(int.0)),
        definition(1, "inner", at(5, 10), Some(string.0)),
        definition(2, "same", at(5, 10), None),
    ];
    let references = vec![reference(0, at(20, 21), Some(1)), reference(1, at(25, 26), Some(1))];
    WorkspaceSnapshot::new(SourceDatabase::new(), vec![module], definitions, references, types)
}

#[test]
fn definition_at_prefers_the_narrowest_and_first() {
    let s = snapshot();
    assert_eq!(s.definition_at(at(7, 7)).unwrap().name, "inner");
    assert_eq!(s.definition_at(at(2, 2)).unwrap().name, "outer");
    assert!(s.definition_at(at(35, 35)).is_none());
    assert!(s.definition_at(Location::new(SourceId(1), TextRange { start: 7, end: 7 })).is_none());
}

#[test]
fn references_resolve_to_definitions_and_types() {
    let s = snapshot();
    assert_eq!(s.reference_at(at(20, 20)).unwrap().id, ReferenceId(0));
    assert_eq!(s.references_of(DefinitionId(1)).len(), 2);
    assert_eq!(s.references_of(DefinitionId(0)).len(), 0);
    assert_eq!(s.type_at(at(25, 25)), Some(WorkspaceTypeId(1)));
    assert_eq!(s.type_at(at(2, 2)), Some(WorkspaceTypeId(0)));
    assert_eq!(s.type_at(at(45, 45)), Some(WorkspaceTypeId(2)));
    assert_eq!(s.type_at(at(70, 70)), None);
}

#[test]
fn modules_and_exports_are_found() {
    let s = snapshot();
    assert_eq!(s.modules().len(), 1);
    assert_eq!(s.module(WorkspaceModuleId(0)).unwrap().name, "main");
    assert!(s.module(WorkspaceModuleId(1)).is_none());
    assert_eq!(s.module_by_path("/w/main.xl").unwrap().name, "main");
    assert!(s.module_by_path("/w/other.xl").is_none());
    let exports = s.exports_of(WorkspaceModuleId(0));
    assert_eq!(exports.len(), 2);
    assert_eq!(exports[0].name, "name");
    assert_eq!(exports[1].ty, WorkspaceTypeId(0));
    assert!(s.exports_of(WorkspaceModuleId(3)).is_empty());
    assert_eq!(s.definitions().len(), 3);
    assert_eq!(s.references().len(), 2);
    assert!(s.definition(DefinitionId(9)).is_none());
    assert!(s.reference(ReferenceId(1)).is_some());
}

#[test]
fn workspace_types_display() {
    let s = snapshot();
    assert_eq!(s.types().display(WorkspaceTypeId(2)).unwrap(), "{name: String, size: Int}");
    assert!(s.types().display(WorkspaceTypeId(9)).is_none());
    assert!(matches!(s.types().node(WorkspaceTypeId(0)), Some(WorkspaceTypeNode::Int)));
    assert_eq!(s.types().nodes().len(), 3);
    assert_eq!(s.types().names().len(), 0);
}

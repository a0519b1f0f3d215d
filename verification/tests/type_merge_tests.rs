use xl::semantic::{merge_type_graph, WorkspaceTypeGraph, WorkspaceTypeId, WorkspaceTypeNode};
use xl::types::{TypeGraph, TypeId, TypeNode};
use xl::value::Atom;

fn recursive_list() -> (TypeGraph, TypeId, TypeId) {
    let mut graph = TypeGraph::new();
    let int = graph.push(TypeNode::Int);
    let list = graph.push(TypeNode::Pending);
    graph.set_node(list, TypeNode::Tuple(vec![int, list]));
    graph.bind("List", list);
    graph.push(TypeNode::Atom(Atom::named("done")));
    (graph, int, list)
}

#[test]
fn merged_nodes_follow_the_existing_ones_and_keep_cycles() {
    let (graph, _, _) = recursive_list();
    let mut workspace = WorkspaceTypeGraph::new();
    workspace.push(WorkspaceTypeNode::Any);
    let mapped = merge_type_graph("main", &graph, &mut workspace);
    assert_eq!(
        mapped,
        vec![WorkspaceTypeId(1), WorkspaceTypeId(2), WorkspaceTypeId(3)]
    );
    assert!(matches!(
        workspace.node(WorkspaceTypeId(0)),
        Some(WorkspaceTypeNode::Any)
    ));
    match workspace.node(mapped[1]) {
        Some(WorkspaceTypeNode::Tuple(items)) => assert_eq!(items, &vec![mapped[0], mapped[1]]),
        other => panic!("expected a tuple, got {other:?}"),
    }
    match workspace.node(mapped[2]) {
        Some(WorkspaceTypeNode::Atom(name)) => assert_eq!(name, "done"),
        other => panic!("expected an atom, got {other:?}"),
    }
    assert_eq!(
        workspace.display(mapped[1]).unwrap(),
        "(Int, main::List)"
    );
}

#[test]
fn module_names_are_qualified_and_rebind_earlier_ones() {
    let (graph, _, _) = recursive_list();
    let mut workspace = WorkspaceTypeGraph::new();
    let any = workspace.push(WorkspaceTypeNode::Any);
    workspace.bind("main::List", any);
    workspace.bind("other::Thing", any);
    let mapped = merge_type_graph("main", &graph, &mut workspace);
    assert_eq!(
        workspace.names(),
        vec![
            ("main::List".to_string(), mapped[1]),
            ("other::Thing".to_string(), any),
        ]
    );
}

#[test]
fn each_source_node_is_merged_once_however_often_it_is_reached() {
    let mut graph = TypeGraph::new();
    let string = graph.push(TypeNode::String);
    let pair = graph.push(TypeNode::Tuple(vec![string, string]));
    let record = graph.push(TypeNode::Struct(vec![
        ("first".to_string(), pair),
        ("second".to_string(), string),
    ]));
    let choice = graph.push(TypeNode::Enum(vec![
        ("Empty".to_string(), None),
        ("Full".to_string(), Some(record)),
    ]));
    let function = graph.push(TypeNode::Function {
        parameters: vec![record, choice],
        result: pair,
    });
    graph.bind("F", function);
    let mut workspace = WorkspaceTypeGraph::new();
    let mapped = merge_type_graph("lib", &graph, &mut workspace);
    assert_eq!(mapped.len(), 5);
    assert_eq!(workspace.nodes().len(), 5);
    match workspace.node(mapped[function.index()]) {
        Some(WorkspaceTypeNode::Function { parameters, result }) => {
            assert_eq!(
                parameters,
                &vec![mapped[record.index()], mapped[choice.index()]]
            );
            assert_eq!(*result, mapped[pair.index()]);
        }
        other => panic!("expected a function, got {other:?}"),
    }
    match workspace.node(mapped[choice.index()]) {
        Some(WorkspaceTypeNode::Enum(variants)) => assert_eq!(
            variants,
            &vec![
                ("Empty".to_string(), None),
                ("Full".to_string(), Some(mapped[record.index()])),
            ]
        ),
        other => panic!("expected an enum, got {other:?}"),
    }
    assert_eq!(
        workspace.display(mapped[function.index()]).unwrap(),
        "fn({first: (String, String), second: String}, enum {Empty, Full({first: (String, String), second: String})}) -> (String, String)"
    );
    assert_eq!(
        workspace.names(),
        vec![("lib::F".to_string(), mapped[function.index()])]
    );
}

use xl::types::{TypeDescriptor, TypeGraph, TypeNode};
use xl::value::{Atom, BuiltinAtom};

fn graph_with_list() -> (TypeGraph, xl::types::TypeId, xl::types::TypeId) {
    // List = { head: Int, tail: List | 'None }
    let mut graph = TypeGraph::new();
    let int = graph.push(TypeNode::Int);
    let none = graph.push(TypeNode::Atom(Atom::builtin(BuiltinAtom::NoneAtom)));
    let pending = graph.push(TypeNode::Pending);
    let tail = graph.push(TypeNode::Union(vec![pending, none]));
    let list = graph.push(TypeNode::Struct(vec![
        ("head".to_string(), int),
        ("tail".to_string(), tail),
    ]));
    graph.bind("List", list);
    (graph, list, int)
}

#[test]
fn displays_scalars_and_composites() {
    let mut graph = TypeGraph::new();
    let int = graph.push(TypeNode::Int);
    let string = graph.push(TypeNode::String);
    let array = graph.push(TypeNode::Array(int));
    let tuple = graph.push(TypeNode::Tuple(vec![int, string]));
    let function = graph.push(TypeNode::Function { parameters: vec![int, string], result: array });
    let union = graph.push(TypeNode::Union(vec![int, string]));
    let variants = graph.push(TypeNode::Enum(vec![
        ("Leaf".to_string(), None),
        ("Node".to_string(), Some(tuple)),
    ]));
    assert_eq!(graph.display(array), "Array<Int>");
    assert_eq!(graph.display(tuple), "(Int, String)");
    assert_eq!(graph.display(function), "fn(Int, String) -> Array<Int>");
    assert_eq!(graph.display(union), "Int | String");
    assert_eq!(graph.display(variants), "enum {Leaf, Node((Int, String))}");
}

#[test]
fn displays_a_recursive_type_by_its_name() {
    let mut graph = TypeGraph::new();
    let int = graph.push(TypeNode::Int);
    // Node 1 refers to itself through an array.
    let list_id = xl::types::TypeId(1);
    let list = graph.push(TypeNode::Struct(vec![("head".to_string(), int)]));
    assert_eq!(list, list_id);
    let tree = graph.push(TypeNode::Array(list));
    graph.bind("Tree", tree);
    assert_eq!(graph.display(tree), "Array<{head: Int}>");
    let (graph, list, _) = graph_with_list();
    assert_eq!(graph.display(list), "{head: Int, tail: <pending> | 'None}");
    assert_eq!(graph.named("List"), Some(list));
    assert_eq!(graph.named("Missing"), None);
    assert_eq!(graph.names().len(), 1);
    assert_eq!(graph.nodes().len(), 5);
}

#[test]
fn assignability_follows_structure_any_and_unions() {
    let mut graph = TypeGraph::new();
    let int = graph.push(TypeNode::Int);
    let string = graph.push(TypeNode::String);
    let any = graph.push(TypeNode::Any);
    let union = graph.push(TypeNode::Union(vec![int, string]));
    let ints = graph.push(TypeNode::Array(int));
    let strings = graph.push(TypeNode::Array(string));
    let point = graph.push(TypeNode::Struct(vec![("x".to_string(), int), ("y".to_string(), int)]));
    let other = graph.push(TypeNode::Struct(vec![("x".to_string(), int), ("z".to_string(), int)]));
    let reference = graph.push(TypeNode::Ref(int));
    assert!(graph.is_assignable(int, int));
    assert!(!graph.is_assignable(int, string));
    assert!(graph.is_assignable(int, any));
    assert!(graph.is_assignable(any, string));
    assert!(graph.is_assignable(int, union));
    assert!(!graph.is_assignable(union, int));
    assert!(graph.is_assignable(ints, ints));
    assert!(!graph.is_assignable(ints, strings));
    assert!(graph.is_assignable(point, point));
    assert!(!graph.is_assignable(point, other));
    assert!(graph.is_assignable(reference, int));
    let f = graph.push(TypeNode::Function { parameters: vec![int], result: string });
    let g = graph.push(TypeNode::Function { parameters: vec![int], result: union });
    assert!(graph.is_assignable(f, g));
    assert!(!graph.is_assignable(g, f));
    let named = graph.push(TypeNode::Atom(Atom::named("Red")));
    let same = graph.push(TypeNode::Atom(Atom::named("Red")));
    let blue = graph.push(TypeNode::Atom(Atom::named("Blue")));
    assert!(graph.is_assignable(named, same));
    assert!(!graph.is_assignable(named, blue));
}

#[test]
fn recursive_types_are_assignable_to_themselves() {
    let mut graph = TypeGraph::new();
    let int = graph.push(TypeNode::Int);
    let none = graph.push(TypeNode::Atom(Atom::builtin(BuiltinAtom::NoneAtom)));
    let tail = graph.push(TypeNode::Pending);
    let list = graph.push(TypeNode::Struct(vec![("head".to_string(), int), ("tail".to_string(), tail)]));
    graph.set_node(tail, TypeNode::Union(vec![list, none]));
    graph.bind("List", list);
    assert!(graph.is_assignable(list, list));
    assert!(graph.is_assignable(tail, tail));
    assert!(!graph.is_assignable(list, int));
    assert_eq!(graph.display(list), "{head: Int, tail: List | 'None}");
    assert_eq!(graph.display(tail), "{head: Int, tail: recursive} | 'None");
}

#[test]
fn descriptors_display_like_graph_nodes() {
    let descriptor = TypeDescriptor::Function {
        parameters: vec![
            TypeDescriptor::Array(Box::new(TypeDescriptor::Int)),
            TypeDescriptor::Atom(Atom::builtin(BuiltinAtom::OkAtom)),
        ],
        result: Box::new(TypeDescriptor::Union(vec![
            TypeDescriptor::String,
            TypeDescriptor::Struct(vec![("a".to_string(), TypeDescriptor::Bytes)]),
            TypeDescriptor::Enum(vec![
                ("Leaf".to_string(), None),
                ("Node".to_string(), Some(Box::new(TypeDescriptor::Float))),
            ]),
        ])),
    };
    assert_eq!(
        descriptor.display_name(),
        "fn(Array<Int>, 'Ok) -> String | {a: Bytes} | enum {Leaf, Node(Float)}"
    );
    assert_eq!(TypeDescriptor::Tuple(vec![]).display_name(), "()");
    assert_eq!(TypeDescriptor::Any.display_name(), "Any");
}

#[test]
fn arity_mismatches_are_never_assignable() {
    let mut graph = TypeGraph::new();
    let int = graph.push(TypeNode::Int);
    let any = graph.push(TypeNode::Any);
    let pair = graph.push(TypeNode::Tuple(vec![int, int]));
    let triple = graph.push(TypeNode::Tuple(vec![int, int, int]));
    let unary = graph.push(TypeNode::Function { parameters: vec![any], result: any });
    let binary = graph.push(TypeNode::Function { parameters: vec![any, any], result: any });
    assert!(!graph.is_assignable(pair, triple));
    assert!(!graph.is_assignable(triple, pair));
    assert!(!graph.is_assignable(unary, binary));
    assert!(graph.is_assignable(unary, unary));
    assert!(graph.is_assignable(any, pair));
    assert!(graph.is_assignable(binary, any));
}

#[test]
fn every_type_is_assignable_to_itself() {
    let mut graph = TypeGraph::new();
    let int = graph.push(TypeNode::Int);
    let string = graph.push(TypeNode::String);
    let pending = graph.push(TypeNode::Pending);
    let nested = graph.push(TypeNode::Union(vec![int, pending]));
    let union = graph.push(TypeNode::Union(vec![string, nested]));
    let reference = graph.push(TypeNode::Ref(union));
    graph.set_node(pending, TypeNode::Ref(reference));
    let function = graph.push(TypeNode::Function { parameters: vec![union, reference], result: nested });
    let self_loop = graph.push(TypeNode::Pending);
    graph.set_node(self_loop, TypeNode::Ref(self_loop));
    for id in [int, string, pending, nested, union, reference, function, self_loop] {
        assert!(graph.is_assignable(id, id));
    }
    assert!(graph.is_assignable(nested, union));
    assert!(!graph.is_assignable(union, int));
}

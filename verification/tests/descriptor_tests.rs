use xl::descriptor::{
    assignable, atom_from_name, common_type, enum_variant_type, incompatibility_path,
    interpolation_type_supported, union_or_single,
};
use xl::json::ValuePathSegment;
use xl::types::TypeDescriptor;
use xl::value::{Atom, BuiltinAtom};

fn atom(name: &str) -> TypeDescriptor {
    TypeDescriptor::Atom(atom_from_name(name))
}

fn option_of(payload: TypeDescriptor) -> TypeDescriptor {
    TypeDescriptor::Enum(vec![
        ("None".to_string(), None),
        ("Some".to_string(), Some(Box::new(payload))),
    ])
}

fn record(fields: Vec<(&str, TypeDescriptor)>) -> TypeDescriptor {
    TypeDescriptor::Struct(
        fields
            .into_iter()
            .map(|(name, field)| (name.to_string(), field))
            .collect(),
    )
}

fn key(name: &str) -> ValuePathSegment {
    ValuePathSegment::Key(name.to_string())
}

#[test]
fn atoms_from_names_are_builtin_or_named() {
    assert!(matches!(atom_from_name("None"), Atom::Builtin(BuiltinAtom::NoneAtom)));
    assert!(matches!(atom_from_name("True"), Atom::Builtin(BuiltinAtom::True)));
    assert!(matches!(atom_from_name("Err"), Atom::Builtin(BuiltinAtom::ErrAtom)));
    assert!(matches!(atom_from_name("Red"), Atom::Named(name) if name == "Red"));
    assert_eq!(
        enum_variant_type("Some", Some(&TypeDescriptor::Int)).display_name(),
        "('Some, Int)"
    );
    assert_eq!(enum_variant_type("Blue", None).display_name(), "'Blue");
}

#[test]
fn scalars_any_and_unions_fit_structurally() {
    assert!(assignable(&TypeDescriptor::Int, &TypeDescriptor::Int));
    assert!(!assignable(&TypeDescriptor::Int, &TypeDescriptor::Float));
    assert!(assignable(&TypeDescriptor::Any, &TypeDescriptor::Bytes));
    assert!(assignable(&TypeDescriptor::Bytes, &TypeDescriptor::Any));
    let int_or_string = TypeDescriptor::Union(vec![TypeDescriptor::Int, TypeDescriptor::String]);
    assert!(assignable(&TypeDescriptor::String, &int_or_string));
    assert!(!assignable(&int_or_string, &TypeDescriptor::String));
    // A type fits a union when it fits one member; that check comes first.
    assert!(!assignable(&int_or_string, &int_or_string));
    assert!(assignable(
        &TypeDescriptor::Array(Box::new(TypeDescriptor::Int)),
        &TypeDescriptor::Array(Box::new(int_or_string.copy())),
    ));
    assert!(!assignable(
        &TypeDescriptor::Tuple(vec![TypeDescriptor::Int]),
        &TypeDescriptor::Tuple(vec![TypeDescriptor::Int, TypeDescriptor::Int]),
    ));
    assert!(assignable(&atom("Red"), &atom("Red")));
    assert!(!assignable(&atom("Red"), &atom("Blue")));
}

#[test]
fn enum_variants_fit_as_tags_and_tagged_pairs() {
    let maybe_int = option_of(TypeDescriptor::Int);
    assert!(assignable(&atom("None"), &maybe_int));
    let some_int = TypeDescriptor::Tuple(vec![atom("Some"), TypeDescriptor::Int]);
    assert!(assignable(&some_int, &maybe_int));
    let some_string = TypeDescriptor::Tuple(vec![atom("Some"), TypeDescriptor::String]);
    assert!(!assignable(&some_string, &maybe_int));
    assert!(assignable(&maybe_int, &option_of(TypeDescriptor::Any)));
    assert!(!assignable(&maybe_int, &option_of(TypeDescriptor::String)));
    // An enum fits a type when each of its variant types does.
    let tags = TypeDescriptor::Enum(vec![("Blue".to_string(), None), ("Red".to_string(), None)]);
    let tag_union = TypeDescriptor::Union(vec![atom("Red"), atom("Blue")]);
    assert!(assignable(&tags, &tag_union));
    assert!(assignable(&tag_union, &tags));
    assert!(!assignable(&tags, &atom("Red")));
}

#[test]
fn structs_and_functions_fit_field_by_field() {
    let point = record(vec![("x", TypeDescriptor::Int), ("y", TypeDescriptor::Int)]);
    let loose = record(vec![("x", TypeDescriptor::Any), ("y", TypeDescriptor::Int)]);
    assert!(assignable(&point, &loose));
    let short = record(vec![("x", TypeDescriptor::Int)]);
    assert!(!assignable(&point, &short));
    let f = TypeDescriptor::Function {
        parameters: vec![TypeDescriptor::Int],
        result: Box::new(TypeDescriptor::String),
    };
    let g = TypeDescriptor::Function {
        parameters: vec![TypeDescriptor::Any],
        result: Box::new(TypeDescriptor::String),
    };
    assert!(assignable(&f, &g));
    assert!(!assignable(
        &f,
        &TypeDescriptor::Function { parameters: vec![], result: Box::new(TypeDescriptor::String) }
    ));
}

#[test]
fn incompatibility_paths_name_the_first_disagreement() {
    let actual = record(vec![("a", TypeDescriptor::Int), ("b", TypeDescriptor::String)]);
    let expected = record(vec![("a", TypeDescriptor::Int), ("b", TypeDescriptor::Int)]);
    assert_eq!(incompatibility_path(&actual, &expected), Some(vec![key("b")]));
    assert_eq!(incompatibility_path(&actual, &actual.copy()), None);

    let missing = record(vec![("a", TypeDescriptor::Int)]);
    assert_eq!(incompatibility_path(&missing, &expected), Some(vec![key("b")]));
    assert_eq!(incompatibility_path(&actual, &missing), Some(vec![key("b")]));

    let nested_actual = record(vec![(
        "items",
        TypeDescriptor::Array(Box::new(TypeDescriptor::Tuple(vec![
            TypeDescriptor::Int,
            TypeDescriptor::Float,
        ]))),
    )]);
    let nested_expected = record(vec![(
        "items",
        TypeDescriptor::Array(Box::new(TypeDescriptor::Tuple(vec![
            TypeDescriptor::Int,
            TypeDescriptor::Int,
        ]))),
    )]);
    assert_eq!(
        incompatibility_path(&nested_actual, &nested_expected),
        Some(vec![key("items"), ValuePathSegment::Index(1)])
    );
    assert_eq!(
        incompatibility_path(
            &TypeDescriptor::Tuple(vec![TypeDescriptor::Int]),
            &TypeDescriptor::Tuple(vec![])
        ),
        Some(vec![])
    );
    assert_eq!(incompatibility_path(&TypeDescriptor::Int, &TypeDescriptor::Any), None);
    assert_eq!(
        incompatibility_path(&option_of(TypeDescriptor::Int), &option_of(TypeDescriptor::String)),
        Some(vec![key("Some")])
    );
}

#[test]
fn interpolation_accepts_scalars_atoms_and_tag_enums() {
    assert!(interpolation_type_supported(&TypeDescriptor::Int));
    assert!(interpolation_type_supported(&TypeDescriptor::String));
    assert!(!interpolation_type_supported(&TypeDescriptor::Float));
    assert!(!interpolation_type_supported(&TypeDescriptor::Bytes));
    assert!(interpolation_type_supported(&atom("Red")));
    assert!(interpolation_type_supported(&TypeDescriptor::Union(vec![
        TypeDescriptor::Int,
        atom("Red")
    ])));
    assert!(!interpolation_type_supported(&TypeDescriptor::Union(vec![
        TypeDescriptor::Int,
        TypeDescriptor::Float
    ])));
    assert!(interpolation_type_supported(&TypeDescriptor::Enum(vec![
        ("Blue".to_string(), None),
        ("Red".to_string(), None)
    ])));
    assert!(!interpolation_type_supported(&option_of(TypeDescriptor::Int)));
}

#[test]
fn unions_drop_repetitions_and_common_types_need_agreement() {
    let single = union_or_single(vec![TypeDescriptor::Int, TypeDescriptor::Int]);
    assert_eq!(single.display_name(), "Int");
    let union = union_or_single(vec![
        TypeDescriptor::Int,
        TypeDescriptor::String,
        TypeDescriptor::Int,
    ]);
    assert_eq!(union.display_name(), "Int | String");
    assert_eq!(union_or_single(vec![]).display_name(), "");
    assert_eq!(
        common_type(vec![TypeDescriptor::Int, TypeDescriptor::Int]).map(|d| d.display_name()),
        Some("Int".to_string())
    );
    assert!(common_type(vec![TypeDescriptor::Int, TypeDescriptor::String]).is_none());
    assert!(common_type(vec![]).is_none());
}

#[test]
fn interned_descriptors_display_as_written() {
    let mut graph = xl::types::TypeGraph::new();
    let descriptors = vec![
        TypeDescriptor::Int,
        option_of(TypeDescriptor::Array(Box::new(TypeDescriptor::String))),
        record(vec![("a", TypeDescriptor::Int), ("b", atom("Red"))]),
        TypeDescriptor::Function {
            parameters: vec![TypeDescriptor::Int, TypeDescriptor::Any],
            result: Box::new(TypeDescriptor::Union(vec![TypeDescriptor::Int, TypeDescriptor::Bytes])),
        },
    ];
    for descriptor in &descriptors {
        let before = graph.nodes().len();
        let id = graph.intern_descriptor(descriptor);
        assert_eq!(id.index(), graph.nodes().len() - 1);
        assert!(graph.nodes().len() > before);
        assert_eq!(graph.display(id), descriptor.display_name());
    }
}

use xl::metadata::decode_type;
use xl::types::TypeDescriptor;
use xl::value::{Atom, BuiltinAtom, Dict, Shape, Value};

type V = Value<()>;

fn dict(entries: Vec<(&str, V)>) -> V {
    let names = entries.iter().map(|(name, _)| name.to_string()).collect();
    let values = entries.into_iter().map(|(_, value)| value).collect();
    Value::Dict(Dict::new(Shape::from_sorted_fields(names), values))
}

fn kind(name: &str) -> V {
    Value::Atom(Atom::named(name))
}

fn simple(name: &str) -> V {
    dict(vec![("kind", kind(name))])
}

fn error_of(value: &V) -> String {
    TypeDescriptor::from_value(value).unwrap_err()
}

#[test]
fn metadata_round_trips() {
    let descriptor = TypeDescriptor::Function {
        parameters: vec![TypeDescriptor::Struct(vec![
            ("age".into(), TypeDescriptor::Int),
            ("name".into(), TypeDescriptor::String),
        ])],
        result: Box::new(TypeDescriptor::Enum(vec![
            ("None".into(), None),
            ("Some".into(), Some(Box::new(TypeDescriptor::String))),
        ])),
    };
    let value = dict(vec![
        ("kind", kind("Function")),
        (
            "parameters",
            Value::Array(vec![dict(vec![
                (
                    "fields",
                    dict(vec![("age", simple("Int")), ("name", simple("String"))]),
                ),
                ("kind", kind("Struct")),
            ])]),
        ),
        (
            "result",
            dict(vec![
                ("kind", kind("Enum")),
                (
                    "variants",
                    dict(vec![
                        ("None", Value::Atom(Atom::builtin(BuiltinAtom::NoneAtom))),
                        ("Some", simple("String")),
                    ]),
                ),
            ]),
        ),
    ]);
    assert!(TypeDescriptor::from_value(&value).unwrap().same(&descriptor));
}

#[test]
fn every_kind_reads_back_as_its_type() {
    for (name, expected) in [
        ("Any", TypeDescriptor::Any),
        ("Int", TypeDescriptor::Int),
        ("Float", TypeDescriptor::Float),
        ("String", TypeDescriptor::String),
        ("Bytes", TypeDescriptor::Bytes),
    ] {
        assert!(TypeDescriptor::from_value(&simple(name)).unwrap().same(&expected));
    }
    let atom = dict(vec![("kind", kind("Atom")), ("tag", kind("Red"))]);
    assert!(TypeDescriptor::from_value(&atom)
        .unwrap()
        .same(&TypeDescriptor::Atom(Atom::named("Red"))));
    let tuple = dict(vec![
        ("items", Value::Array(vec![simple("Int"), simple("Bytes")])),
        ("kind", kind("Tuple")),
    ]);
    assert!(TypeDescriptor::from_value(&tuple)
        .unwrap()
        .same(&TypeDescriptor::Tuple(vec![
            TypeDescriptor::Int,
            TypeDescriptor::Bytes
        ])));
    let union = dict(vec![
        ("kind", kind("Union")),
        ("variants", Value::Array(vec![simple("Int"), simple("String")])),
    ]);
    assert!(TypeDescriptor::from_value(&union)
        .unwrap()
        .same(&TypeDescriptor::Union(vec![
            TypeDescriptor::Int,
            TypeDescriptor::String
        ])));
    let array = dict(vec![("item", simple("Float")), ("kind", kind("Array"))]);
    assert!(TypeDescriptor::from_value(&array)
        .unwrap()
        .same(&TypeDescriptor::Array(Box::new(TypeDescriptor::Float))));
}

fn with_attributes(inner: V) -> V {
    dict(vec![
        ("attributes", dict(vec![("doc", Value::String("x".into()))])),
        ("inner", inner),
        ("kind", kind("WithAttributes")),
    ])
}

#[test]
fn attributes_are_passed_over() {
    let wrapped = with_attributes(with_attributes(simple("Int")));
    assert!(TypeDescriptor::from_value(&wrapped)
        .unwrap()
        .same(&TypeDescriptor::Int));
    let variants = dict(vec![
        ("Empty", with_attributes(Value::Atom(Atom::named("None")))),
        ("Full", with_attributes(simple("Int"))),
    ]);
    let enumeration = dict(vec![("kind", kind("Enum")), ("variants", variants)]);
    assert!(TypeDescriptor::from_value(&enumeration)
        .unwrap()
        .same(&TypeDescriptor::Enum(vec![
            ("Empty".into(), None),
            ("Full".into(), Some(Box::new(TypeDescriptor::Int))),
        ])));
    let broken = dict(vec![
        ("attributes", Value::Int(1)),
        ("inner", simple("Int")),
        ("kind", kind("WithAttributes")),
    ]);
    assert_eq!(error_of(&broken), "Type.attributes must be a Dict");
}

#[test]
fn malformed_metadata_is_rejected_with_its_path() {
    assert_eq!(error_of(&Value::Int(3)), "Type must be a Dict");
    assert_eq!(
        error_of(&dict(vec![("name", kind("Int"))])),
        "Type.kind is missing"
    );
    assert_eq!(
        error_of(&dict(vec![("kind", Value::String("Int".into()))])),
        "Type.kind must be an Atom"
    );
    assert_eq!(
        error_of(&simple("Unknown")),
        "Type.kind has unknown value 'Unknown"
    );
    assert_eq!(
        error_of(&dict(vec![("kind", kind("Int")), ("tag", kind("x"))])),
        "Type has fields [\"kind\", \"tag\"], expected [\"kind\"]"
    );
    let tuple = dict(vec![
        ("items", Value::Array(vec![simple("Int"), Value::Int(1)])),
        ("kind", kind("Tuple")),
    ]);
    assert_eq!(error_of(&tuple), "Type.items[1] must be a Dict");
    let record = dict(vec![
        (
            "fields",
            dict(vec![("name", dict(vec![("type", kind("String"))]))]),
        ),
        ("kind", kind("Struct")),
    ]);
    assert_eq!(error_of(&record), "Type.fields.name.kind is missing");
    let empty = dict(vec![("kind", kind("Enum")), ("variants", dict(vec![]))]);
    assert_eq!(error_of(&empty), "Type.variants must not be empty");
    let no_union = dict(vec![("kind", kind("Union")), ("variants", Value::Array(vec![]))]);
    assert_eq!(error_of(&no_union), "Type.variants must not be empty");
    let function = dict(vec![
        ("kind", kind("Function")),
        ("parameters", Value::Array(vec![])),
        ("result", Value::Func(())),
    ]);
    assert_eq!(error_of(&function), "Type.result must be a Dict");
    assert_eq!(
        decode_type(&Value::<()>::Float(0), "Field").unwrap_err(),
        "Field must be a Dict"
    );
}

fn kind_name(value: &V) -> String {
    match value {
        Value::Dict(dict) => match dict.get("kind") {
            Some(Value::Atom(atom)) => format!("{:?}", atom),
            other => panic!("no kind atom: {:?}", other),
        },
        other => panic!("not a record: {:?}", other),
    }
}

#[test]
fn metadata_record_of_a_type_reads_back() {
    let descriptor = TypeDescriptor::Function {
        parameters: vec![
            TypeDescriptor::Struct(vec![
                ("age".into(), TypeDescriptor::Int),
                ("name".into(), TypeDescriptor::String),
            ]),
            TypeDescriptor::Tuple(vec![TypeDescriptor::Bytes, TypeDescriptor::Any]),
        ],
        result: Box::new(TypeDescriptor::Enum(vec![
            ("Err".into(), Some(Box::new(TypeDescriptor::Atom(Atom::named("Red"))))),
            ("Ok".into(), Some(Box::new(TypeDescriptor::Array(Box::new(TypeDescriptor::Float))))),
            ("Pending".into(), None),
        ])),
    };
    let value: V = descriptor.to_value();
    assert_eq!(kind_name(&value), format!("{:?}", Atom::named("Function")));
    match &value {
        Value::Dict(dict) => {
            assert_eq!(dict.shape().fields().to_vec(), vec!["kind", "parameters", "result"]);
            match dict.get("parameters") {
                Some(Value::Array(items)) => {
                    assert_eq!(items.len(), 2);
                    assert_eq!(kind_name(&items[0]), format!("{:?}", Atom::named("Struct")));
                    assert_eq!(kind_name(&items[1]), format!("{:?}", Atom::named("Tuple")));
                }
                other => panic!("parameters: {:?}", other),
            }
        }
        other => panic!("not a record: {:?}", other),
    }
    assert!(TypeDescriptor::from_value(&value).unwrap().same(&descriptor));
}

#[test]
fn union_metadata_reads_back() {
    let descriptor = TypeDescriptor::Union(vec![TypeDescriptor::Int, TypeDescriptor::String]);
    let value: V = descriptor.to_value();
    assert!(TypeDescriptor::from_value(&value).unwrap().same(&descriptor));
    let simple_value: V = TypeDescriptor::Bytes.to_value();
    assert_eq!(kind_name(&simple_value), format!("{:?}", Atom::named("Bytes")));
}

use xl::heap::{
    builtin_atom, copy_roots, object_contains_foreign, value_contains_foreign, Handle, Heap,
    HeapView, InternId, Object, Relink, RuntimePrototype, RuntimeValue,
};
use xl::value::{BuiltinAtom, NativeFunction};

#[derive(Clone, Copy, Debug, PartialEq)]
struct Code(u32);

impl Relink for Code {
    fn relink(&self) -> Self {
        Code(self.0 + 1)
    }
}

type Proto = RuntimePrototype<Code, u8>;

fn view(current: &Heap<Proto>) -> HeapView<'_, Proto> {
    HeapView {
        current,
        background: None,
    }
}

#[test]
fn copy_is_reachable_reinterning_and_target_self_contained() {
    let mut world: Heap<Proto> = Heap::new(1);
    let shared = world.allocate(Object::Bytes(vec![9]));
    let mut current: Heap<Proto> = Heap::new(2);
    let atom = current.atom(Some(&world), "Custom");
    let string = current.string(Some(&world), "Custom");
    let root = current.allocate(Object::Tuple(vec![
        atom,
        string,
        RuntimeValue::Bytes(shared),
    ]));
    current.allocate(Object::Bytes(vec![1, 2, 3]));

    let copied = copy_roots(&mut world, view(&current), &[RuntimeValue::Tuple(root)]).unwrap();

    assert_eq!(world.counts(), (2, 1, 0));
    let RuntimeValue::Tuple(root) = copied[0] else {
        panic!("expected tuple root")
    };
    let Object::Tuple(values) = world.object(root).unwrap() else {
        panic!("expected tuple object")
    };
    assert_eq!(values[2], RuntimeValue::Bytes(shared));
    assert!(!values
        .iter()
        .any(|value| value_contains_foreign(*value, world.id())));
}

#[test]
fn copy_preserves_cycles_and_failure_is_atomic() {
    let mut world: Heap<Proto> = Heap::new(1);
    let mut current: Heap<Proto> = Heap::new(2);
    let cycle = current.reserve();
    current
        .initialize(cycle, Object::Array(vec![RuntimeValue::Array(cycle)]))
        .unwrap();
    copy_roots(&mut world, view(&current), &[RuntimeValue::Array(cycle)]).unwrap();
    assert_eq!(world.counts().0, 1);

    let before = world.counts();
    let invalid = RuntimeValue::Array(Handle {
        heap: current.id(),
        slot: 99,
    });
    assert!(copy_roots(&mut world, view(&current), &[invalid]).is_err());
    assert_eq!(world.counts(), before);
}

#[test]
fn multiple_roots_share_one_forwarding_context() {
    let mut target: Heap<Proto> = Heap::new(1);
    let mut source: Heap<Proto> = Heap::new(2);
    let shared = source.allocate(Object::Bytes(vec![1]));
    let roots = copy_roots(
        &mut target,
        view(&source),
        &[RuntimeValue::Bytes(shared), RuntimeValue::Bytes(shared)],
    )
    .unwrap();
    assert_eq!(roots[0], roots[1]);
    assert_eq!(target.counts().0, 1);
}

#[test]
fn copied_cycle_refers_to_its_own_copy() {
    let mut world: Heap<Proto> = Heap::new(1);
    world.allocate(Object::Bytes(vec![0]));
    let mut current: Heap<Proto> = Heap::new(2);
    let cycle = current.reserve();
    current
        .initialize(
            cycle,
            Object::Tuple(vec![RuntimeValue::Int(5), RuntimeValue::Tuple(cycle)]),
        )
        .unwrap();
    let copied = copy_roots(&mut world, view(&current), &[RuntimeValue::Tuple(cycle)]).unwrap();
    let expected = Handle {
        heap: world.id(),
        slot: 1,
    };
    assert_eq!(copied, vec![RuntimeValue::Tuple(expected)]);
    let Object::Tuple(values) = world.object(expected).unwrap() else {
        panic!("expected tuple object")
    };
    assert_eq!(
        values,
        &vec![RuntimeValue::Int(5), RuntimeValue::Tuple(expected)]
    );
}

#[test]
fn builtin_atoms_are_recognised_by_their_exact_names() {
    assert_eq!(builtin_atom("None"), Some(BuiltinAtom::NoneAtom));
    assert_eq!(builtin_atom("Some"), Some(BuiltinAtom::SomeAtom));
    assert_eq!(builtin_atom("Ok"), Some(BuiltinAtom::OkAtom));
    assert_eq!(builtin_atom("Err"), Some(BuiltinAtom::ErrAtom));
    assert_eq!(builtin_atom("True"), Some(BuiltinAtom::True));
    assert_eq!(builtin_atom("False"), Some(BuiltinAtom::False));
    assert_eq!(builtin_atom("none"), None);
    assert_eq!(builtin_atom("Custom"), None);
    assert_eq!(builtin_atom(""), None);
}

#[test]
fn atoms_of_builtin_names_are_builtin_and_intern_nothing() {
    let mut heap: Heap<Proto> = Heap::new(4);
    assert_eq!(
        heap.atom(None, "True"),
        RuntimeValue::BuiltinAtom(BuiltinAtom::True)
    );
    assert_eq!(heap.counts(), (0, 0, 0));
    let custom = heap.atom(None, "Custom");
    assert_eq!(
        custom,
        RuntimeValue::Atom(InternId {
            heap: heap.id(),
            slot: 0
        })
    );
    assert_eq!(heap.atom(None, "Custom"), custom);
    assert_eq!(heap.counts(), (0, 1, 0));
}

#[test]
fn interning_stores_each_text_and_shape_once() {
    let mut heap: Heap<Proto> = Heap::new(3);
    let a = heap.intern("a");
    let b = heap.intern("b");
    assert_eq!(heap.intern("a"), a);
    assert_eq!(heap.find_text("b"), Some(b));
    assert_eq!(heap.find_text("c"), None);
    assert_eq!(heap.resolve_text(b).unwrap(), "b");
    let ab = heap.intern_shape(vec![a, b]);
    let ba = heap.intern_shape(vec![b, a]);
    assert_ne!(ab, ba);
    assert_eq!(heap.intern_shape(vec![a, b]), ab);
    assert_eq!(heap.shape(ba).unwrap(), &vec![b, a]);
    assert_eq!(heap.counts(), (0, 2, 2));
}

#[test]
fn lookups_name_the_reason_they_fail() {
    let mut heap: Heap<Proto> = Heap::new(3);
    let mut other: Heap<Proto> = Heap::new(4);
    let foreign = other.allocate(Object::Bytes(vec![]));
    let text = other.intern("x");
    assert_eq!(
        heap.object(foreign).unwrap_err().message(),
        "object handle belongs to another heap"
    );
    let missing = Handle {
        heap: heap.id(),
        slot: 0,
    };
    assert_eq!(
        heap.object(missing).unwrap_err().message(),
        "object handle is out of bounds"
    );
    assert_eq!(
        heap.resolve_text(text).unwrap_err().message(),
        "intern ID belongs to another heap"
    );
    let own = heap.intern("y");
    let past = InternId {
        heap: own.heap,
        slot: 5,
    };
    assert_eq!(
        heap.resolve_text(past).unwrap_err().message(),
        "intern ID is out of bounds"
    );
}

#[test]
fn initialize_fills_only_reserved_slots_of_its_own_heap() {
    let mut heap: Heap<Proto> = Heap::new(3);
    let filled = heap.allocate(Object::Bytes(vec![1]));
    let slot = heap.reserve();
    assert_eq!(
        heap.initialize(filled, Object::Bytes(vec![2]))
            .unwrap_err()
            .message(),
        "heap slot is already initialized"
    );
    let foreign = Handle {
        heap: xl::heap::HeapId(9),
        slot: 1,
    };
    assert_eq!(
        heap.initialize(foreign, Object::Bytes(vec![2]))
            .unwrap_err()
            .message(),
        "object handle belongs to another heap"
    );
    let past = Handle {
        heap: heap.id(),
        slot: 7,
    };
    assert_eq!(
        heap.initialize(past, Object::Bytes(vec![2]))
            .unwrap_err()
            .message(),
        "object handle is out of bounds"
    );
    heap.initialize(slot, Object::Bytes(vec![3])).unwrap();
    let Object::Bytes(bytes) = heap.object(slot).unwrap() else {
        panic!("expected bytes")
    };
    assert_eq!(bytes, &vec![3]);
}

#[test]
fn short_strings_are_interned_and_long_ones_allocated() {
    let mut background: Heap<Proto> = Heap::new(1);
    let shared = background.intern("shared");
    let mut heap: Heap<Proto> = Heap::new(2);
    assert_eq!(
        heap.string(Some(&background), "shared"),
        RuntimeValue::ShortString(shared)
    );
    assert_eq!(heap.counts(), (0, 0, 0));
    let exactly = "x".repeat(32);
    let longer = "x".repeat(33);
    assert!(matches!(
        heap.string(None, &exactly),
        RuntimeValue::ShortString(_)
    ));
    let long = heap.string(None, &longer);
    assert_eq!(
        long,
        RuntimeValue::String(Handle {
            heap: heap.id(),
            slot: 0
        })
    );
    assert_eq!(heap.counts(), (1, 1, 0));
}

#[test]
fn views_reject_heaps_outside_them() {
    let current: Heap<Proto> = Heap::new(2);
    let elsewhere = Handle {
        heap: xl::heap::HeapId(3),
        slot: 0,
    };
    let v = view(&current);
    assert_eq!(
        v.object(elsewhere).unwrap_err().message(),
        "value refers to a heap outside its view"
    );
    let mut target: Heap<Proto> = Heap::new(1);
    let error = copy_roots(&mut target, view(&current), &[RuntimeValue::Array(elsewhere)])
        .unwrap_err();
    assert_eq!(error.message(), "value refers to a heap outside its view");
    assert_eq!(target.counts(), (0, 0, 0));
}

#[test]
fn copying_an_uninitialized_object_fails_and_leaves_the_target() {
    let mut target: Heap<Proto> = Heap::new(1);
    target.allocate(Object::Bytes(vec![1]));
    let mut source: Heap<Proto> = Heap::new(2);
    let reserved = source.reserve();
    let error = copy_roots(&mut target, view(&source), &[RuntimeValue::Array(reserved)])
        .unwrap_err();
    assert_eq!(error.message(), "cannot copy an uninitialized object");
    assert_eq!(target.counts(), (1, 0, 0));
}

#[test]
fn copy_keeps_target_references_and_immediates() {
    let mut target: Heap<Proto> = Heap::new(1);
    let own = target.allocate(Object::Bytes(vec![1]));
    let source: Heap<Proto> = Heap::new(2);
    let roots = [
        RuntimeValue::Bytes(own),
        RuntimeValue::Int(-3),
        RuntimeValue::Float(0x4000_0000_0000_0000),
        RuntimeValue::BuiltinAtom(BuiltinAtom::OkAtom),
    ];
    let copied = copy_roots(&mut target, view(&source), &roots).unwrap();
    assert_eq!(copied, roots.to_vec());
    assert_eq!(target.counts(), (1, 0, 0));
    let dangling = RuntimeValue::Bytes(Handle {
        heap: target.id(),
        slot: 4,
    });
    assert_eq!(
        copy_roots(&mut target, view(&source), &[dangling])
            .unwrap_err()
            .message(),
        "object handle is out of bounds"
    );
}

#[test]
fn copy_reuses_texts_and_shapes_the_target_has() {
    let mut world: Heap<Proto> = Heap::new(1);
    let world_key = world.intern("key");
    let mut current: Heap<Proto> = Heap::new(2);
    let key = current.intern("key");
    let other = current.intern("other");
    let shape = current.intern_shape(vec![key, other]);
    let first = current.allocate(Object::Dict {
        shape,
        values: vec![RuntimeValue::Atom(other), RuntimeValue::Int(1)],
    });
    let second = current.allocate(Object::Dict {
        shape,
        values: vec![RuntimeValue::ShortString(key), RuntimeValue::Int(2)],
    });
    let copied = copy_roots(
        &mut world,
        view(&current),
        &[RuntimeValue::Dict(first), RuntimeValue::Dict(second)],
    )
    .unwrap();
    assert_eq!(world.counts(), (2, 2, 1));
    let RuntimeValue::Dict(copied_first) = copied[0] else {
        panic!("expected dict")
    };
    let Object::Dict { shape, values } = world.object(copied_first).unwrap() else {
        panic!("expected dict object")
    };
    let other_here = world.find_text("other").unwrap();
    assert_eq!(world.shape(*shape).unwrap(), &vec![world_key, other_here]);
    assert_eq!(
        values,
        &vec![RuntimeValue::Atom(other_here), RuntimeValue::Int(1)]
    );
    let RuntimeValue::Dict(copied_second) = copied[1] else {
        panic!("expected dict")
    };
    let Object::Dict {
        shape: second_shape,
        values,
    } = world.object(copied_second).unwrap()
    else {
        panic!("expected dict object")
    };
    assert_eq!(second_shape, shape);
    assert_eq!(
        values,
        &vec![RuntimeValue::ShortString(world_key), RuntimeValue::Int(2)]
    );
}

#[test]
fn copy_reaches_through_the_background_heap() {
    let mut target: Heap<Proto> = Heap::new(1);
    let mut background: Heap<Proto> = Heap::new(3);
    let bytes = background.allocate(Object::Bytes(vec![7, 7]));
    let mut current: Heap<Proto> = Heap::new(2);
    let root = current.allocate(Object::Array(vec![RuntimeValue::Bytes(bytes)]));
    let copied = copy_roots(
        &mut target,
        HeapView {
            current: &current,
            background: Some(&background),
        },
        &[RuntimeValue::Array(root)],
    )
    .unwrap();
    assert_eq!(target.counts(), (2, 0, 0));
    let RuntimeValue::Array(copied_root) = copied[0] else {
        panic!("expected array")
    };
    let Object::Array(values) = target.object(copied_root).unwrap() else {
        panic!("expected array object")
    };
    let RuntimeValue::Bytes(copied_bytes) = values[0] else {
        panic!("expected bytes")
    };
    let Object::Bytes(data) = target.object(copied_bytes).unwrap() else {
        panic!("expected bytes object")
    };
    assert_eq!(data, &vec![7, 7]);
}

#[test]
fn copied_closures_relink_their_code_and_keep_native_functions() {
    let mut target: Heap<Proto> = Heap::new(1);
    let mut source: Heap<Proto> = Heap::new(2);
    let compiled = source.allocate(Object::Closure {
        prototype: RuntimePrototype::Bytecode(Code(7)),
        upvalues: vec![RuntimeValue::Int(1)],
    });
    let native = source.allocate(Object::Closure {
        prototype: RuntimePrototype::Native(NativeFunction::new("f", 1, 5u8)),
        upvalues: vec![RuntimeValue::Func(compiled)],
    });
    let copied = copy_roots(&mut target, view(&source), &[RuntimeValue::Func(native)]).unwrap();
    assert_eq!(target.counts(), (2, 0, 0));
    let RuntimeValue::Func(copied_native) = copied[0] else {
        panic!("expected function")
    };
    let Object::Closure {
        prototype,
        upvalues,
    } = target.object(copied_native).unwrap()
    else {
        panic!("expected closure")
    };
    assert!(matches!(prototype, RuntimePrototype::Native(_)));
    let RuntimeValue::Func(copied_compiled) = upvalues[0] else {
        panic!("expected function")
    };
    let Object::Closure { prototype, .. } = target.object(copied_compiled).unwrap() else {
        panic!("expected closure")
    };
    assert!(matches!(prototype, RuntimePrototype::Bytecode(Code(8))));
}

#[test]
fn foreign_checks_look_at_every_reference() {
    let here = xl::heap::HeapId(1);
    let there = xl::heap::HeapId(2);
    let local = Handle {
        heap: here,
        slot: 0,
    };
    let remote = Handle {
        heap: there,
        slot: 0,
    };
    assert!(!value_contains_foreign(RuntimeValue::Int(1), here));
    assert!(!value_contains_foreign(RuntimeValue::Array(local), here));
    assert!(value_contains_foreign(RuntimeValue::Array(remote), here));
    assert!(value_contains_foreign(
        RuntimeValue::Atom(InternId {
            heap: there,
            slot: 0
        }),
        here
    ));
    assert!(object_contains_foreign(&Object::<Proto>::Reserved, here));
    assert!(!object_contains_foreign(
        &Object::<Proto>::String("s".to_string()),
        here
    ));
    assert!(object_contains_foreign(
        &Object::<Proto>::Tuple(vec![RuntimeValue::Int(0), RuntimeValue::Bytes(remote)]),
        here
    ));
    assert!(object_contains_foreign(
        &Object::<Proto>::Dict {
            shape: xl::heap::ShapeId {
                heap: there,
                slot: 0
            },
            values: vec![]
        },
        here
    ));
}

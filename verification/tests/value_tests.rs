use xl::value::{CoreArrayFunction, CoreDictFunction, NativeFunction, NativeKind};

fn host(x: i64) -> i64 {
    x + 1
}

#[test]
fn core_functions_have_names_and_arities() {
    let map = NativeFunction::<fn(i64) -> i64>::core_array(CoreArrayFunction::MapEach);
    assert_eq!(map.name(), "core:array.map");
    assert_eq!(map.arity(), 2);
    assert!(map.callback().is_none());
    assert_eq!(map.kind(), NativeKind::CoreArray(CoreArrayFunction::MapEach));
    let merge = NativeFunction::<fn(i64) -> i64>::core_dict(CoreDictFunction::Merge);
    assert_eq!(merge.name(), "core:dict.merge");
    assert_eq!(merge.arity(), 2);
    assert_eq!(CoreArrayFunction::Fold.arity(), 3);
}

#[test]
fn host_functions_keep_their_callback() {
    let f = NativeFunction::new("inc", 1, host as fn(i64) -> i64);
    assert_eq!(f.name(), "inc");
    assert_eq!(f.arity(), 1);
    assert_eq!((f.callback().unwrap())(41), 42);
    assert_eq!(f.kind(), NativeKind::Synchronous);
}

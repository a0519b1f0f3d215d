//! The modules of the core library: their names, their declaring source and
//! the native functions that stand behind their declarations.

use vstd::prelude::*;
use crate::value::{
    CoreArrayFunction, CoreAttributesFunction, CoreCodecFunction, CoreDebugFunction, CoreDictFunction,
    CoreJsonFunction, CoreResultFunction, NativeFunction, NativeKind,
};

verus! {

pub const ATTRIBUTES_MODULE: &'static str = "core:attributes";
pub const ARRAY_MODULE: &'static str = "core:array";
pub const DICT_MODULE: &'static str = "core:dict";
pub const DEBUG_MODULE: &'static str = "core:debug";
pub const CODEC_MODULE: &'static str = "core:codec";
pub const RESULT_MODULE: &'static str = "core:result";
pub const JSON_MODULE: &'static str = "core:json";

/// The declarations of `core:attributes`.
pub const ATTRIBUTES_SOURCE: &'static str = r#"
native normalize: Fn(Any) -> Any;
native add: Fn(Any, Any) -> Any;
native get: Fn(Any, String) -> Any;
native has: Fn(Any, String) -> Any;
native all: Fn(Any) -> Any;
native strip: Fn(Any) -> Any;
{ normalize: normalize, add: add, get: get, has: has, all: all, strip: strip }
"#;

/// The declarations of `core:array`.
pub const ARRAY_SOURCE: &'static str = r#"
native length: for(A) Fn(Array(A)) -> Int;
native map: for(A, B) Fn(Array(A), Fn(A) -> B) -> Array(B);
native filter: for(A) Fn(Array(A), Fn(A) -> Any) -> Array(A);
native flat_map: for(A, B) Fn(Array(A), Fn(A) -> Array(B)) -> Array(B);
native fold: for(A, B) Fn(Array(A), B, Fn(B, A) -> B) -> B;
{ length: length, map: map, filter: filter, flat_map: flat_map, fold: fold }
"#;

/// The declarations of `core:dict`.
pub const DICT_SOURCE: &'static str = r#"
native keys: Fn(Any) -> Array(String);
native values: Fn(Any) -> Array(Any);
native pairs: Fn(Any) -> Array(Any);
native from_pairs: Fn(Array(Any)) -> Any;
native merge: Fn(Any, Any) -> Any;
{ keys: keys, values: values, pairs: pairs, from_pairs: from_pairs, merge: merge }
"#;

/// The declarations of `core:debug`.
pub const DEBUG_SOURCE: &'static str = r#"
native dbg: Fn(Any) -> Any;
native dbg_with: Fn(String, Any) -> Any;
{ dbg: dbg, dbg_with: dbg_with }
"#;

/// The declarations of `core:codec`.
pub const CODEC_SOURCE: &'static str = r#"
native decode: Fn(Any, Any) -> Any;
native encode: Fn(Any, Any) -> Any;
{ decode: decode, encode: encode }
"#;

/// The declarations of `core:result`.
pub const RESULT_SOURCE: &'static str = r#"
native unwrap: Fn(Any) -> Any;
{ unwrap: unwrap }
"#;

/// The declarations of `core:json`.
pub const JSON_SOURCE: &'static str = r#"
native stringify: Fn(Any) -> String;
native stringify_pretty: Fn(Int) -> Fn(Any) -> String;
native rename: Fn(String) -> Fn(Any, Any) -> Any;
native rename_all: Fn(Any) -> Fn(Any, Any) -> Any;
native flatten: Fn(Any, Any) -> Any;
native untagged: Fn(Any, Any) -> Any;
native schema: Fn(Any) -> Any;
native default: Fn(Any) -> Fn(Any, Any) -> Any;
native skip_serializing_if: Fn(Any) -> Fn(Any, Any) -> Any;
{
    stringify: stringify,
    stringify_pretty: stringify_pretty,
    rename: rename,
    rename_all: rename_all,
    flatten: flatten,
    untagged: untagged,
    schema: schema,
    default: default,
    skip_serializing_if: skip_serializing_if,
}
"#;

/// A core module: its name, the source that declares it, and the native
/// function behind each declared name.
pub struct CoreModuleSpec<C> {
    pub name: &'static str,
    pub source: &'static str,
    pub functions: Vec<(&'static str, NativeFunction<C>)>,
}

/// The name of the `i`-th core module.
pub open spec fn core_name(i: int) -> Seq<char> {
    if i == 0 {
        ATTRIBUTES_MODULE@
    } else if i == 1 {
        ARRAY_MODULE@
    } else if i == 2 {
        DICT_MODULE@
    } else if i == 3 {
        DEBUG_MODULE@
    } else if i == 4 {
        CODEC_MODULE@
    } else if i == 5 {
        RESULT_MODULE@
    } else {
        JSON_MODULE@
    }
}

/// The declaring source of the `i`-th core module.
pub open spec fn core_source(i: int) -> Seq<char> {
    if i == 0 {
        ATTRIBUTES_SOURCE@
    } else if i == 1 {
        ARRAY_SOURCE@
    } else if i == 2 {
        DICT_SOURCE@
    } else if i == 3 {
        DEBUG_SOURCE@
    } else if i == 4 {
        CODEC_SOURCE@
    } else if i == 5 {
        RESULT_SOURCE@
    } else {
        JSON_SOURCE@
    }
}

/// The names declared by the `i`-th core module, each with the core
/// function behind it.
pub open spec fn core_functions(i: int) -> Seq<(Seq<char>, NativeKind)> {
    if i == 0 {
        seq![
            ("add"@, NativeKind::CoreAttributes(CoreAttributesFunction::Add)),
            ("all"@, NativeKind::CoreAttributes(CoreAttributesFunction::All)),
            ("get"@, NativeKind::CoreAttributes(CoreAttributesFunction::Get)),
            ("has"@, NativeKind::CoreAttributes(CoreAttributesFunction::Has)),
            ("normalize"@, NativeKind::CoreAttributes(CoreAttributesFunction::Normalize)),
            ("strip"@, NativeKind::CoreAttributes(CoreAttributesFunction::Strip)),
        ]
    } else if i == 1 {
        seq![
            ("filter"@, NativeKind::CoreArray(CoreArrayFunction::Filter)),
            ("flat_map"@, NativeKind::CoreArray(CoreArrayFunction::FlatMap)),
            ("fold"@, NativeKind::CoreArray(CoreArrayFunction::Fold)),
            ("length"@, NativeKind::CoreArray(CoreArrayFunction::Length)),
            ("map"@, NativeKind::CoreArray(CoreArrayFunction::MapEach)),
        ]
    } else if i == 2 {
        seq![
            ("from_pairs"@, NativeKind::CoreDict(CoreDictFunction::FromPairs)),
            ("keys"@, NativeKind::CoreDict(CoreDictFunction::Keys)),
            ("merge"@, NativeKind::CoreDict(CoreDictFunction::Merge)),
            ("pairs"@, NativeKind::CoreDict(CoreDictFunction::Pairs)),
            ("values"@, NativeKind::CoreDict(CoreDictFunction::Values)),
        ]
    } else if i == 3 {
        seq![
            ("dbg"@, NativeKind::CoreDebug(CoreDebugFunction::Dbg)),
            ("dbg_with"@, NativeKind::CoreDebug(CoreDebugFunction::DbgWith)),
        ]
    } else if i == 4 {
        seq![
            ("decode"@, NativeKind::CoreCodec(CoreCodecFunction::Decode)),
            ("encode"@, NativeKind::CoreCodec(CoreCodecFunction::Encode)),
        ]
    } else if i == 5 {
        seq![
            ("unwrap"@, NativeKind::CoreResult(CoreResultFunction::Unwrap)),
        ]
    } else {
        seq![
            ("default"@, NativeKind::CoreJson(CoreJsonFunction::Default)),
            ("flatten"@, NativeKind::CoreJson(CoreJsonFunction::Flatten)),
            ("untagged"@, NativeKind::CoreJson(CoreJsonFunction::Untagged)),
            ("schema"@, NativeKind::CoreJson(CoreJsonFunction::Schema)),
            ("rename"@, NativeKind::CoreJson(CoreJsonFunction::Rename)),
            ("rename_all"@, NativeKind::CoreJson(CoreJsonFunction::RenameAll)),
            ("skip_serializing_if"@, NativeKind::CoreJson(CoreJsonFunction::SkipSerializingIf)),
            ("stringify"@, NativeKind::CoreJson(CoreJsonFunction::Stringify)),
            ("stringify_pretty"@, NativeKind::CoreJson(CoreJsonFunction::StringifyPretty)),
        ]
    }
}

/// `functions` holds the names and core functions of `expected`, in order,
/// each without a callback.
pub open spec fn functions_match<C: Copy>(
    functions: Seq<(&'static str, NativeFunction<C>)>,
    expected: Seq<(Seq<char>, NativeKind)>,
) -> bool {
    &&& functions.len() == expected.len()
    &&& forall|j: int|
        0 <= j < functions.len() ==> (#[trigger] functions[j]).0@ == expected[j].0 && functions[j].1.spec_kind() == expected[j].1
            && functions[j].1.spec_callback() is None
}

fn attributes_functions<C: Copy>() -> (v: Vec<(&'static str, NativeFunction<C>)>)
    ensures
        functions_match(v@, core_functions(0)),
{
    let mut v: Vec<(&'static str, NativeFunction<C>)> = Vec::new();
    v.push(("add", NativeFunction::core_attributes(CoreAttributesFunction::Add)));
    v.push(("all", NativeFunction::core_attributes(CoreAttributesFunction::All)));
    v.push(("get", NativeFunction::core_attributes(CoreAttributesFunction::Get)));
    v.push(("has", NativeFunction::core_attributes(CoreAttributesFunction::Has)));
    v.push(("normalize", NativeFunction::core_attributes(CoreAttributesFunction::Normalize)));
    v.push(("strip", NativeFunction::core_attributes(CoreAttributesFunction::Strip)));
    v
}

fn array_functions<C: Copy>() -> (v: Vec<(&'static str, NativeFunction<C>)>)
    ensures
        functions_match(v@, core_functions(1)),
{
    let mut v: Vec<(&'static str, NativeFunction<C>)> = Vec::new();
    v.push(("filter", NativeFunction::core_array(CoreArrayFunction::Filter)));
    v.push(("flat_map", NativeFunction::core_array(CoreArrayFunction::FlatMap)));
    v.push(("fold", NativeFunction::core_array(CoreArrayFunction::Fold)));
    v.push(("length", NativeFunction::core_array(CoreArrayFunction::Length)));
    v.push(("map", NativeFunction::core_array(CoreArrayFunction::MapEach)));
    v
}

fn dict_functions<C: Copy>() -> (v: Vec<(&'static str, NativeFunction<C>)>)
    ensures
        functions_match(v@, core_functions(2)),
{
    let mut v: Vec<(&'static str, NativeFunction<C>)> = Vec::new();
    v.push(("from_pairs", NativeFunction::core_dict(CoreDictFunction::FromPairs)));
    v.push(("keys", NativeFunction::core_dict(CoreDictFunction::Keys)));
    v.push(("merge", NativeFunction::core_dict(CoreDictFunction::Merge)));
    v.push(("pairs", NativeFunction::core_dict(CoreDictFunction::Pairs)));
    v.push(("values", NativeFunction::core_dict(CoreDictFunction::Values)));
    v
}

fn debug_functions<C: Copy>() -> (v: Vec<(&'static str, NativeFunction<C>)>)
    ensures
        functions_match(v@, core_functions(3)),
{
    let mut v: Vec<(&'static str, NativeFunction<C>)> = Vec::new();
    v.push(("dbg", NativeFunction::core_debug(CoreDebugFunction::Dbg)));
    v.push(("dbg_with", NativeFunction::core_debug(CoreDebugFunction::DbgWith)));
    v
}

fn codec_functions<C: Copy>() -> (v: Vec<(&'static str, NativeFunction<C>)>)
    ensures
        functions_match(v@, core_functions(4)),
{
    let mut v: Vec<(&'static str, NativeFunction<C>)> = Vec::new();
    v.push(("decode", NativeFunction::core_codec(CoreCodecFunction::Decode)));
    v.push(("encode", NativeFunction::core_codec(CoreCodecFunction::Encode)));
    v
}

fn result_functions<C: Copy>() -> (v: Vec<(&'static str, NativeFunction<C>)>)
    ensures
        functions_match(v@, core_functions(5)),
{
    let mut v: Vec<(&'static str, NativeFunction<C>)> = Vec::new();
    v.push(("unwrap", NativeFunction::core_result(CoreResultFunction::Unwrap)));
    v
}

fn json_functions<C: Copy>() -> (v: Vec<(&'static str, NativeFunction<C>)>)
    ensures
        functions_match(v@, core_functions(6)),
{
    let mut v: Vec<(&'static str, NativeFunction<C>)> = Vec::new();
    v.push(("default", NativeFunction::core_json(CoreJsonFunction::Default)));
    v.push(("flatten", NativeFunction::core_json(CoreJsonFunction::Flatten)));
    v.push(("untagged", NativeFunction::core_json(CoreJsonFunction::Untagged)));
    v.push(("schema", NativeFunction::core_json(CoreJsonFunction::Schema)));
    v.push(("rename", NativeFunction::core_json(CoreJsonFunction::Rename)));
    v.push(("rename_all", NativeFunction::core_json(CoreJsonFunction::RenameAll)));
    v.push(("skip_serializing_if", NativeFunction::core_json(CoreJsonFunction::SkipSerializingIf)));
    v.push(("stringify", NativeFunction::core_json(CoreJsonFunction::Stringify)));
    v.push(("stringify_pretty", NativeFunction::core_json(CoreJsonFunction::StringifyPretty)));
    v
}

/// The seven core modules, in the order in which they are registered.
pub fn module_specs<C: Copy>() -> (r: Vec<CoreModuleSpec<C>>)
    ensures
        r@.len() == 7,
        forall|i: int|
            0 <= i < 7 ==> (#[trigger] r@[i]).name@ == core_name(i) && r@[i].source@ == core_source(i)
                && functions_match(r@[i].functions@, core_functions(i)),
{
    let mut r: Vec<CoreModuleSpec<C>> = Vec::new();
    r.push(CoreModuleSpec { name: ATTRIBUTES_MODULE, source: ATTRIBUTES_SOURCE, functions: attributes_functions() });
    r.push(CoreModuleSpec { name: ARRAY_MODULE, source: ARRAY_SOURCE, functions: array_functions() });
    r.push(CoreModuleSpec { name: DICT_MODULE, source: DICT_SOURCE, functions: dict_functions() });
    r.push(CoreModuleSpec { name: DEBUG_MODULE, source: DEBUG_SOURCE, functions: debug_functions() });
    r.push(CoreModuleSpec { name: CODEC_MODULE, source: CODEC_SOURCE, functions: codec_functions() });
    r.push(CoreModuleSpec { name: RESULT_MODULE, source: RESULT_SOURCE, functions: result_functions() });
    r.push(CoreModuleSpec { name: JSON_MODULE, source: JSON_SOURCE, functions: json_functions() });
    r
}

} // verus!

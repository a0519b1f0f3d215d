//! Atoms, record shapes and native-function errors of the runtime value model.

use vstd::prelude::*;
use vstd::string::StringSliceAdditionalSpecFns;
use vstd::utf8::{encode_utf8, encode_utf8_decode_utf8};
use crate::text::{bytes_lt, compare_str, lemma_bytes_lt_irreflexive, lemma_bytes_lt_transitive};
use crate::descriptor::{atom_view, AtomView};

verus! {

/// The atoms that the language itself gives meaning to.
#[derive(Clone, Copy, Debug, PartialEq, Eq, Structural, Hash)]
pub enum BuiltinAtom {
    NoneAtom,
    SomeAtom,
    OkAtom,
    ErrAtom,
    True,
    False,
}

impl BuiltinAtom {
    pub open spec fn spec_name(self) -> Seq<char> {
        match self {
            BuiltinAtom::NoneAtom => "None"@,
            BuiltinAtom::SomeAtom => "Some"@,
            BuiltinAtom::OkAtom => "Ok"@,
            BuiltinAtom::ErrAtom => "Err"@,
            BuiltinAtom::True => "True"@,
            BuiltinAtom::False => "False"@,
        }
    }

    /// The atom's name, without the leading quote.
    pub fn name(self) -> (s: &'static str)
        ensures
            s@ == self.spec_name(),
    {
        match self {
            BuiltinAtom::NoneAtom => "None",
            BuiltinAtom::SomeAtom => "Some",
            BuiltinAtom::OkAtom => "Ok",
            BuiltinAtom::ErrAtom => "Err",
            BuiltinAtom::True => "True",
            BuiltinAtom::False => "False",
        }
    }
}

/// An atom such as `'Ok` or `'Custom`.
#[derive(Clone, Debug)]
pub enum Atom {
    Builtin(BuiltinAtom),
    Named(String),
}

impl Atom {
    pub open spec fn spec_name(self) -> Seq<char> {
        match self {
            Atom::Builtin(a) => a.spec_name(),
            Atom::Named(n) => n@,
        }
    }

    /// A user-named atom.
    pub fn named(name: &str) -> (a: Atom)
        ensures
            a matches Atom::Named(n) && n@ == name@,
    {
        Atom::Named(name.to_owned())
    }

    /// A builtin atom.
    pub fn builtin(atom: BuiltinAtom) -> (a: Atom)
        ensures
            a == Atom::Builtin(atom),
    {
        Atom::Builtin(atom)
    }

    /// The atom's name, without the leading quote.
    pub fn name(&self) -> (s: &str)
        ensures
            s@ == self.spec_name(),
    {
        match self {
            Atom::Builtin(atom) => atom.name(),
            Atom::Named(name) => name.as_str(),
        }
    }
}

/// Field names in strictly increasing byte order, hence without duplicates.
pub open spec fn sorted_names(fields: Seq<String>) -> bool {
    forall|i: int, j: int|
        0 <= i < j < fields.len() ==> bytes_lt(
            encode_utf8((#[trigger] fields[i])@),
            encode_utf8((#[trigger] fields[j])@),
        )
}

/// The ordered field names shared by records of one layout.
#[derive(Debug)]
pub struct Shape {
    fields: Vec<String>,
}

impl Shape {
    /// The field names, in increasing order.
    pub closed spec fn spec_fields(self) -> Seq<String> {
        self.fields@
    }

    #[verifier::type_invariant]
    spec fn inv(self) -> bool {
        sorted_names(self.fields@)
    }

    /// A shape from field names that are already strictly sorted.
    pub fn from_sorted_fields(fields: Vec<String>) -> (s: Shape)
        requires
            sorted_names(fields@),
        ensures
            s.spec_fields() == fields@,
    {
        Shape { fields }
    }

    /// The field names, in increasing order.
    pub fn fields(&self) -> (f: &[String])
        ensures
            f@ == self.spec_fields(),
            sorted_names(f@),
    {
        proof {
            use_type_invariant(self);
        }
        self.fields.as_slice()
    }

    /// The position of `field` among the field names, if present.
    pub fn field_index(&self, field: &str) -> (r: Option<usize>)
        ensures
            r matches Some(i) ==> i < self.spec_fields().len() && self.spec_fields()[i as int]@
                == field@,
            r is None ==> forall|i: int|
                0 <= i < self.spec_fields().len() ==> (#[trigger] self.spec_fields()[i])@
                    != field@,
    {
        proof {
            use_type_invariant(self);
        }
        let f = &self.fields;
        let ghost key = field.spec_bytes();
        let mut lo: usize = 0;
        let mut hi: usize = f.len();
        while lo < hi
            invariant
                f@ == self.spec_fields(),
                sorted_names(f@),
                key == field.spec_bytes(),
                hi <= f@.len(),
                forall|j: int| 0 <= j < lo ==> bytes_lt(encode_utf8((#[trigger] f@[j])@), key),
                forall|j: int| hi <= j < f@.len() ==> bytes_lt(key, encode_utf8((#[trigger] f@[j])@)),
            decreases hi - lo,
        {
            let mid = lo + (hi - lo) / 2;
            let name = f[mid].as_str();
            assert(name@ == f@[mid as int]@);
            let c = compare_str(name, field);
            if c == 0 {
                proof {
                    assert(name.spec_bytes() == encode_utf8(name@));
                    assert(field.spec_bytes() == encode_utf8(field@));
                    lemma_utf8_injective(f@[mid as int]@, field@);
                    assert(f@[mid as int]@ == field@);
                    assert(self.spec_fields()[mid as int]@ == field@);
                }
                return Some(mid);
            } else if c < 0 {
                proof {
                    assert forall|j: int| 0 <= j < mid + 1 implies bytes_lt(
                        encode_utf8((#[trigger] f@[j])@),
                        key,
                    ) by {
                        if j < mid {
                            lemma_bytes_lt_transitive(
                                encode_utf8(f@[j]@),
                                encode_utf8(f@[mid as int]@),
                                key,
                            );
                        }
                    }
                }
                lo = mid + 1;
            } else {
                proof {
                    assert forall|j: int| mid <= j < f@.len() implies bytes_lt(
                        key,
                        encode_utf8((#[trigger] f@[j])@),
                    ) by {
                        if j > mid {
                            lemma_bytes_lt_transitive(
                                key,
                                encode_utf8(f@[mid as int]@),
                                encode_utf8(f@[j]@),
                            );
                        }
                    }
                }
                hi = mid;
            }
        }
        proof {
            assert forall|i: int| 0 <= i < f@.len() implies (#[trigger] f@[i])@ != field@ by {
                if f@[i]@ == field@ {
                    lemma_bytes_lt_irreflexive(key);
                }
            }
        }
        None
    }
}

/// `true` when the two texts are equal.
pub fn same_str(a: &str, b: &str) -> (r: bool)
    ensures
        r == (a@ == b@),
{
    let c = compare_str(a, b);
    proof {
        assert(a.spec_bytes() == encode_utf8(a@));
        assert(b.spec_bytes() == encode_utf8(b@));
        if c == 0 {
            lemma_utf8_injective(a@, b@);
        }
    }
    c == 0
}
/// Equal UTF-8 encodings come from equal texts.
pub proof fn lemma_utf8_injective(a: Seq<char>, b: Seq<char>)
    requires
        encode_utf8(a) == encode_utf8(b),
    ensures
        a == b,
{
    encode_utf8_decode_utf8(a);
    encode_utf8_decode_utf8(b);
}

/// A limit that a native function ran into.
#[derive(Clone, Copy, Debug, PartialEq, Eq, Structural, Hash)]
pub enum NativeLimit {
    Stack,
    Allocation,
}

/// An error raised by a native function, possibly because it hit a limit.
#[derive(Clone, Debug)]
pub struct NativeError {
    pub message: String,
    pub limit: Option<NativeLimit>,
}

impl NativeError {
    /// An ordinary error with `message`.
    pub fn new(message: String) -> (e: NativeError)
        ensures
            e.message@ == message@,
            e.limit is None,
    {
        NativeError { message, limit: None }
    }

    /// An error raised because the call stack limit was reached.
    pub fn stack_limit(message: String) -> (e: NativeError)
        ensures
            e.message@ == message@,
            e.limit == Some(NativeLimit::Stack),
    {
        NativeError { message, limit: Some(NativeLimit::Stack) }
    }

    /// An error raised because the allocation limit was reached.
    pub fn allocation_limit(message: String) -> (e: NativeError)
        ensures
            e.message@ == message@,
            e.limit == Some(NativeLimit::Allocation),
    {
        NativeError { message, limit: Some(NativeLimit::Allocation) }
    }

    /// The limit the error reports, if any.
    pub fn limit(&self) -> (l: Option<NativeLimit>)
        ensures
            l == self.limit,
    {
        self.limit
    }
}

} // verus!

verus! {

/// The core functions of the `core:dict` module.
#[derive(Clone, Copy, Debug, PartialEq, Eq, Structural)]
pub enum CoreDictFunction {
    Keys,
    Values,
    Pairs,
    FromPairs,
    Merge,
}

/// The core functions of the `core:attributes` module.
#[derive(Clone, Copy, Debug, PartialEq, Eq, Structural)]
pub enum CoreAttributesFunction {
    Normalize,
    Add,
    Get,
    Has,
    All,
    Strip,
}

/// The type constructors of the data model.
#[derive(Clone, Copy, Debug, PartialEq, Eq, Structural)]
pub enum CoreModelFunction {
    Struct,
    Enum,
    Union,
}

/// The built-in generic types.
#[derive(Clone, Copy, Debug, PartialEq, Eq, Structural)]
pub enum CoreBuiltinTypeFunction {
    Option,
    Result,
}

/// The core functions of the `core:debug` module.
#[derive(Clone, Copy, Debug, PartialEq, Eq, Structural)]
pub enum CoreDebugFunction {
    Dbg,
    DbgWith,
}

/// The core functions of the `core:codec` module.
#[derive(Clone, Copy, Debug, PartialEq, Eq, Structural)]
pub enum CoreCodecFunction {
    Decode,
    Encode,
}

/// The core functions of the `core:result` module.
#[derive(Clone, Copy, Debug, PartialEq, Eq, Structural)]
pub enum CoreResultFunction {
    Unwrap,
}

/// The core functions of the `core:json` module.
#[derive(Clone, Copy, Debug, PartialEq, Eq, Structural)]
pub enum CoreJsonFunction {
    Stringify,
    StringifyPretty,
    StringifyPrettyValue,
    Rename,
    RenameAll,
    Flatten,
    Untagged,
    Schema,
    Default,
    SkipSerializingIf,
}

/// The core functions of the `core:array` module.
#[derive(Clone, Copy, Debug, PartialEq, Eq, Structural)]
pub enum CoreArrayFunction {
    Length,
    MapEach,
    Filter,
    FlatMap,
    Fold,
}

impl CoreAttributesFunction {
    pub fn name(self) -> (s: &'static str)
        ensures
            s@ == match self {
                CoreAttributesFunction::Normalize => "core:attributes.normalize"@,
                CoreAttributesFunction::Add => "core:attributes.add"@,
                CoreAttributesFunction::Get => "core:attributes.get"@,
                CoreAttributesFunction::Has => "core:attributes.has"@,
                CoreAttributesFunction::All => "core:attributes.all"@,
                CoreAttributesFunction::Strip => "core:attributes.strip"@,
            },
    {
        match self {
            CoreAttributesFunction::Normalize => "core:attributes.normalize",
            CoreAttributesFunction::Add => "core:attributes.add",
            CoreAttributesFunction::Get => "core:attributes.get",
            CoreAttributesFunction::Has => "core:attributes.has",
            CoreAttributesFunction::All => "core:attributes.all",
            CoreAttributesFunction::Strip => "core:attributes.strip",
        }
    }

    pub fn arity(self) -> (n: usize)
        ensures
            n == match self {
                CoreAttributesFunction::Normalize | CoreAttributesFunction::All
                | CoreAttributesFunction::Strip => 1usize,
                _ => 2usize,
            },
    {
        match self {
            CoreAttributesFunction::Normalize | CoreAttributesFunction::All
            | CoreAttributesFunction::Strip => 1,
            CoreAttributesFunction::Add | CoreAttributesFunction::Get
            | CoreAttributesFunction::Has => 2,
        }
    }
}

impl CoreModelFunction {
    pub fn name(self) -> (s: &'static str)
        ensures
            s@ == match self {
                CoreModelFunction::Struct => "struct"@,
                CoreModelFunction::Enum => "enum"@,
                CoreModelFunction::Union => "union"@,
            },
    {
        match self {
            CoreModelFunction::Struct => "struct",
            CoreModelFunction::Enum => "enum",
            CoreModelFunction::Union => "union",
        }
    }

    pub fn arity(self) -> (n: usize)
        ensures
            n == 2,
    {
        2
    }
}

impl CoreBuiltinTypeFunction {
    pub fn name(self) -> (s: &'static str)
        ensures
            s@ == match self {
                CoreBuiltinTypeFunction::Option => "Option"@,
                CoreBuiltinTypeFunction::Result => "Result"@,
            },
    {
        match self {
            CoreBuiltinTypeFunction::Option => "Option",
            CoreBuiltinTypeFunction::Result => "Result",
        }
    }

    pub fn arity(self) -> (n: usize)
        ensures
            n == match self {
                CoreBuiltinTypeFunction::Option => 1usize,
                CoreBuiltinTypeFunction::Result => 2usize,
            },
    {
        match self {
            CoreBuiltinTypeFunction::Option => 1,
            CoreBuiltinTypeFunction::Result => 2,
        }
    }
}

impl CoreCodecFunction {
    pub fn name(self) -> (s: &'static str)
        ensures
            s@ == match self {
                CoreCodecFunction::Decode => "core:codec.decode"@,
                CoreCodecFunction::Encode => "core:codec.encode"@,
            },
    {
        match self {
            CoreCodecFunction::Decode => "core:codec.decode",
            CoreCodecFunction::Encode => "core:codec.encode",
        }
    }

    pub fn arity(self) -> (n: usize)
        ensures
            n == 2,
    {
        2
    }
}

impl CoreResultFunction {
    pub fn name(self) -> (s: &'static str)
        ensures
            s@ == "core:result.unwrap"@,
    {
        "core:result.unwrap"
    }

    pub fn arity(self) -> (n: usize)
        ensures
            n == 1,
    {
        1
    }
}

impl CoreJsonFunction {
    pub fn name(self) -> (s: &'static str)
        ensures
            s@ == match self {
                CoreJsonFunction::Stringify => "core:json.stringify"@,
                CoreJsonFunction::StringifyPretty => "core:json.stringify_pretty"@,
                CoreJsonFunction::StringifyPrettyValue => "core:json.stringify_pretty.configured"@,
                CoreJsonFunction::Rename => "core:json.rename"@,
                CoreJsonFunction::RenameAll => "core:json.rename_all"@,
                CoreJsonFunction::Flatten => "core:json.flatten"@,
                CoreJsonFunction::Untagged => "core:json.untagged"@,
                CoreJsonFunction::Schema => "core:json.schema"@,
                CoreJsonFunction::Default => "core:json.default"@,
                CoreJsonFunction::SkipSerializingIf => "core:json.skip_serializing_if"@,
            },
    {
        match self {
            CoreJsonFunction::Stringify => "core:json.stringify",
            CoreJsonFunction::StringifyPretty => "core:json.stringify_pretty",
            CoreJsonFunction::StringifyPrettyValue => "core:json.stringify_pretty.configured",
            CoreJsonFunction::Rename => "core:json.rename",
            CoreJsonFunction::RenameAll => "core:json.rename_all",
            CoreJsonFunction::Flatten => "core:json.flatten",
            CoreJsonFunction::Untagged => "core:json.untagged",
            CoreJsonFunction::Schema => "core:json.schema",
            CoreJsonFunction::Default => "core:json.default",
            CoreJsonFunction::SkipSerializingIf => "core:json.skip_serializing_if",
        }
    }

    pub fn arity(self) -> (n: usize)
        ensures
            n == 1,
    {
        1
    }
}

impl CoreDebugFunction {
    pub fn name(self) -> (s: &'static str)
        ensures
            s@ == match self {
                CoreDebugFunction::Dbg => "core:debug.dbg"@,
                CoreDebugFunction::DbgWith => "core:debug.dbg_with"@,
            },
    {
        match self {
            CoreDebugFunction::Dbg => "core:debug.dbg",
            CoreDebugFunction::DbgWith => "core:debug.dbg_with",
        }
    }

    pub fn arity(self) -> (n: usize)
        ensures
            n == match self {
                CoreDebugFunction::Dbg => 1usize,
                CoreDebugFunction::DbgWith => 2usize,
            },
    {
        match self {
            CoreDebugFunction::Dbg => 1,
            CoreDebugFunction::DbgWith => 2,
        }
    }
}

impl CoreDictFunction {
    pub fn name(self) -> (s: &'static str)
        ensures
            s@ == match self {
                CoreDictFunction::Keys => "core:dict.keys"@,
                CoreDictFunction::Values => "core:dict.values"@,
                CoreDictFunction::Pairs => "core:dict.pairs"@,
                CoreDictFunction::FromPairs => "core:dict.from_pairs"@,
                CoreDictFunction::Merge => "core:dict.merge"@,
            },
    {
        match self {
            CoreDictFunction::Keys => "core:dict.keys",
            CoreDictFunction::Values => "core:dict.values",
            CoreDictFunction::Pairs => "core:dict.pairs",
            CoreDictFunction::FromPairs => "core:dict.from_pairs",
            CoreDictFunction::Merge => "core:dict.merge",
        }
    }

    pub fn arity(self) -> (n: usize)
        ensures
            n == match self {
                CoreDictFunction::Merge => 2usize,
                _ => 1usize,
            },
    {
        match self {
            CoreDictFunction::Keys | CoreDictFunction::Values | CoreDictFunction::Pairs
            | CoreDictFunction::FromPairs => 1,
            CoreDictFunction::Merge => 2,
        }
    }
}

impl CoreArrayFunction {
    pub fn name(self) -> (s: &'static str)
        ensures
            s@ == match self {
                CoreArrayFunction::Length => "core:array.length"@,
                CoreArrayFunction::MapEach => "core:array.map"@,
                CoreArrayFunction::Filter => "core:array.filter"@,
                CoreArrayFunction::FlatMap => "core:array.flat_map"@,
                CoreArrayFunction::Fold => "core:array.fold"@,
            },
    {
        match self {
            CoreArrayFunction::Length => "core:array.length",
            CoreArrayFunction::MapEach => "core:array.map",
            CoreArrayFunction::Filter => "core:array.filter",
            CoreArrayFunction::FlatMap => "core:array.flat_map",
            CoreArrayFunction::Fold => "core:array.fold",
        }
    }

    pub fn arity(self) -> (n: usize)
        ensures
            n == match self {
                CoreArrayFunction::Length => 1usize,
                CoreArrayFunction::Fold => 3usize,
                _ => 2usize,
            },
    {
        match self {
            CoreArrayFunction::Length => 1,
            CoreArrayFunction::MapEach | CoreArrayFunction::Filter | CoreArrayFunction::FlatMap => 2,
            CoreArrayFunction::Fold => 3,
        }
    }
}

/// How a native function runs: through its callback, or dispatched by the
/// machine as one of the core functions.
#[derive(Clone, Copy, Debug, PartialEq, Eq, Structural)]
pub enum NativeKind {
    Synchronous,
    CoreArray(CoreArrayFunction),
    CoreAttributes(CoreAttributesFunction),
    CoreModel(CoreModelFunction),
    CoreBuiltinType(CoreBuiltinTypeFunction),
    CoreDict(CoreDictFunction),
    CoreDebug(CoreDebugFunction),
    CoreCodec(CoreCodecFunction),
    CoreResult(CoreResultFunction),
    CoreJson(CoreJsonFunction),
}

/// A function provided by the host: its name, its arity, how it runs, and
/// the host callback `C` of a synchronous one. Core functions have no
/// callback: the machine dispatches them.
#[derive(Clone, Copy, Debug)]
pub struct NativeFunction<C> {
    name: &'static str,
    arity: usize,
    callback: Option<C>,
    kind: NativeKind,
}

impl<C: Copy> NativeFunction<C> {
    pub closed spec fn spec_name(self) -> Seq<char> {
        self.name@
    }

    pub closed spec fn spec_arity(self) -> usize {
        self.arity
    }

    pub closed spec fn spec_callback(self) -> Option<C> {
        self.callback
    }

    pub closed spec fn spec_kind(self) -> NativeKind {
        self.kind
    }

    /// A synchronous native function.
    pub fn new(name: &'static str, arity: usize, callback: C) -> (f: Self)
        ensures
            f.spec_name() == name@,
            f.spec_arity() == arity,
            f.spec_callback() == Some(callback),
            f.spec_kind() == NativeKind::Synchronous,
    {
        NativeFunction { name, arity, callback: Some(callback), kind: NativeKind::Synchronous }
    }

    pub fn core_array(function: CoreArrayFunction) -> (f: Self)
        ensures
            f.spec_kind() == NativeKind::CoreArray(function),
            f.spec_callback() is None,
    {
        NativeFunction { name: function.name(), arity: function.arity(), callback: None, kind: NativeKind::CoreArray(function) }
    }

    pub fn core_attributes(function: CoreAttributesFunction) -> (f: Self)
        ensures
            f.spec_kind() == NativeKind::CoreAttributes(function),
            f.spec_callback() is None,
    {
        NativeFunction { name: function.name(), arity: function.arity(), callback: None, kind: NativeKind::CoreAttributes(function) }
    }

    pub fn core_model(function: CoreModelFunction) -> (f: Self)
        ensures
            f.spec_kind() == NativeKind::CoreModel(function),
            f.spec_callback() is None,
    {
        NativeFunction { name: function.name(), arity: function.arity(), callback: None, kind: NativeKind::CoreModel(function) }
    }

    pub fn core_builtin_type(function: CoreBuiltinTypeFunction) -> (f: Self)
        ensures
            f.spec_kind() == NativeKind::CoreBuiltinType(function),
            f.spec_callback() is None,
    {
        NativeFunction { name: function.name(), arity: function.arity(), callback: None, kind: NativeKind::CoreBuiltinType(function) }
    }

    pub fn core_dict(function: CoreDictFunction) -> (f: Self)
        ensures
            f.spec_kind() == NativeKind::CoreDict(function),
            f.spec_callback() is None,
    {
        NativeFunction { name: function.name(), arity: function.arity(), callback: None, kind: NativeKind::CoreDict(function) }
    }

    pub fn core_debug(function: CoreDebugFunction) -> (f: Self)
        ensures
            f.spec_kind() == NativeKind::CoreDebug(function),
            f.spec_callback() is None,
    {
        NativeFunction { name: function.name(), arity: function.arity(), callback: None, kind: NativeKind::CoreDebug(function) }
    }

    pub fn core_codec(function: CoreCodecFunction) -> (f: Self)
        ensures
            f.spec_kind() == NativeKind::CoreCodec(function),
            f.spec_callback() is None,
    {
        NativeFunction { name: function.name(), arity: function.arity(), callback: None, kind: NativeKind::CoreCodec(function) }
    }

    pub fn core_result(function: CoreResultFunction) -> (f: Self)
        ensures
            f.spec_kind() == NativeKind::CoreResult(function),
            f.spec_callback() is None,
    {
        NativeFunction { name: function.name(), arity: function.arity(), callback: None, kind: NativeKind::CoreResult(function) }
    }

    pub fn core_json(function: CoreJsonFunction) -> (f: Self)
        ensures
            f.spec_kind() == NativeKind::CoreJson(function),
            f.spec_callback() is None,
    {
        NativeFunction { name: function.name(), arity: function.arity(), callback: None, kind: NativeKind::CoreJson(function) }
    }

    pub fn name(self) -> (s: &'static str)
        ensures
            s@ == self.spec_name(),
    {
        self.name
    }

    pub fn arity(self) -> (n: usize)
        ensures
            n == self.spec_arity(),
    {
        self.arity
    }

    /// The host callback; core functions have none.
    pub fn callback(self) -> (c: Option<C>)
        ensures
            c == self.spec_callback(),
    {
        self.callback
    }

    pub fn kind(self) -> (k: NativeKind)
        ensures
            k == self.spec_kind(),
    {
        self.kind
    }
}

} // verus!

verus! {

/// A runtime value. A float is held as its IEEE-754 bits, which nothing here
/// reads; a function value holds the closure `F` that runs it.
#[verifier::reject_recursive_types(F)]
#[derive(Debug)]
pub enum Value<F> {
    Int(i64),
    Float(u64),
    String(String),
    Bytes(Vec<u8>),
    Dict(Dict<F>),
    Array(Vec<Value<F>>),
    Atom(Atom),
    Tuple(Vec<Value<F>>),
    Func(F),
}

/// A record: its shape, and one value for each field of the shape.
#[verifier::reject_recursive_types(F)]
#[derive(Debug)]
pub struct Dict<F> {
    shape: Shape,
    values: Vec<Value<F>>,
}

impl<F> Dict<F> {
    pub closed spec fn spec_shape(self) -> Shape {
        self.shape
    }

    pub closed spec fn spec_values(self) -> Seq<Value<F>> {
        self.values@
    }

    #[verifier::type_invariant]
    spec fn inv(self) -> bool {
        self.shape.spec_fields().len() == self.values@.len()
    }

    /// A record of `shape` with `values`, one per field.
    pub fn new(shape: Shape, values: Vec<Value<F>>) -> (d: Self)
        requires
            shape.spec_fields().len() == values@.len(),
        ensures
            d.spec_shape() == shape,
            d.spec_values() == values@,
    {
        Dict { shape, values }
    }

    pub fn shape(&self) -> (s: &Shape)
        ensures
            *s == self.spec_shape(),
    {
        &self.shape
    }

    /// The values, in the order of the shape's fields.
    pub fn values(&self) -> (v: &[Value<F>])
        ensures
            v@ == self.spec_values(),
            v@.len() == self.spec_shape().spec_fields().len(),
    {
        proof {
            use_type_invariant(self);
        }
        self.values.as_slice()
    }

    /// The value of `field`, if the record has that field.
    pub fn get(&self, field: &str) -> (r: Option<&Value<F>>)
        ensures
            r matches Some(v) ==> exists|i: int|
                0 <= i < self.spec_values().len() && self.spec_shape().spec_fields()[i]@ == field@
                    && *v == #[trigger] self.spec_values()[i],
            r is None ==> forall|i: int|
                0 <= i < self.spec_shape().spec_fields().len() ==> (
                #[trigger] self.spec_shape().spec_fields()[i])@ != field@,
    {
        proof {
            use_type_invariant(self);
        }
        match self.shape.field_index(field) {
            Some(index) => {
                proof {
                    assert(self.spec_values()[index as int] == self.values@[index as int]);
                }
                Some(&self.values[index])
            },
            None => None,
        }
    }
}

/// A value as mathematical data: texts as character sequences, a record as
/// its field names and values.
pub enum ValueView {
    Int(i64),
    Float(u64),
    String(Seq<char>),
    Bytes(Seq<u8>),
    Dict(Seq<Seq<char>>, Seq<ValueView>),
    Array(Seq<ValueView>),
    Atom(AtomView),
    Tuple(Seq<ValueView>),
    Func,
}

pub open spec fn names_view(names: Seq<String>) -> Seq<Seq<char>> {
    names.map_values(|s: String| s@)
}

pub open spec fn vview<F>(v: Value<F>) -> ValueView
    decreases v,
{
    match v {
        Value::Int(i) => ValueView::Int(i),
        Value::Float(b) => ValueView::Float(b),
        Value::String(s) => ValueView::String(s@),
        Value::Bytes(b) => ValueView::Bytes(b@),
        Value::Dict(d) => ValueView::Dict(names_view(d.spec_shape().spec_fields()), vviews(d.spec_values())),
        Value::Array(vs) => ValueView::Array(vviews(vs@)),
        Value::Atom(a) => ValueView::Atom(atom_view(a)),
        Value::Tuple(vs) => ValueView::Tuple(vviews(vs@)),
        Value::Func(_) => ValueView::Func,
    }
}

pub open spec fn vviews<F>(s: Seq<Value<F>>) -> Seq<ValueView>
    decreases s,
{
    if s.len() == 0 {
        Seq::empty()
    } else {
        seq![vview(s[0])] + vviews(s.subrange(1, s.len() as int))
    }
}

pub proof fn lemma_vviews<F>(s: Seq<Value<F>>)
    ensures
        vviews(s).len() == s.len(),
        forall|i: int| 0 <= i < s.len() ==> #[trigger] vviews(s)[i] == vview(s[i]),
    decreases s.len(),
{
    if s.len() > 0 {
        let rest = s.subrange(1, s.len() as int);
        lemma_vviews(rest);
        assert forall|i: int| 0 <= i < s.len() implies #[trigger] vviews(s)[i] == vview(s[i]) by {
            if i > 0 {
                assert(rest[i - 1] == s[i]);
            }
        }
    }
}

/// The view of a record value: its field names and the views of its values.
pub proof fn lemma_dict_view<F>(d: Dict<F>)
    ensures
        vview(Value::Dict(d)) == ValueView::Dict(names_view(d.spec_shape().spec_fields()), vviews(d.spec_values())),
{
}

/// The number of values a value is made of, itself included.
pub open spec fn vsize(v: ValueView) -> nat
    decreases v,
{
    match v {
        ValueView::Dict(_, vs) => 1 + vsizes(vs),
        ValueView::Array(vs) => 1 + vsizes(vs),
        ValueView::Tuple(vs) => 1 + vsizes(vs),
        _ => 1,
    }
}

pub open spec fn vsizes(vs: Seq<ValueView>) -> nat
    decreases vs,
{
    if vs.len() == 0 {
        0
    } else {
        vsize(vs[0]) + vsizes(vs.subrange(1, vs.len() as int))
    }
}

/// An element of a sequence is no larger than the whole sequence.
pub proof fn lemma_vsizes_element(vs: Seq<ValueView>, i: int)
    requires
        0 <= i < vs.len(),
    ensures
        vsize(vs[i]) <= vsizes(vs),
    decreases vs.len(),
{
    if i > 0 {
        let rest = vs.subrange(1, vs.len() as int);
        lemma_vsizes_element(rest, i - 1);
        assert(rest[i - 1] == vs[i]);
    }
}

} // verus!

//! Type metadata: the ordinary record values that describe types, and how a
//! type descriptor is read back from one.
//!
//! A metadata record has a `kind` atom and exactly the fields its kind asks
//! for; a `WithAttributes` record wraps another metadata record together
//! with a record of attributes, which reading a type passes over.

use vstd::prelude::*;
use vstd::utf8::{encode_utf8, is_ascii_chars, is_ascii_chars_encode_utf8};
use crate::descriptor::{
    atom_view, copy_atom, dfields, dview, dviews, dvariants, lemma_dfields, lemma_dvariants, lemma_dviews,
    payload_view, AtomView, DescView,
};
use crate::module_id::{debug_quoted, debug_text};
use crate::text::{bytes_lt, decimal, lemma_bytes_lt_transitive, push_decimal};
use crate::types::{lemma_before_differs, TypeDescriptor};
use crate::value::{
    Shape, lemma_dict_view, lemma_vsizes_element, lemma_vviews, names_view, same_str, sorted_names, vsize, vsizes,
    vview, vviews, Atom, BuiltinAtom, Dict, Value, ValueView,
};

verus! {

/// The text of an atom: a built-in atom's name, or the name it was given.
pub open spec fn atom_text(a: AtomView) -> Seq<char> {
    match a {
        AtomView::Builtin(b) => b.spec_name(),
        AtomView::Named(n) => n,
    }
}

/// The value of field `key` in a record given by its names and values.
pub open spec fn field_value(names: Seq<Seq<char>>, values: Seq<crate::value::ValueView>, key: Seq<char>) -> Option<
    crate::value::ValueView,
>
    decreases names.len(),
{
    if names.len() == 0 || values.len() == 0 {
        None
    } else if names[0] == key {
        Some(values[0])
    } else {
        field_value(names.drop_first(), values.drop_first(), key)
    }
}

/// The kind a metadata record declares: the text of its `kind` atom.
pub open spec fn meta_kind(names: Seq<Seq<char>>, values: Seq<crate::value::ValueView>) -> Option<Seq<char>> {
    match field_value(names, values, "kind"@) {
        Some(crate::value::ValueView::Atom(a)) => Some(atom_text(a)),
        _ => None,
    }
}

/// The kinds a metadata record may name.
pub open spec fn known_kind(k: Seq<char>) -> bool {
    k == "WithAttributes"@ || k == "Any"@ || k == "Int"@ || k == "Float"@ || k == "String"@ || k == "Bytes"@
        || k == "Atom"@ || k == "Array"@ || k == "Tuple"@ || k == "Struct"@ || k == "Enum"@ || k == "Union"@
        || k == "Function"@
}

/// A well-formed `WithAttributes` record: exactly `attributes`, `inner` and
/// `kind`, with a record of attributes.
pub open spec fn attributes_wrapper(names: Seq<Seq<char>>, values: Seq<crate::value::ValueView>) -> bool {
    &&& names == seq!["attributes"@, "inner"@, "kind"@]
    &&& values.len() == 3
    &&& values[0] is Dict
}

pub open spec fn zip_fields(names: Seq<Seq<char>>, types: Seq<DescView>) -> Seq<(Seq<char>, DescView)> {
    Seq::new(names.len(), |i: int| (names[i], types[i]))
}

pub open spec fn zip_variants(names: Seq<Seq<char>>, payloads: Seq<Option<DescView>>) -> Seq<
    (Seq<char>, Option<DescView>),
> {
    Seq::new(names.len(), |i: int| (names[i], payloads[i]))
}

/// The type a metadata value describes, if it is well-formed metadata.
pub open spec fn decode_meta(v: crate::value::ValueView) -> Option<DescView>
    decreases v, 0nat,
{
    match v {
        crate::value::ValueView::Dict(names, values) => if names.len() != values.len() {
            None
        } else {
            match meta_kind(names, values) {
                Some(kind) => if kind == "WithAttributes"@ {
                    if attributes_wrapper(names, values) {
                        decode_meta(values[1])
                    } else {
                        None
                    }
                } else if kind == "Any"@ {
                    if names == seq!["kind"@] {
                        Some(DescView::Any)
                    } else {
                        None
                    }
                } else if kind == "Int"@ {
                    if names == seq!["kind"@] {
                        Some(DescView::Int)
                    } else {
                        None
                    }
                } else if kind == "Float"@ {
                    if names == seq!["kind"@] {
                        Some(DescView::Float)
                    } else {
                        None
                    }
                } else if kind == "String"@ {
                    if names == seq!["kind"@] {
                        Some(DescView::String)
                    } else {
                        None
                    }
                } else if kind == "Bytes"@ {
                    if names == seq!["kind"@] {
                        Some(DescView::Bytes)
                    } else {
                        None
                    }
                } else if kind == "Atom"@ {
                    if names == seq!["kind"@, "tag"@] {
                        match values[1] {
                            crate::value::ValueView::Atom(tag) => Some(DescView::Atom(tag)),
                            _ => None,
                        }
                    } else {
                        None
                    }
                } else if kind == "Array"@ {
                    if names == seq!["item"@, "kind"@] {
                        match decode_meta(values[0]) {
                            Some(item) => Some(DescView::Array(Box::new(item))),
                            None => None,
                        }
                    } else {
                        None
                    }
                } else if kind == "Tuple"@ {
                    if names == seq!["items"@, "kind"@] {
                        match values[0] {
                            crate::value::ValueView::Array(items) => match decode_metas(items) {
                                Some(types) => Some(DescView::Tuple(types)),
                                None => None,
                            },
                            _ => None,
                        }
                    } else {
                        None
                    }
                } else if kind == "Struct"@ {
                    if names == seq!["fields"@, "kind"@] {
                        match values[0] {
                            crate::value::ValueView::Dict(fnames, fvalues) => if fnames.len() != fvalues.len() {
                                None
                            } else {
                                match decode_metas(fvalues) {
                                    Some(types) => Some(DescView::Struct(zip_fields(fnames, types))),
                                    None => None,
                                }
                            },
                            _ => None,
                        }
                    } else {
                        None
                    }
                } else if kind == "Enum"@ {
                    if names == seq!["kind"@, "variants"@] {
                        match values[1] {
                            crate::value::ValueView::Dict(vnames, vvalues) => if vnames.len()
                                != vvalues.len() || vvalues.len() == 0 {
                                None
                            } else {
                                match decode_payloads(vvalues) {
                                    Some(payloads) => Some(DescView::Enum(zip_variants(vnames, payloads))),
                                    None => None,
                                }
                            },
                            _ => None,
                        }
                    } else {
                        None
                    }
                } else if kind == "Union"@ {
                    if names == seq!["kind"@, "variants"@] {
                        match values[1] {
                            crate::value::ValueView::Array(items) => if items.len() == 0 {
                                None
                            } else {
                                match decode_metas(items) {
                                    Some(types) => Some(DescView::Union(types)),
                                    None => None,
                                }
                            },
                            _ => None,
                        }
                    } else {
                        None
                    }
                } else if kind == "Function"@ {
                    if names == seq!["kind"@, "parameters"@, "result"@] {
                        match values[1] {
                            crate::value::ValueView::Array(parameters) => match decode_metas(parameters) {
                                Some(types) => match decode_meta(values[2]) {
                                    Some(result) => Some(DescView::Function(types, Box::new(result))),
                                    None => None,
                                },
                                None => None,
                            },
                            _ => None,
                        }
                    } else {
                        None
                    }
                } else {
                    None
                },
                None => None,
            }
        },
        _ => None,
    }
}

/// The types a sequence of metadata values describes, if each is well-formed.
pub open spec fn decode_metas(vs: Seq<crate::value::ValueView>) -> Option<Seq<DescView>>
    decreases vs, 0nat,
{
    if vs.len() == 0 {
        Some(Seq::empty())
    } else {
        match decode_meta(vs[0]) {
            Some(first) => match decode_metas(vs.subrange(1, vs.len() as int)) {
                Some(rest) => Some(seq![first] + rest),
                None => None,
            },
            None => None,
        }
    }
}

/// What an enum variant's metadata says of its payload, past any
/// attributes: none for the atom `None`, else the type described.
pub open spec fn payload_meta(w: crate::value::ValueView) -> Option<Option<DescView>>
    decreases w, 1nat,
{
    match w {
        crate::value::ValueView::Dict(names, values) => if names.len() == values.len() && meta_kind(
            names,
            values,
        ) == Some("WithAttributes"@) {
            if attributes_wrapper(names, values) {
                payload_meta(values[1])
            } else {
                None
            }
        } else {
            match decode_meta(w) {
                Some(t) => Some(Some(t)),
                None => None,
            }
        },
        crate::value::ValueView::Atom(a) => if atom_text(a) == "None"@ {
            Some(None)
        } else {
            None
        },
        _ => None,
    }
}

pub open spec fn decode_payloads(vs: Seq<crate::value::ValueView>) -> Option<Seq<Option<DescView>>>
    decreases vs, 0nat,
{
    if vs.len() == 0 {
        Some(Seq::empty())
    } else {
        match payload_meta(vs[0]) {
            Some(first) => match decode_payloads(vs.subrange(1, vs.len() as int)) {
                Some(rest) => Some(seq![first] + rest),
                None => None,
            },
            None => None,
        }
    }
}

/// A value past its `WithAttributes` wrappers, if they are well-formed.
pub open spec fn strip_meta(v: crate::value::ValueView) -> Option<crate::value::ValueView>
    decreases v,
{
    match v {
        crate::value::ValueView::Dict(names, values) => if names.len() == values.len() && meta_kind(
            names,
            values,
        ) == Some("WithAttributes"@) {
            if attributes_wrapper(names, values) {
                strip_meta(values[1])
            } else {
                None
            }
        } else {
            Some(v)
        },
        _ => Some(v),
    }
}

/// The field at `i`, whose name no other field has, is the one found.
pub proof fn lemma_field_value_at(names: Seq<Seq<char>>, values: Seq<crate::value::ValueView>, i: int, key: Seq<char>)
    requires
        names.len() == values.len(),
        0 <= i < names.len(),
        names[i] == key,
        forall|j: int| 0 <= j < i ==> names[j] != key,
    ensures
        field_value(names, values, key) == Some(values[i]),
    decreases i,
{
    if i > 0 {
        lemma_field_value_at(names.drop_first(), values.drop_first(), i - 1, key);
        assert(names[0] != key);
    }
}

/// A field no name matches is not found.
pub proof fn lemma_field_value_absent(names: Seq<Seq<char>>, values: Seq<crate::value::ValueView>, key: Seq<char>)
    requires
        forall|j: int| 0 <= j < names.len() ==> names[j] != key,
    ensures
        field_value(names, values, key) is None,
    decreases names.len(),
{
    if names.len() > 0 && values.len() > 0 {
        assert(names[0] != key);
        lemma_field_value_absent(names.drop_first(), values.drop_first(), key);
    }
}

/// A sequence of metadata values describes types exactly when each does,
/// and then it describes them in order.
pub proof fn lemma_decode_metas(vs: Seq<crate::value::ValueView>)
    ensures
        decode_metas(vs) is Some <==> forall|i: int| 0 <= i < vs.len() ==> (#[trigger] decode_meta(vs[i])) is Some,
        decode_metas(vs) is Some ==> decode_metas(vs)->Some_0.len() == vs.len() && forall|i: int|
            0 <= i < vs.len() ==> #[trigger] decode_metas(vs)->Some_0[i] == decode_meta(vs[i])->Some_0,
    decreases vs.len(),
{
    if vs.len() > 0 {
        let rest = vs.subrange(1, vs.len() as int);
        lemma_decode_metas(rest);
        assert forall|i: int| 1 <= i < vs.len() implies decode_meta(vs[i]) == decode_meta(rest[i - 1]) by {
            assert(rest[i - 1] == vs[i]);
        }
        if decode_meta(vs[0]) is Some && decode_metas(rest) is Some {
            let all = decode_metas(vs)->Some_0;
            assert forall|i: int| 0 <= i < vs.len() implies #[trigger] all[i] == decode_meta(vs[i])->Some_0 by {
                if i > 0 {
                    assert(all[i] == decode_metas(rest)->Some_0[i - 1]);
                }
            }
        }
        if !(forall|i: int| 0 <= i < vs.len() ==> (#[trigger] decode_meta(vs[i])) is Some) {
            let i = choose|i: int| 0 <= i < vs.len() && !(#[trigger] decode_meta(vs[i]) is Some);
            if i > 0 {
                assert(decode_meta(rest[i - 1]) is None);
            }
        }
    }
}

pub proof fn lemma_decode_payloads(vs: Seq<crate::value::ValueView>)
    ensures
        decode_payloads(vs) is Some <==> forall|i: int| 0 <= i < vs.len() ==> (#[trigger] payload_meta(vs[i])) is Some,
        decode_payloads(vs) is Some ==> decode_payloads(vs)->Some_0.len() == vs.len() && forall|i: int|
            0 <= i < vs.len() ==> #[trigger] decode_payloads(vs)->Some_0[i] == payload_meta(vs[i])->Some_0,
    decreases vs.len(),
{
    if vs.len() > 0 {
        let rest = vs.subrange(1, vs.len() as int);
        lemma_decode_payloads(rest);
        assert forall|i: int| 1 <= i < vs.len() implies payload_meta(vs[i]) == payload_meta(rest[i - 1]) by {
            assert(rest[i - 1] == vs[i]);
        }
        if payload_meta(vs[0]) is Some && decode_payloads(rest) is Some {
            let all = decode_payloads(vs)->Some_0;
            assert forall|i: int| 0 <= i < vs.len() implies #[trigger] all[i] == payload_meta(vs[i])->Some_0 by {
                if i > 0 {
                    assert(all[i] == decode_payloads(rest)->Some_0[i - 1]);
                }
            }
        }
        if !(forall|i: int| 0 <= i < vs.len() ==> (#[trigger] payload_meta(vs[i])) is Some) {
            let i = choose|i: int| 0 <= i < vs.len() && !(#[trigger] payload_meta(vs[i]) is Some);
            if i > 0 {
                assert(payload_meta(rest[i - 1]) is None);
            }
        }
    }
}

/// What a variant says of its payload is read past its attributes: none
/// for the atom `None`, else the type its inner value describes.
pub proof fn lemma_payload_strip(w: crate::value::ValueView)
    ensures
        payload_meta(w) == match strip_meta(w) {
            None => None,
            Some(inner) => if inner is Atom && atom_text(inner->Atom_0) == "None"@ {
                Some(None)
            } else {
                match decode_meta(inner) {
                    Some(t) => Some(Some(t)),
                    None => None,
                }
            },
        },
    decreases w,
{
    match w {
        crate::value::ValueView::Dict(names, values) => {
            if names.len() == values.len() && meta_kind(names, values) == Some("WithAttributes"@)
                && attributes_wrapper(names, values) {
                lemma_payload_strip(values[1]);
            }
        },
        _ => {},
    }
}

/// The field names of a record value.
pub open spec fn dict_names<F>(d: Dict<F>) -> Seq<Seq<char>> {
    names_view(d.spec_shape().spec_fields())
}

/// The field values of a record value.
pub open spec fn dict_values<F>(d: Dict<F>) -> Seq<ValueView> {
    vviews(d.spec_values())
}

pub open spec fn strs_view(s: Seq<&str>) -> Seq<Seq<char>> {
    s.map_values(|x: &str| x@)
}

/// No two names are the same.
pub open spec fn distinct_names(names: Seq<Seq<char>>) -> bool {
    forall|i: int, j: int| 0 <= i < names.len() && 0 <= j < names.len() && i != j ==> names[i] != names[j]
}

proof fn lemma_sorted_distinct(fields: Seq<String>)
    requires
        sorted_names(fields),
    ensures
        distinct_names(names_view(fields)),
{
    assert forall|i: int, j: int|
        0 <= i < fields.len() && 0 <= j < fields.len() && i != j implies names_view(fields)[i] != names_view(
        fields,
    )[j] by {
        if i < j {
            assert(bytes_lt(encode_utf8(fields[i]@), encode_utf8(fields[j]@)));
            lemma_before_differs(fields[i]@, fields[j]@);
        } else {
            assert(bytes_lt(encode_utf8(fields[j]@), encode_utf8(fields[i]@)));
            lemma_before_differs(fields[j]@, fields[i]@);
        }
    }
}

/// With distinct names, the field named `names[k]` is the `k`-th value.
proof fn lemma_named_field(names: Seq<Seq<char>>, values: Seq<ValueView>, k: int)
    requires
        distinct_names(names),
        names.len() == values.len(),
        0 <= k < names.len(),
    ensures
        field_value(names, values, names[k]) == Some(values[k]),
{
    lemma_field_value_at(names, values, k, names[k]);
}

/// The field names of a record of a kind without parameters.
fn kind_fields() -> (f: [&'static str; 1])
    ensures
        strs_view(f@) == seq!["kind"@],
{
    let f = ["kind"];
    proof {
        assert(strs_view(f@) =~= seq!["kind"@]);
    }
    f
}

fn pair_fields(a: &'static str, b: &'static str) -> (f: [&'static str; 2])
    ensures
        strs_view(f@) == seq![a@, b@],
{
    let f = [a, b];
    proof {
        assert(strs_view(f@) =~= seq![a@, b@]);
    }
    f
}

/// The field names of a `WithAttributes` record.
fn wrapper_fields() -> (f: [&'static str; 3])
    ensures
        strs_view(f@) == seq!["attributes"@, "inner"@, "kind"@],
{
    let f = ["attributes", "inner", "kind"];
    proof {
        assert(strs_view(f@) =~= seq!["attributes"@, "inner"@, "kind"@]);
    }
    f
}

/// The field names of a `Function` record.
fn function_fields() -> (f: [&'static str; 3])
    ensures
        strs_view(f@) == seq!["kind"@, "parameters"@, "result"@],
{
    let f = ["kind", "parameters", "result"];
    proof {
        assert(strs_view(f@) =~= seq!["kind"@, "parameters"@, "result"@]);
    }
    f
}

fn cat(a: &str, b: &str) -> (s: String)
    ensures
        s@ == a@ + b@,
{
    let mut s = String::from_str(a);
    s.append(b);
    s
}

/// `path` followed by `label` and `[index]`.
fn index_path(path: &str, label: &str, index: usize) -> (s: String)
    ensures
        s@ == path@ + label@ + seq!['['] + decimal(index as nat) + seq![']'],
{
    proof {
        reveal_strlit("[");
        reveal_strlit("]");
    }
    let mut s = cat(path, label);
    s.append("[");
    push_decimal(&mut s, index);
    s.append("]");
    s
}

/// The `Debug` renderings of `items`, separated by `, `.
pub open spec fn debug_items(items: Seq<Seq<char>>) -> Seq<char>
    decreases items.len(),
{
    if items.len() == 0 {
        seq![]
    } else if items.len() == 1 {
        debug_text(items[0])
    } else {
        debug_items(items.subrange(0, items.len() - 1)) + seq![',', ' '] + debug_text(items[items.len() - 1])
    }
}

/// The `Debug` rendering of a list of texts: `[` the items `]`.
pub open spec fn debug_list(items: Seq<Seq<char>>) -> Seq<char> {
    seq!['['] + debug_items(items) + seq![']']
}

/// The `Debug` rendering of a list of texts.
fn debug_list_strings(items: &[String]) -> (s: String)
    ensures
        s@ == debug_list(items@.map_values(|x: String| x@)),
{
    proof {
        reveal_strlit("[");
        reveal_strlit("]");
        reveal_strlit(", ");
    }
    let ghost texts = items@.map_values(|x: String| x@);
    let mut s = String::from_str("[");
    let mut i: usize = 0;
    while i < items.len()
        invariant
            i <= items@.len(),
            texts == items@.map_values(|x: String| x@),
            s@ == seq!['['] + debug_items(texts.subrange(0, i as int)),
        decreases items@.len() - i,
    {
        let ghost t = texts.subrange(0, i + 1);
        proof {
            assert(t.len() == i + 1);
            assert(t.subrange(0, t.len() - 1) =~= texts.subrange(0, i as int));
            assert(t[t.len() - 1] == texts[i as int]);
            assert(texts[i as int] == items@[i as int]@);
            reveal_strlit(", ");
        }
        if i > 0 {
            s.append(", ");
        }
        let quoted = debug_quoted(items[i].as_str());
        s.append(quoted.as_str());
        proof {
            if i == 0 {
                assert(texts.subrange(0, i as int) =~= Seq::<Seq<char>>::empty());
            }
            assert(s@ =~= seq!['['] + debug_items(t));
        }
        i = i + 1;
    }
    s.append("]");
    proof {
        assert(texts.subrange(0, i as int) =~= texts);
    }
    s
}

fn debug_list_strs(items: &[&str]) -> (s: String)
    ensures
        s@ == debug_list(items@.map_values(|x: &str| x@)),
{
    proof {
        reveal_strlit("[");
        reveal_strlit("]");
        reveal_strlit(", ");
    }
    let ghost texts = items@.map_values(|x: &str| x@);
    let mut s = String::from_str("[");
    let mut i: usize = 0;
    while i < items.len()
        invariant
            i <= items@.len(),
            texts == items@.map_values(|x: &str| x@),
            s@ == seq!['['] + debug_items(texts.subrange(0, i as int)),
        decreases items@.len() - i,
    {
        let ghost t = texts.subrange(0, i + 1);
        proof {
            assert(t.len() == i + 1);
            assert(t.subrange(0, t.len() - 1) =~= texts.subrange(0, i as int));
            assert(t[t.len() - 1] == texts[i as int]);
            assert(texts[i as int] == items@[i as int]@);
            reveal_strlit(", ");
        }
        if i > 0 {
            s.append(", ");
        }
        let quoted = debug_quoted(items[i]);
        s.append(quoted.as_str());
        proof {
            if i == 0 {
                assert(texts.subrange(0, i as int) =~= Seq::<Seq<char>>::empty());
            }
            assert(s@ =~= seq!['['] + debug_items(t));
        }
        i = i + 1;
    }
    s.append("]");
    proof {
        assert(texts.subrange(0, i as int) =~= texts);
    }
    s
}

/// The value of field `key` of a record.
fn field<'a, F>(metadata: &'a Dict<F>, key: &str) -> (r: Option<&'a Value<F>>)
    ensures
        dict_names(*metadata).len() == dict_values(*metadata).len(),
        distinct_names(dict_names(*metadata)),
        vview(Value::Dict(*metadata)) == ValueView::Dict(dict_names(*metadata), dict_values(*metadata)),
        r is Some <==> field_value(dict_names(*metadata), dict_values(*metadata), key@) is Some,
        r matches Some(v) ==> field_value(dict_names(*metadata), dict_values(*metadata), key@) == Some(
            vview(*v),
        ) && vsize(vview(*v)) <= vsizes(dict_values(*metadata)),
{
    let names = metadata.shape().fields();
    let values = metadata.values();
    let r = metadata.get(key);
    proof {
        lemma_vviews(metadata.spec_values());
        lemma_sorted_distinct(metadata.spec_shape().spec_fields());
        lemma_dict_view(*metadata);
        let dn = dict_names(*metadata);
        let dv = dict_values(*metadata);
        match r {
            Some(v) => {
                let i = choose|i: int|
                    0 <= i < metadata.spec_values().len() && metadata.spec_shape().spec_fields()[i]@ == key@ && *v
                        == #[trigger] metadata.spec_values()[i];
                assert(dn[i] == key@);
                lemma_named_field(dn, dv, i);
                lemma_vsizes_element(dv, i);
            },
            None => {
                lemma_field_value_absent(dn, dv, key@);
            },
        }
    }
    r
}

/// Checks that a record has exactly the given fields, in order.
fn require_fields<F>(metadata: &Dict<F>, path: &str, fields: &[&str]) -> (r: Result<(), String>)
    ensures
        r is Ok <==> dict_names(*metadata) == strs_view(fields@),
{
    let actual = metadata.shape().fields();
    let mut same = actual.len() == fields.len();
    if same {
        let mut i: usize = 0;
        while i < fields.len()
            invariant
                actual@.len() == fields@.len(),
                actual@ == metadata.spec_shape().spec_fields(),
                i <= fields@.len(),
                same <==> forall|j: int| 0 <= j < i ==> actual@[j]@ == fields@[j]@,
            decreases fields@.len() - i,
        {
            if !same_str(actual[i].as_str(), fields[i]) {
                same = false;
            }
            i = i + 1;
        }
    }
    proof {
        if same {
            assert(dict_names(*metadata) =~= strs_view(fields@));
        } else if actual@.len() == fields@.len() {
            let j = choose|j: int| 0 <= j < fields@.len() && actual@[j]@ != fields@[j]@;
            assert(dict_names(*metadata)[j] != strs_view(fields@)[j]);
        } else {
            assert(dict_names(*metadata).len() != strs_view(fields@).len());
        }
    }
    if !same {
        let mut message = cat(path, " has fields ");
        let shown = debug_list_strings(actual);
        message.append(shown.as_str());
        message.append(", expected ");
        let wanted = debug_list_strs(fields);
        message.append(wanted.as_str());
        return Err(message);
    }
    Ok(())
}

/// A value past its `WithAttributes` wrappers; `path` names it in error
/// messages.
fn strip_attributes_value<'a, F>(value: &'a Value<F>, path: &str) -> (r: Result<&'a Value<F>, String>)
    ensures
        r is Ok <==> strip_meta(vview(*value)) is Some,
        r matches Ok(x) ==> strip_meta(vview(*value)) == Some(vview(*x)) && vsize(vview(*x)) <= vsize(
            vview(*value),
        ),
{
    let mut current = value;
    loop
        invariant
            strip_meta(vview(*value)) == strip_meta(vview(*current)),
            vsize(vview(*current)) <= vsize(vview(*value)),
        decreases vsize(vview(*current)),
    {
        let metadata = match current {
            Value::Dict(metadata) => metadata,
            _ => return Ok(current),
        };
        let is_wrapper = match field(metadata, "kind") {
            Some(Value::Atom(kind)) => same_str(kind.name(), "WithAttributes"),
            _ => false,
        };
        let ghost names = dict_names(*metadata);
        let ghost vals = dict_values(*metadata);
        if !is_wrapper {
            return Ok(current);
        }
        require_fields(metadata, path, &wrapper_fields())?;
        proof {
            lemma_named_field(names, vals, 0);
            lemma_named_field(names, vals, 1);
        }
        match field(metadata, "attributes") {
            Some(Value::Dict(_)) => {},
            _ => return Err(cat(path, ".attributes must be a Dict")),
        }
        current = match field(metadata, "inner") {
            Some(inner) => inner,
            None => {
                proof {
                    assert(false);
                }
                return Err(cat(path, ".inner is missing"));
            },
        };
    }
}

fn decode_items<F>(items: &Vec<Value<F>>, path: &str, label: &str) -> (r: Result<Vec<TypeDescriptor>, String>)
    ensures
        r is Ok <==> decode_metas(vviews(items@)) is Some,
        r matches Ok(ds) ==> decode_metas(vviews(items@)) == Some(dviews(ds@)),
    decreases vsizes(vviews(items@)), 1nat,
{
    proof {
        lemma_vviews(items@);
        lemma_decode_metas(vviews(items@));
    }
    let mut out: Vec<TypeDescriptor> = Vec::new();
    let mut i: usize = 0;
    while i < items.len()
        invariant
            i <= items@.len(),
            out@.len() == i,
            vviews(items@).len() == items@.len(),
            forall|j: int| 0 <= j < items@.len() ==> #[trigger] vviews(items@)[j] == vview(items@[j]),
            forall|j: int| 0 <= j < i ==> decode_meta(vview(items@[j])) == Some(dview(#[trigger] out@[j])),
        decreases items@.len() - i,
    {
        let item_path = index_path(path, label, i);
        proof {
            lemma_vsizes_element(vviews(items@), i as int);
        }
        let d = match decode_type(&items[i], item_path.as_str()) {
            Ok(d) => d,
            Err(e) => {
                proof {
                    assert(decode_meta(vviews(items@)[i as int]) is None);
                    lemma_decode_metas(vviews(items@));
                }
                return Err(e);
            },
        };
        out.push(d);
        i = i + 1;
    }
    proof {
        lemma_dviews(out@);
        lemma_decode_metas(vviews(items@));
        assert forall|j: int| 0 <= j < items@.len() implies (#[trigger] decode_meta(vviews(items@)[j])) is Some by {
            assert(decode_meta(vview(items@[j])) == Some(dview(out@[j])));
        }
        assert(decode_metas(vviews(items@))->Some_0 =~= dviews(out@));
    }
    Ok(out)
}

fn decode_fields<F>(fields: &Dict<F>, path: &str) -> (r: Result<Vec<(String, TypeDescriptor)>, String>)
    ensures
        r is Ok <==> decode_metas(dict_values(*fields)) is Some,
        r matches Ok(fs) ==> dfields(fs@) == zip_fields(dict_names(*fields), decode_metas(dict_values(*fields))->Some_0),
    decreases vsizes(dict_values(*fields)), 1nat,
{
    let names = fields.shape().fields();
    let values = fields.values();
    proof {
        lemma_vviews(fields.spec_values());
        lemma_decode_metas(dict_values(*fields));
    }
    let mut out: Vec<(String, TypeDescriptor)> = Vec::new();
    let mut i: usize = 0;
    while i < values.len()
        invariant
            names@ == fields.spec_shape().spec_fields(),
            values@ == fields.spec_values(),
            names@.len() == values@.len(),
            i <= values@.len(),
            out@.len() == i,
            dict_values(*fields).len() == values@.len(),
            forall|j: int| 0 <= j < values@.len() ==> #[trigger] dict_values(*fields)[j] == vview(values@[j]),
            forall|j: int| 0 <= j < i ==> (#[trigger] out@[j]).0@ == names@[j]@ && decode_meta(vview(values@[j])) == Some(dview(out@[j].1)),
        decreases values@.len() - i,
    {
        let mut field_path = cat(path, ".fields.");
        field_path.append(names[i].as_str());
        proof {
            lemma_vsizes_element(dict_values(*fields), i as int);
        }
        let d = match decode_type(&values[i], field_path.as_str()) {
            Ok(d) => d,
            Err(e) => {
                proof {
                    assert(decode_meta(dict_values(*fields)[i as int]) is None);
                    lemma_decode_metas(dict_values(*fields));
                }
                return Err(e);
            },
        };
        out.push((names[i].clone(), d));
        i = i + 1;
    }
    proof {
        lemma_dfields(out@);
        lemma_decode_metas(dict_values(*fields));
        assert forall|j: int| 0 <= j < values@.len() implies (#[trigger] decode_meta(dict_values(*fields)[j])) is Some by {
            assert(decode_meta(vview(values@[j])) == Some(dview(out@[j].1)));
        }
        assert(dfields(out@) =~= zip_fields(dict_names(*fields), decode_metas(dict_values(*fields))->Some_0));
    }
    Ok(out)
}

fn decode_variants<F>(variants: &Dict<F>, path: &str) -> (r: Result<Vec<(String, Option<Box<TypeDescriptor>>)>, String>)
    ensures
        r is Ok <==> decode_payloads(dict_values(*variants)) is Some,
        r matches Ok(vs) ==> dvariants(vs@) == zip_variants(dict_names(*variants), decode_payloads(dict_values(*variants))->Some_0),
    decreases vsizes(dict_values(*variants)), 1nat,
{
    let names = variants.shape().fields();
    let values = variants.values();
    proof {
        lemma_vviews(variants.spec_values());
        lemma_decode_payloads(dict_values(*variants));
    }
    let mut out: Vec<(String, Option<Box<TypeDescriptor>>)> = Vec::new();
    let mut i: usize = 0;
    while i < values.len()
        invariant
            names@ == variants.spec_shape().spec_fields(),
            values@ == variants.spec_values(),
            names@.len() == values@.len(),
            i <= values@.len(),
            out@.len() == i,
            dict_values(*variants).len() == values@.len(),
            forall|j: int| 0 <= j < values@.len() ==> #[trigger] dict_values(*variants)[j] == vview(values@[j]),
            forall|j: int| 0 <= j < i ==> (#[trigger] out@[j]).0@ == names@[j]@ && payload_meta(vview(values@[j])) == Some(payload_view(out@[j].1)),
        decreases values@.len() - i,
    {
        let mut variant_path = cat(path, ".variants.");
        variant_path.append(names[i].as_str());
        proof {
            lemma_vsizes_element(dict_values(*variants), i as int);
            lemma_payload_strip(vview(values@[i as int]));
        }
        let inner = match strip_attributes_value(&values[i], variant_path.as_str()) {
            Ok(inner) => inner,
            Err(e) => {
                proof {
                    assert(payload_meta(dict_values(*variants)[i as int]) is None);
                    lemma_decode_payloads(dict_values(*variants));
                }
                return Err(e);
            },
        };
        let is_none = match inner {
            Value::Atom(atom) => same_str(atom.name(), "None"),
            _ => false,
        };
        let payload = if is_none {
            None
        } else {
            match decode_type(inner, variant_path.as_str()) {
                Ok(d) => Some(Box::new(d)),
                Err(e) => {
                    proof {
                        assert(payload_meta(dict_values(*variants)[i as int]) is None);
                        lemma_decode_payloads(dict_values(*variants));
                    }
                    return Err(e);
                },
            }
        };
        out.push((names[i].clone(), payload));
        i = i + 1;
    }
    proof {
        lemma_dvariants(out@);
        lemma_decode_payloads(dict_values(*variants));
        assert forall|j: int| 0 <= j < values@.len() implies (#[trigger] payload_meta(dict_values(*variants)[j])) is Some by {
            assert(payload_meta(vview(values@[j])) == Some(payload_view(out@[j].1)));
        }
        assert(dvariants(out@) =~= zip_variants(dict_names(*variants), decode_payloads(dict_values(*variants))->Some_0));
    }
    Ok(out)
}

/// Reads the type that a metadata value describes; `path` names the value
/// in error messages.
pub fn decode_type<F>(value: &Value<F>, path: &str) -> (r: Result<TypeDescriptor, String>)
    ensures
        r is Ok <==> decode_meta(vview(*value)) is Some,
        r matches Ok(d) ==> decode_meta(vview(*value)) == Some(dview(d)),
        !(vview(*value) is Dict) ==> (r matches Err(m) && m@ == path@ + " must be a Dict"@),
        (vview(*value) matches ValueView::Dict(names, values) && field_value(names, values, "kind"@) is None)
            ==> (r matches Err(m) && m@ == path@ + ".kind is missing"@),
        (vview(*value) matches ValueView::Dict(names, values) && field_value(names, values, "kind"@) matches Some(k)
            && !(k is Atom)) ==> (r matches Err(m) && m@ == path@ + ".kind must be an Atom"@),
        match vview(*value) {
            ValueView::Dict(names, values) => match meta_kind(names, values) {
                Some(k) => !known_kind(k) ==> (r matches Err(m) && m@ == path@ + ".kind has unknown value '"@ + k),
                None => true,
            },
            _ => true,
        },
        (vview(*value) matches ValueView::Dict(names, values) && meta_kind(names, values) == Some("WithAttributes"@)
            && names == seq!["attributes"@, "inner"@, "kind"@]
            && !(field_value(names, values, "attributes"@) matches Some(ValueView::Dict(_, _))))
            ==> (r matches Err(m) && m@ == path@ + ".attributes must be a Dict"@),
    decreases vsize(vview(*value)), 0nat,
{
    let metadata = match value {
        Value::Dict(metadata) => metadata,
        _ => return Err(cat(path, " must be a Dict")),
    };
    let kind = match field(metadata, "kind") {
        Some(kind) => kind,
        None => return Err(cat(path, ".kind is missing")),
    };
    let ghost names = dict_names(*metadata);
    let ghost vals = dict_values(*metadata);
    let kind = match kind {
        Value::Atom(kind) => kind,
        _ => return Err(cat(path, ".kind must be an Atom")),
    };
    let name = kind.name();
    proof {
        assert(meta_kind(names, vals) == Some(name@));
    }
    if same_str(name, "WithAttributes") {
        require_fields(metadata, path, &wrapper_fields())?;
        proof {
            lemma_named_field(names, vals, 0);
            lemma_named_field(names, vals, 1);
        }
        match field(metadata, "attributes") {
            Some(Value::Dict(_)) => {},
            _ => return Err(cat(path, ".attributes must be a Dict")),
        }
        let inner = match field(metadata, "inner") {
            Some(inner) => inner,
            None => {
                proof {
                    assert(false);
                }
                return Err(cat(path, ".inner is missing"));
            },
        };
        return decode_type(inner, path);
    }
    if same_str(name, "Any") {
        require_fields(metadata, path, &kind_fields())?;
        return Ok(TypeDescriptor::Any);
    }
    if same_str(name, "Int") {
        require_fields(metadata, path, &kind_fields())?;
        return Ok(TypeDescriptor::Int);
    }
    if same_str(name, "Float") {
        require_fields(metadata, path, &kind_fields())?;
        return Ok(TypeDescriptor::Float);
    }
    if same_str(name, "String") {
        require_fields(metadata, path, &kind_fields())?;
        return Ok(TypeDescriptor::String);
    }
    if same_str(name, "Bytes") {
        require_fields(metadata, path, &kind_fields())?;
        return Ok(TypeDescriptor::Bytes);
    }
    if same_str(name, "Atom") {
        require_fields(metadata, path, &pair_fields("kind", "tag"))?;
        proof {
            lemma_named_field(names, vals, 1);
        }
        let tag = match field(metadata, "tag") {
            Some(Value::Atom(tag)) => tag,
            _ => return Err(cat(path, ".tag must be an Atom")),
        };
        return Ok(TypeDescriptor::Atom(copy_atom(tag)));
    }
    if same_str(name, "Array") {
        require_fields(metadata, path, &pair_fields("item", "kind"))?;
        proof {
            lemma_named_field(names, vals, 0);
        }
        let item = match field(metadata, "item") {
            Some(item) => item,
            None => {
                proof {
                    assert(false);
                }
                return Err(cat(path, ".item is missing"));
            },
        };
        let item_path = cat(path, ".item");
        let item = decode_type(item, item_path.as_str())?;
        return Ok(TypeDescriptor::Array(Box::new(item)));
    }
    if same_str(name, "Tuple") {
        require_fields(metadata, path, &pair_fields("items", "kind"))?;
        proof {
            lemma_named_field(names, vals, 0);
        }
        let items = match field(metadata, "items") {
            Some(Value::Array(items)) => items,
            _ => return Err(cat(path, ".items must be an Array")),
        };
        let items = decode_items(items, path, ".items")?;
        return Ok(TypeDescriptor::Tuple(items));
    }
    if same_str(name, "Struct") {
        require_fields(metadata, path, &pair_fields("fields", "kind"))?;
        proof {
            lemma_named_field(names, vals, 0);
        }
        let fields = match field(metadata, "fields") {
            Some(Value::Dict(fields)) => fields,
            _ => return Err(cat(path, ".fields must be a Dict")),
        };
        let _ = field(fields, "kind");
        let fields = decode_fields(fields, path)?;
        return Ok(TypeDescriptor::Struct(fields));
    }
    if same_str(name, "Enum") {
        require_fields(metadata, path, &pair_fields("kind", "variants"))?;
        proof {
            lemma_named_field(names, vals, 1);
        }
        let variants = match field(metadata, "variants") {
            Some(Value::Dict(variants)) => variants,
            _ => return Err(cat(path, ".variants must be a Dict")),
        };
        let _ = field(variants, "kind");
        if variants.values().len() == 0 {
            return Err(cat(path, ".variants must not be empty"));
        }
        let variants = decode_variants(variants, path)?;
        return Ok(TypeDescriptor::Enum(variants));
    }
    if same_str(name, "Union") {
        require_fields(metadata, path, &pair_fields("kind", "variants"))?;
        proof {
            lemma_named_field(names, vals, 1);
        }
        let variants = match field(metadata, "variants") {
            Some(Value::Array(variants)) => variants,
            _ => return Err(cat(path, ".variants must be an Array")),
        };
        if variants.len() == 0 {
            return Err(cat(path, ".variants must not be empty"));
        }
        let variants = decode_items(variants, path, ".variants")?;
        return Ok(TypeDescriptor::Union(variants));
    }
    if same_str(name, "Function") {
        require_fields(metadata, path, &function_fields())?;
        proof {
            lemma_named_field(names, vals, 1);
            lemma_named_field(names, vals, 2);
        }
        let parameters = match field(metadata, "parameters") {
            Some(Value::Array(parameters)) => parameters,
            _ => return Err(cat(path, ".parameters must be an Array")),
        };
        let parameters = decode_items(parameters, path, ".parameters")?;
        let result = match field(metadata, "result") {
            Some(result) => result,
            None => {
                proof {
                    assert(false);
                }
                return Err(cat(path, ".result is missing"));
            },
        };
        let result_path = cat(path, ".result");
        let result = decode_type(result, result_path.as_str())?;
        return Ok(TypeDescriptor::Function { parameters, result: Box::new(result) });
    }
    let mut message = cat(path, ".kind has unknown value '");
    message.append(name);
    Err(message)
}

impl TypeDescriptor {
    /// The type that a metadata value describes.
    pub fn from_value<F>(value: &Value<F>) -> (r: Result<TypeDescriptor, String>)
        ensures
            r is Ok <==> decode_meta(vview(*value)) is Some,
            r matches Ok(d) ==> decode_meta(vview(*value)) == Some(dview(d)),
    {
        decode_type(value, "Type")
    }
}

/// The `kind` atom of a metadata record.
pub open spec fn kind_atom(kind: Seq<char>) -> ValueView {
    ValueView::Atom(AtomView::Named(kind))
}

/// The canonical metadata record of a type: its kind, and the fields its
/// kind asks for, in name order; an enum variant without payload is the
/// atom `None`.
pub open spec fn encode_meta(d: DescView) -> ValueView
    decreases d,
{
    match d {
        DescView::Any => ValueView::Dict(seq!["kind"@], seq![kind_atom("Any"@)]),
        DescView::Int => ValueView::Dict(seq!["kind"@], seq![kind_atom("Int"@)]),
        DescView::Float => ValueView::Dict(seq!["kind"@], seq![kind_atom("Float"@)]),
        DescView::String => ValueView::Dict(seq!["kind"@], seq![kind_atom("String"@)]),
        DescView::Bytes => ValueView::Dict(seq!["kind"@], seq![kind_atom("Bytes"@)]),
        DescView::Atom(tag) => ValueView::Dict(seq!["kind"@, "tag"@], seq![kind_atom("Atom"@), ValueView::Atom(tag)]),
        DescView::Array(item) => ValueView::Dict(seq!["item"@, "kind"@], seq![encode_meta(*item), kind_atom("Array"@)]),
        DescView::Tuple(items) => ValueView::Dict(
            seq!["items"@, "kind"@],
            seq![ValueView::Array(encode_metas(items)), kind_atom("Tuple"@)],
        ),
        DescView::Struct(fields) => ValueView::Dict(
            seq!["fields"@, "kind"@],
            seq![ValueView::Dict(field_names(fields), encode_field_types(fields)), kind_atom("Struct"@)],
        ),
        DescView::Enum(variants) => ValueView::Dict(
            seq!["kind"@, "variants"@],
            seq![kind_atom("Enum"@), ValueView::Dict(variant_names(variants), encode_payloads(variants))],
        ),
        DescView::Union(items) => ValueView::Dict(
            seq!["kind"@, "variants"@],
            seq![kind_atom("Union"@), ValueView::Array(encode_metas(items))],
        ),
        DescView::Function(parameters, result) => ValueView::Dict(
            seq!["kind"@, "parameters"@, "result"@],
            seq![kind_atom("Function"@), ValueView::Array(encode_metas(parameters)), encode_meta(*result)],
        ),
    }
}

pub open spec fn encode_metas(ds: Seq<DescView>) -> Seq<ValueView>
    decreases ds,
{
    if ds.len() == 0 {
        Seq::empty()
    } else {
        seq![encode_meta(ds[0])] + encode_metas(ds.subrange(1, ds.len() as int))
    }
}

pub open spec fn field_names(fields: Seq<(Seq<char>, DescView)>) -> Seq<Seq<char>> {
    fields.map_values(|f: (Seq<char>, DescView)| f.0)
}

pub open spec fn encode_field_types(fields: Seq<(Seq<char>, DescView)>) -> Seq<ValueView>
    decreases fields,
{
    if fields.len() == 0 {
        Seq::empty()
    } else {
        seq![encode_meta(fields[0].1)] + encode_field_types(fields.subrange(1, fields.len() as int))
    }
}

pub open spec fn variant_names(variants: Seq<(Seq<char>, Option<DescView>)>) -> Seq<Seq<char>> {
    variants.map_values(|v: (Seq<char>, Option<DescView>)| v.0)
}

pub open spec fn encode_payloads(variants: Seq<(Seq<char>, Option<DescView>)>) -> Seq<ValueView>
    decreases variants,
{
    if variants.len() == 0 {
        Seq::empty()
    } else {
        let first = match variants[0].1 {
            None => ValueView::Atom(AtomView::Builtin(BuiltinAtom::NoneAtom)),
            Some(p) => encode_meta(p),
        };
        seq![first] + encode_payloads(variants.subrange(1, variants.len() as int))
    }
}

/// A type whose enums and unions each have a member, all the way down.
pub open spec fn canonical(d: DescView) -> bool
    decreases d,
{
    match d {
        DescView::Array(item) => canonical(*item),
        DescView::Tuple(items) => canonical_all(items),
        DescView::Struct(fields) => canonical_fields(fields),
        DescView::Enum(variants) => variants.len() > 0 && canonical_variants(variants),
        DescView::Union(items) => items.len() > 0 && canonical_all(items),
        DescView::Function(parameters, result) => canonical_all(parameters) && canonical(*result),
        _ => true,
    }
}

pub open spec fn canonical_all(ds: Seq<DescView>) -> bool
    decreases ds,
{
    ds.len() == 0 || (canonical(ds[0]) && canonical_all(ds.subrange(1, ds.len() as int)))
}

pub open spec fn canonical_fields(fields: Seq<(Seq<char>, DescView)>) -> bool
    decreases fields,
{
    fields.len() == 0 || (canonical(fields[0].1) && canonical_fields(fields.subrange(1, fields.len() as int)))
}

pub open spec fn canonical_variants(variants: Seq<(Seq<char>, Option<DescView>)>) -> bool
    decreases variants,
{
    variants.len() == 0 || ((match variants[0].1 {
        None => true,
        Some(p) => canonical(p),
    }) && canonical_variants(variants.subrange(1, variants.len() as int)))
}

proof fn lemma_kind_texts()
    ensures
        "WithAttributes"@ != "Any"@,
        "WithAttributes"@ != "Int"@,
        "WithAttributes"@ != "Float"@,
        "WithAttributes"@ != "String"@,
        "WithAttributes"@ != "Bytes"@,
        "WithAttributes"@ != "Atom"@,
        "WithAttributes"@ != "Array"@,
        "WithAttributes"@ != "Tuple"@,
        "WithAttributes"@ != "Struct"@,
        "WithAttributes"@ != "Enum"@,
        "WithAttributes"@ != "Union"@,
        "WithAttributes"@ != "Function"@,
        "Any"@ != "Int"@,
        "Any"@ != "Float"@,
        "Any"@ != "String"@,
        "Any"@ != "Bytes"@,
        "Any"@ != "Atom"@,
        "Any"@ != "Array"@,
        "Any"@ != "Tuple"@,
        "Any"@ != "Struct"@,
        "Any"@ != "Enum"@,
        "Any"@ != "Union"@,
        "Any"@ != "Function"@,
        "Int"@ != "Float"@,
        "Int"@ != "String"@,
        "Int"@ != "Bytes"@,
        "Int"@ != "Atom"@,
        "Int"@ != "Array"@,
        "Int"@ != "Tuple"@,
        "Int"@ != "Struct"@,
        "Int"@ != "Enum"@,
        "Int"@ != "Union"@,
        "Int"@ != "Function"@,
        "Float"@ != "String"@,
        "Float"@ != "Bytes"@,
        "Float"@ != "Atom"@,
        "Float"@ != "Array"@,
        "Float"@ != "Tuple"@,
        "Float"@ != "Struct"@,
        "Float"@ != "Enum"@,
        "Float"@ != "Union"@,
        "Float"@ != "Function"@,
        "String"@ != "Bytes"@,
        "String"@ != "Atom"@,
        "String"@ != "Array"@,
        "String"@ != "Tuple"@,
        "String"@ != "Struct"@,
        "String"@ != "Enum"@,
        "String"@ != "Union"@,
        "String"@ != "Function"@,
        "Bytes"@ != "Atom"@,
        "Bytes"@ != "Array"@,
        "Bytes"@ != "Tuple"@,
        "Bytes"@ != "Struct"@,
        "Bytes"@ != "Enum"@,
        "Bytes"@ != "Union"@,
        "Bytes"@ != "Function"@,
        "Atom"@ != "Array"@,
        "Atom"@ != "Tuple"@,
        "Atom"@ != "Struct"@,
        "Atom"@ != "Enum"@,
        "Atom"@ != "Union"@,
        "Atom"@ != "Function"@,
        "Array"@ != "Tuple"@,
        "Array"@ != "Struct"@,
        "Array"@ != "Enum"@,
        "Array"@ != "Union"@,
        "Array"@ != "Function"@,
        "Tuple"@ != "Struct"@,
        "Tuple"@ != "Enum"@,
        "Tuple"@ != "Union"@,
        "Tuple"@ != "Function"@,
        "Struct"@ != "Enum"@,
        "Struct"@ != "Union"@,
        "Struct"@ != "Function"@,
        "Enum"@ != "Union"@,
        "Enum"@ != "Function"@,
        "Union"@ != "Function"@,
        "None"@ != "WithAttributes"@,
        "item"@ != "kind"@,
        "items"@ != "kind"@,
        "fields"@ != "kind"@,
        "attributes"@ != "kind"@,
        "inner"@ != "kind"@,
{
    reveal_strlit("WithAttributes");
    reveal_strlit("Any");
    reveal_strlit("Int");
    reveal_strlit("Float");
    reveal_strlit("String");
    reveal_strlit("Bytes");
    reveal_strlit("Atom");
    reveal_strlit("Array");
    reveal_strlit("Tuple");
    reveal_strlit("Struct");
    reveal_strlit("Enum");
    reveal_strlit("Union");
    reveal_strlit("Function");
    reveal_strlit("None");
    reveal_strlit("item");
    reveal_strlit("items");
    reveal_strlit("fields");
    reveal_strlit("kind");
    reveal_strlit("attributes");
    reveal_strlit("inner");
    assert("WithAttributes"@.len() == 14 && "WithAttributes"@[0] == 'W');
    assert("Any"@.len() == 3 && "Any"@[0] == 'A' && "Any"@[1] == 'n');
    assert("Int"@.len() == 3 && "Int"@[0] == 'I');
    assert("Float"@.len() == 5 && "Float"@[0] == 'F');
    assert("String"@.len() == 6 && "String"@[0] == 'S' && "String"@[1] == 't');
    assert("Bytes"@.len() == 5 && "Bytes"@[0] == 'B');
    assert("Atom"@.len() == 4 && "Atom"@[0] == 'A' && "Atom"@[1] == 't');
    assert("Array"@.len() == 5 && "Array"@[0] == 'A');
    assert("Tuple"@.len() == 5 && "Tuple"@[0] == 'T');
    assert("Struct"@.len() == 6 && "Struct"@[0] == 'S' && "Struct"@[1] == 't' && "Struct"@[2] == 'r');
    assert("String"@[2] == 'r' && "String"@[3] == 'i' && "Struct"@[3] == 'u');
    assert("Enum"@.len() == 4 && "Enum"@[0] == 'E');
    assert("Union"@.len() == 5 && "Union"@[0] == 'U');
    assert("Function"@.len() == 8 && "Function"@[0] == 'F');
    assert("None"@.len() == 4);
    assert("item"@.len() == 4 && "item"@[0] == 'i');
    assert("items"@.len() == 5 && "items"@[0] == 'i');
    assert("fields"@.len() == 6 && "fields"@[0] == 'f');
    assert("kind"@.len() == 4 && "kind"@[0] == 'k');
    assert("attributes"@.len() == 10);
    assert("inner"@.len() == 5 && "inner"@[0] == 'i');
}

/// The canonical metadata of a type whose enums and unions each have a
/// member reads back as that type.
pub proof fn lemma_decode_encode(d: DescView)
    requires
        canonical(d),
    ensures
        decode_meta(encode_meta(d)) == Some(d),
    decreases d,
{
    lemma_kind_texts();
    lemma_encoded_is_plain(d);
    reveal_with_fuel(field_value, 3);
    match d {
        DescView::Array(item) => {
            lemma_decode_encode(*item);
        },
        DescView::Tuple(items) => {
            lemma_decode_encode_all(items);
        },
        DescView::Struct(fields) => {
            lemma_decode_encode_fields(fields);
        },
        DescView::Enum(variants) => {
            lemma_decode_encode_variants(variants);
        },
        DescView::Union(items) => {
            lemma_decode_encode_all(items);
        },
        DescView::Function(parameters, result) => {
            lemma_decode_encode_all(parameters);
            lemma_decode_encode(*result);
        },
        _ => {},
    }
}

proof fn lemma_decode_encode_all(ds: Seq<DescView>)
    requires
        canonical_all(ds),
    ensures
        encode_metas(ds).len() == ds.len(),
        decode_metas(encode_metas(ds)) == Some(ds),
    decreases ds,
{
    if ds.len() > 0 {
        let rest = ds.subrange(1, ds.len() as int);
        lemma_decode_encode(ds[0]);
        lemma_decode_encode_all(rest);
        let e = encode_metas(ds);
        assert(e.subrange(1, e.len() as int) =~= encode_metas(rest));
        assert(seq![ds[0]] + rest =~= ds);
    } else {
        assert(decode_metas(encode_metas(ds))->Some_0 =~= ds);
    }
}

proof fn lemma_decode_encode_fields(fields: Seq<(Seq<char>, DescView)>)
    requires
        canonical_fields(fields),
    ensures
        encode_field_types(fields).len() == fields.len(),
        decode_metas(encode_field_types(fields)) is Some,
        decode_metas(encode_field_types(fields))->Some_0.len() == fields.len(),
        zip_fields(field_names(fields), decode_metas(encode_field_types(fields))->Some_0) == fields,
    decreases fields,
{
    if fields.len() > 0 {
        let rest = fields.subrange(1, fields.len() as int);
        lemma_decode_encode(fields[0].1);
        lemma_decode_encode_fields(rest);
        let e = encode_field_types(fields);
        assert(e.subrange(1, e.len() as int) =~= encode_field_types(rest));
        let decoded = decode_metas(e)->Some_0;
        let rest_decoded = decode_metas(encode_field_types(rest))->Some_0;
        assert(decoded == seq![fields[0].1] + rest_decoded);
        assert forall|i: int| 0 <= i < fields.len() implies #[trigger] zip_fields(field_names(fields), decoded)[i] == fields[i] by {
            if i > 0 {
                assert(zip_fields(field_names(rest), rest_decoded)[i - 1] == rest[i - 1]);
            }
        }
        assert(zip_fields(field_names(fields), decoded) =~= fields);
    } else {
        assert(zip_fields(field_names(fields), decode_metas(encode_field_types(fields))->Some_0) =~= fields);
    }
}

proof fn lemma_decode_encode_variants(variants: Seq<(Seq<char>, Option<DescView>)>)
    requires
        canonical_variants(variants),
    ensures
        encode_payloads(variants).len() == variants.len(),
        decode_payloads(encode_payloads(variants)) is Some,
        decode_payloads(encode_payloads(variants))->Some_0.len() == variants.len(),
        zip_variants(variant_names(variants), decode_payloads(encode_payloads(variants))->Some_0) == variants,
    decreases variants,
{
    lemma_kind_texts();
    if variants.len() > 0 {
        let rest = variants.subrange(1, variants.len() as int);
        let e = encode_payloads(variants);
        match variants[0].1 {
            Some(p) => {
                lemma_decode_encode(p);
                lemma_encoded_is_plain(p);
                assert(e[0] == encode_meta(p));
                assert(payload_meta(e[0]) == Some(Some(p)));
            },
            None => {
                assert(e[0] == ValueView::Atom(AtomView::Builtin(BuiltinAtom::NoneAtom)));
                assert(atom_text(AtomView::Builtin(BuiltinAtom::NoneAtom)) == "None"@);
                assert(payload_meta(e[0]) == Some(None::<DescView>));
            },
        }
        lemma_decode_encode_variants(rest);
        assert(e.subrange(1, e.len() as int) =~= encode_payloads(rest));
        let decoded = decode_payloads(e)->Some_0;
        let rest_decoded = decode_payloads(encode_payloads(rest))->Some_0;
        assert(decoded == seq![variants[0].1] + rest_decoded);
        assert forall|i: int| 0 <= i < variants.len() implies #[trigger] zip_variants(variant_names(variants), decoded)[i] == variants[i] by {
            if i > 0 {
                assert(zip_variants(variant_names(rest), rest_decoded)[i - 1] == rest[i - 1]);
            }
        }
        assert(zip_variants(variant_names(variants), decoded) =~= variants);
    } else {
        assert(zip_variants(variant_names(variants), decode_payloads(encode_payloads(variants))->Some_0) =~= variants);
    }
}

/// Canonical metadata is a record whose kind is not `WithAttributes`.
proof fn lemma_encoded_is_plain(d: DescView)
    ensures
        encode_meta(d) is Dict,
        encode_meta(d)->Dict_0.len() == encode_meta(d)->Dict_1.len(),
        meta_kind(encode_meta(d)->Dict_0, encode_meta(d)->Dict_1) != Some("WithAttributes"@),
{
    lemma_kind_texts();
    reveal_with_fuel(field_value, 3);
    let e = encode_meta(d);
    let names = e->Dict_0;
    let values = e->Dict_1;
    match d {
        DescView::Array(_) => {
            assert(names.drop_first() =~= seq!["kind"@]);
        },
        DescView::Tuple(_) => {
            assert(names.drop_first() =~= seq!["kind"@]);
        },
        DescView::Struct(_) => {
            assert(names.drop_first() =~= seq!["kind"@]);
        },
        _ => {},
    }
}

/// Names in strictly increasing byte order.
pub open spec fn names_in_byte_order(names: Seq<Seq<char>>) -> bool {
    forall|i: int, j: int| 0 <= i < j < names.len() ==> bytes_lt(encode_utf8(names[i]), encode_utf8(names[j]))
}

/// Struct fields and enum variants in strictly increasing name order, all
/// the way down, as in an ordered map.
pub open spec fn sorted_desc(d: DescView) -> bool
    decreases d,
{
    match d {
        DescView::Array(item) => sorted_desc(*item),
        DescView::Tuple(items) => sorted_all(items),
        DescView::Struct(fields) => names_in_byte_order(field_names(fields)) && sorted_fields(fields),
        DescView::Enum(variants) => names_in_byte_order(variant_names(variants)) && sorted_variants(variants),
        DescView::Union(items) => sorted_all(items),
        DescView::Function(parameters, result) => sorted_all(parameters) && sorted_desc(*result),
        _ => true,
    }
}

pub open spec fn sorted_all(ds: Seq<DescView>) -> bool
    decreases ds,
{
    ds.len() == 0 || (sorted_desc(ds[0]) && sorted_all(ds.subrange(1, ds.len() as int)))
}

pub open spec fn sorted_fields(fields: Seq<(Seq<char>, DescView)>) -> bool
    decreases fields,
{
    fields.len() == 0 || (sorted_desc(fields[0].1) && sorted_fields(fields.subrange(1, fields.len() as int)))
}

pub open spec fn sorted_variants(variants: Seq<(Seq<char>, Option<DescView>)>) -> bool
    decreases variants,
{
    variants.len() == 0 || ((match variants[0].1 {
        None => true,
        Some(p) => sorted_desc(p),
    }) && sorted_variants(variants.subrange(1, variants.len() as int)))
}

pub proof fn lemma_sorted_all(ds: Seq<DescView>)
    ensures
        sorted_all(ds) <==> forall|i: int| 0 <= i < ds.len() ==> #[trigger] sorted_desc(ds[i]),
    decreases ds.len(),
{
    if ds.len() > 0 {
        let rest = ds.subrange(1, ds.len() as int);
        lemma_sorted_all(rest);
        assert forall|i: int| 1 <= i < ds.len() implies ds[i] == rest[i - 1] by {}
        if sorted_all(ds) {
            assert forall|i: int| 0 <= i < ds.len() implies #[trigger] sorted_desc(ds[i]) by {
                if i > 0 {
                    assert(sorted_desc(rest[i - 1]));
                }
            }
        }
        if forall|i: int| 0 <= i < ds.len() ==> #[trigger] sorted_desc(ds[i]) {
            assert forall|i: int| 0 <= i < rest.len() implies #[trigger] sorted_desc(rest[i]) by {
                assert(sorted_desc(ds[i + 1]));
            }
            assert(sorted_all(rest));
            assert(sorted_desc(ds[0]));
            assert(sorted_all(ds));
        }
        if !(forall|i: int| 0 <= i < ds.len() ==> #[trigger] sorted_desc(ds[i])) {
            let i = choose|i: int| 0 <= i < ds.len() && !#[trigger] sorted_desc(ds[i]);
            if i > 0 {
                assert(!sorted_desc(rest[i - 1]));
            }
        }
    }
}

pub proof fn lemma_sorted_fields(fields: Seq<(Seq<char>, DescView)>)
    ensures
        sorted_fields(fields) <==> forall|i: int| 0 <= i < fields.len() ==> #[trigger] sorted_desc(fields[i].1),
    decreases fields.len(),
{
    if fields.len() > 0 {
        let rest = fields.subrange(1, fields.len() as int);
        lemma_sorted_fields(rest);
        assert forall|i: int| 1 <= i < fields.len() implies fields[i] == rest[i - 1] by {}
        if sorted_fields(fields) {
            assert forall|i: int| 0 <= i < fields.len() implies #[trigger] sorted_desc(fields[i].1) by {
                if i > 0 {
                    assert(sorted_desc(rest[i - 1].1));
                }
            }
        }
        if forall|i: int| 0 <= i < fields.len() ==> #[trigger] sorted_desc(fields[i].1) {
            assert forall|i: int| 0 <= i < rest.len() implies #[trigger] sorted_desc(rest[i].1) by {
                assert(sorted_desc(fields[i + 1].1));
            }
            assert(sorted_fields(rest));
            assert(sorted_desc(fields[0].1));
            assert(sorted_fields(fields));
        }
        if !(forall|i: int| 0 <= i < fields.len() ==> #[trigger] sorted_desc(fields[i].1)) {
            let i = choose|i: int| 0 <= i < fields.len() && !#[trigger] sorted_desc(fields[i].1);
            if i > 0 {
                assert(!sorted_desc(rest[i - 1].1));
            }
        }
    }
}

pub proof fn lemma_sorted_variants(variants: Seq<(Seq<char>, Option<DescView>)>)
    ensures
        sorted_variants(variants) <==> forall|i: int| 0 <= i < variants.len() ==> (#[trigger] variants[i]).1 is None
            || sorted_desc(variants[i].1->Some_0),
    decreases variants.len(),
{
    if variants.len() > 0 {
        let rest = variants.subrange(1, variants.len() as int);
        lemma_sorted_variants(rest);
        assert forall|i: int| 1 <= i < variants.len() implies variants[i] == rest[i - 1] by {}
        if !(forall|i: int| 0 <= i < variants.len() ==> (#[trigger] variants[i]).1 is None || sorted_desc(
            variants[i].1->Some_0,
        )) {
            let i = choose|i: int| 0 <= i < variants.len() && !((#[trigger] variants[i]).1 is None || sorted_desc(
                variants[i].1->Some_0,
            ));
            if i > 0 {
                assert(!(rest[i - 1].1 is None || sorted_desc(rest[i - 1].1->Some_0)));
            }
        }
    }
}

proof fn lemma_encode_metas(ds: Seq<DescView>)
    ensures
        encode_metas(ds).len() == ds.len(),
        forall|i: int| 0 <= i < ds.len() ==> #[trigger] encode_metas(ds)[i] == encode_meta(ds[i]),
    decreases ds.len(),
{
    if ds.len() > 0 {
        let rest = ds.subrange(1, ds.len() as int);
        lemma_encode_metas(rest);
        assert forall|i: int| 0 <= i < ds.len() implies #[trigger] encode_metas(ds)[i] == encode_meta(ds[i]) by {
            if i > 0 {
                assert(rest[i - 1] == ds[i]);
            }
        }
    }
}

proof fn lemma_encode_field_types(fields: Seq<(Seq<char>, DescView)>)
    ensures
        encode_field_types(fields).len() == fields.len(),
        forall|i: int| 0 <= i < fields.len() ==> #[trigger] encode_field_types(fields)[i] == encode_meta(fields[i].1),
    decreases fields.len(),
{
    if fields.len() > 0 {
        let rest = fields.subrange(1, fields.len() as int);
        lemma_encode_field_types(rest);
        assert forall|i: int| 0 <= i < fields.len() implies #[trigger] encode_field_types(fields)[i] == encode_meta(fields[i].1) by {
            if i > 0 {
                assert(rest[i - 1] == fields[i]);
            }
        }
    }
}

/// The metadata of an enum variant's payload: the atom `None` when there is
/// none.
pub open spec fn encode_payload(p: Option<DescView>) -> ValueView {
    match p {
        None => ValueView::Atom(AtomView::Builtin(BuiltinAtom::NoneAtom)),
        Some(t) => encode_meta(t),
    }
}

proof fn lemma_encode_payloads(variants: Seq<(Seq<char>, Option<DescView>)>)
    ensures
        encode_payloads(variants).len() == variants.len(),
        forall|i: int| 0 <= i < variants.len() ==> #[trigger] encode_payloads(variants)[i] == encode_payload(variants[i].1),
    decreases variants.len(),
{
    if variants.len() > 0 {
        let rest = variants.subrange(1, variants.len() as int);
        lemma_encode_payloads(rest);
        assert forall|i: int| 0 <= i < variants.len() implies #[trigger] encode_payloads(variants)[i] == encode_payload(variants[i].1) by {
            if i > 0 {
                assert(rest[i - 1] == variants[i]);
            }
        }
    }
}

proof fn lemma_first_char_before(a: Seq<char>, b: Seq<char>)
    requires
        is_ascii_chars(a),
        is_ascii_chars(b),
        a.len() > 0,
        b.len() > 0,
        (a[0] as u32) < (b[0] as u32),
    ensures
        bytes_lt(encode_utf8(a), encode_utf8(b)),
{
    is_ascii_chars_encode_utf8(a);
    is_ascii_chars_encode_utf8(b);
    assert(encode_utf8(a)[0] == a[0] as u8);
    assert(encode_utf8(b)[0] == b[0] as u8);
}

/// The field names of metadata records, in the order their records keep.
proof fn lemma_metadata_names_in_order()
    ensures
        bytes_lt(encode_utf8("item"@), encode_utf8("kind"@)),
        bytes_lt(encode_utf8("items"@), encode_utf8("kind"@)),
        bytes_lt(encode_utf8("fields"@), encode_utf8("kind"@)),
        bytes_lt(encode_utf8("kind"@), encode_utf8("tag"@)),
        bytes_lt(encode_utf8("kind"@), encode_utf8("variants"@)),
        bytes_lt(encode_utf8("kind"@), encode_utf8("parameters"@)),
        bytes_lt(encode_utf8("parameters"@), encode_utf8("result"@)),
{
    reveal_strlit("item");
    reveal_strlit("items");
    reveal_strlit("fields");
    reveal_strlit("kind");
    reveal_strlit("tag");
    reveal_strlit("variants");
    reveal_strlit("parameters");
    reveal_strlit("result");
    assert(is_ascii_chars("item"@));
    assert(is_ascii_chars("items"@));
    assert(is_ascii_chars("fields"@));
    assert(is_ascii_chars("kind"@));
    assert(is_ascii_chars("tag"@));
    assert(is_ascii_chars("variants"@));
    assert(is_ascii_chars("parameters"@));
    assert(is_ascii_chars("result"@));
    lemma_first_char_before("item"@, "kind"@);
    lemma_first_char_before("items"@, "kind"@);
    lemma_first_char_before("fields"@, "kind"@);
    lemma_first_char_before("kind"@, "tag"@);
    lemma_first_char_before("kind"@, "variants"@);
    lemma_first_char_before("kind"@, "parameters"@);
    lemma_first_char_before("parameters"@, "result"@);
}

fn shape_one(a: &str) -> (s: Shape)
    ensures
        s.spec_fields().len() == 1,
        names_view(s.spec_fields()) == seq![a@],
{
    let fields = vec![String::from_str(a)];
    proof {
        assert(names_view(fields@) =~= seq![a@]);
    }
    Shape::from_sorted_fields(fields)
}

fn shape_two(a: &str, b: &str) -> (s: Shape)
    requires
        bytes_lt(encode_utf8(a@), encode_utf8(b@)),
    ensures
        s.spec_fields().len() == 2,
        names_view(s.spec_fields()) == seq![a@, b@],
{
    let fields = vec![String::from_str(a), String::from_str(b)];
    proof {
        assert(names_view(fields@) =~= seq![a@, b@]);
    }
    Shape::from_sorted_fields(fields)
}

fn shape_three(a: &str, b: &str, c: &str) -> (s: Shape)
    requires
        bytes_lt(encode_utf8(a@), encode_utf8(b@)),
        bytes_lt(encode_utf8(b@), encode_utf8(c@)),
    ensures
        s.spec_fields().len() == 3,
        names_view(s.spec_fields()) == seq![a@, b@, c@],
{
    let fields = vec![String::from_str(a), String::from_str(b), String::from_str(c)];
    proof {
        lemma_bytes_lt_transitive(encode_utf8(a@), encode_utf8(b@), encode_utf8(c@));
        assert(names_view(fields@) =~= seq![a@, b@, c@]);
    }
    Shape::from_sorted_fields(fields)
}

fn kind_value<F>(kind: &str) -> (v: Value<F>)
    ensures
        vview(v) == kind_atom(kind@),
{
    Value::Atom(Atom::named(kind))
}

fn record<F>(shape: Shape, values: Vec<Value<F>>) -> (v: Value<F>)
    requires
        shape.spec_fields().len() == values@.len(),
    ensures
        vview(v) == ValueView::Dict(names_view(shape.spec_fields()), vviews(values@)),
{
    let d = Dict::new(shape, values);
    proof {
        lemma_dict_view(d);
    }
    Value::Dict(d)
}

proof fn lemma_vviews_two<F>(a: Value<F>, b: Value<F>)
    ensures
        vviews(seq![a, b]) == seq![vview(a), vview(b)],
{
    lemma_vviews(seq![a, b]);
    assert(vviews(seq![a, b]) =~= seq![vview(a), vview(b)]);
}

proof fn lemma_vviews_three<F>(a: Value<F>, b: Value<F>, c: Value<F>)
    ensures
        vviews(seq![a, b, c]) == seq![vview(a), vview(b), vview(c)],
{
    lemma_vviews(seq![a, b, c]);
    assert(vviews(seq![a, b, c]) =~= seq![vview(a), vview(b), vview(c)]);
}

fn simple_record<F>(kind: &str) -> (v: Value<F>)
    ensures
        vview(v) == ValueView::Dict(seq!["kind"@], seq![kind_atom(kind@)]),
{
    let values = vec![kind_value(kind)];
    proof {
        lemma_vviews(values@);
        assert(vviews(values@) =~= seq![kind_atom(kind@)]);
    }
    record(shape_one("kind"), values)
}

/// The metadata values of a list of types.
fn values_of<F>(items: &Vec<TypeDescriptor>) -> (r: Vec<Value<F>>)
    requires
        sorted_all(dviews(items@)),
    ensures
        vviews(r@) == encode_metas(dviews(items@)),
    decreases items,
{
    proof {
        lemma_dviews(items@);
        lemma_sorted_all(dviews(items@));
        lemma_encode_metas(dviews(items@));
    }
    let mut out: Vec<Value<F>> = Vec::new();
    let mut i: usize = 0;
    while i < items.len()
        invariant
            i <= items@.len(),
            out@.len() == i,
            dviews(items@).len() == items@.len(),
            forall|j: int| 0 <= j < items@.len() ==> #[trigger] dviews(items@)[j] == dview(items@[j]),
            forall|j: int| 0 <= j < items@.len() ==> #[trigger] sorted_desc(dviews(items@)[j]),
            forall|j: int| 0 <= j < i ==> vview(#[trigger] out@[j]) == encode_meta(dview(items@[j])),
        decreases items@.len() - i,
    {
        proof {
            assert(sorted_desc(dviews(items@)[i as int]));
        }
        let v = items[i].to_value();
        out.push(v);
        i = i + 1;
    }
    proof {
        lemma_vviews(out@);
        assert(vviews(out@) =~= encode_metas(dviews(items@)));
    }
    out
}

/// The names and metadata values of the fields of a struct type.
fn field_values_of<F>(fields: &Vec<(String, TypeDescriptor)>) -> (r: (Vec<String>, Vec<Value<F>>))
    requires
        sorted_fields(dfields(fields@)),
    ensures
        r.0@.len() == fields@.len(),
        r.1@.len() == fields@.len(),
        forall|j: int| 0 <= j < fields@.len() ==> (#[trigger] r.0@[j])@ == fields@[j].0@,
        forall|j: int| 0 <= j < fields@.len() ==> vview(#[trigger] r.1@[j]) == encode_meta(dview(fields@[j].1)),
    decreases fields,
{
    proof {
        lemma_dfields(fields@);
        lemma_sorted_fields(dfields(fields@));
    }
    let mut names: Vec<String> = Vec::new();
    let mut types: Vec<Value<F>> = Vec::new();
    let mut i: usize = 0;
    while i < fields.len()
        invariant
            i <= fields@.len(),
            names@.len() == i,
            types@.len() == i,
            dfields(fields@).len() == fields@.len(),
            forall|j: int| 0 <= j < fields@.len() ==> #[trigger] dfields(fields@)[j] == (fields@[j].0@, dview(fields@[j].1)),
            forall|j: int| 0 <= j < fields@.len() ==> #[trigger] sorted_desc(dfields(fields@)[j].1),
            forall|j: int| 0 <= j < i ==> (#[trigger] names@[j])@ == fields@[j].0@,
            forall|j: int| 0 <= j < i ==> vview(#[trigger] types@[j]) == encode_meta(dview(fields@[j].1)),
        decreases fields@.len() - i,
    {
        proof {
            assert(sorted_desc(dfields(fields@)[i as int].1));
        }
        let t = fields[i].1.to_value();
        names.push(fields[i].0.clone());
        types.push(t);
        i = i + 1;
    }
    (names, types)
}

/// The names and payload values of the variants of an enum type.
fn variant_values_of<F>(variants: &Vec<(String, Option<Box<TypeDescriptor>>)>) -> (r: (Vec<String>, Vec<Value<F>>))
    requires
        sorted_variants(dvariants(variants@)),
    ensures
        r.0@.len() == variants@.len(),
        r.1@.len() == variants@.len(),
        forall|j: int| 0 <= j < variants@.len() ==> (#[trigger] r.0@[j])@ == variants@[j].0@,
        forall|j: int| 0 <= j < variants@.len() ==> vview(#[trigger] r.1@[j]) == encode_payload(payload_view(variants@[j].1)),
    decreases variants,
{
    proof {
        crate::descriptor::lemma_dvariants(variants@);
        lemma_sorted_variants(dvariants(variants@));
    }
    let mut names: Vec<String> = Vec::new();
    let mut payloads: Vec<Value<F>> = Vec::new();
    let mut i: usize = 0;
    while i < variants.len()
        invariant
            i <= variants@.len(),
            names@.len() == i,
            payloads@.len() == i,
            dvariants(variants@).len() == variants@.len(),
            forall|j: int| 0 <= j < variants@.len() ==> #[trigger] dvariants(variants@)[j] == (variants@[j].0@, payload_view(variants@[j].1)),
            forall|j: int| 0 <= j < variants@.len() ==> (#[trigger] dvariants(variants@)[j]).1 is None || sorted_desc(dvariants(variants@)[j].1->Some_0),
            forall|j: int| 0 <= j < i ==> (#[trigger] names@[j])@ == variants@[j].0@,
            forall|j: int| 0 <= j < i ==> vview(#[trigger] payloads@[j]) == encode_payload(payload_view(variants@[j].1)),
        decreases variants@.len() - i,
    {
        proof {
            assert(dvariants(variants@)[i as int].1 is None || sorted_desc(dvariants(variants@)[i as int].1->Some_0));
        }
        let payload: Value<F> = match &variants[i].1 {
            None => Value::Atom(Atom::builtin(BuiltinAtom::NoneAtom)),
            Some(p) => p.to_value(),
        };
        names.push(variants[i].0.clone());
        payloads.push(payload);
        i = i + 1;
    }
    (names, payloads)
}

impl TypeDescriptor {
    /// The canonical metadata record of this type.
    pub fn to_value<F>(&self) -> (v: Value<F>)
        requires
            sorted_desc(dview(*self)),
        ensures
            vview(v) == encode_meta(dview(*self)),
        decreases self,
    {
        proof {
            lemma_metadata_names_in_order();
        }
        match self {
            TypeDescriptor::Any => simple_record("Any"),
            TypeDescriptor::Int => simple_record("Int"),
            TypeDescriptor::Float => simple_record("Float"),
            TypeDescriptor::String => simple_record("String"),
            TypeDescriptor::Bytes => simple_record("Bytes"),
            TypeDescriptor::Atom(tag) => {
                let tag_value: Value<F> = Value::Atom(copy_atom(tag));
                let values = vec![kind_value("Atom"), tag_value];
                proof {
                    lemma_vviews_two(values@[0], values@[1]);
                    assert(values@ =~= seq![values@[0], values@[1]]);
                }
                record(shape_two("kind", "tag"), values)
            },
            TypeDescriptor::Array(item) => {
                let inner = item.to_value();
                let values = vec![inner, kind_value("Array")];
                proof {
                    lemma_vviews_two(values@[0], values@[1]);
                    assert(values@ =~= seq![values@[0], values@[1]]);
                }
                record(shape_two("item", "kind"), values)
            },
            TypeDescriptor::Tuple(items) => {
                let inner: Value<F> = Value::Array(values_of(items));
                let values = vec![inner, kind_value("Tuple")];
                proof {
                    lemma_vviews_two(values@[0], values@[1]);
                    assert(values@ =~= seq![values@[0], values@[1]]);
                }
                record(shape_two("items", "kind"), values)
            },
            TypeDescriptor::Struct(fields) => {
                proof {
                    lemma_dfields(fields@);
                    lemma_sorted_fields(dfields(fields@));
                    lemma_encode_field_types(dfields(fields@));
                }
                let (names, types) = field_values_of::<F>(fields);
                proof {
                    assert forall|a: int, b: int| 0 <= a < b < names@.len() implies bytes_lt(
                        encode_utf8((#[trigger] names@[a])@),
                        encode_utf8((#[trigger] names@[b])@),
                    ) by {
                        assert(field_names(dfields(fields@))[a] == fields@[a].0@);
                        assert(field_names(dfields(fields@))[b] == fields@[b].0@);
                    }
                    lemma_vviews(types@);
                    assert(names_view(names@) =~= field_names(dfields(fields@)));
                    assert(vviews(types@) =~= encode_field_types(dfields(fields@)));
                }
                let inner = record(Shape::from_sorted_fields(names), types);
                let values = vec![inner, kind_value("Struct")];
                proof {
                    lemma_vviews_two(values@[0], values@[1]);
                    assert(values@ =~= seq![values@[0], values@[1]]);
                }
                record(shape_two("fields", "kind"), values)
            },
            TypeDescriptor::Enum(variants) => {
                proof {
                    crate::descriptor::lemma_dvariants(variants@);
                    lemma_sorted_variants(dvariants(variants@));
                    lemma_encode_payloads(dvariants(variants@));
                }
                let (names, payloads) = variant_values_of::<F>(variants);
                proof {
                    assert forall|a: int, b: int| 0 <= a < b < names@.len() implies bytes_lt(
                        encode_utf8((#[trigger] names@[a])@),
                        encode_utf8((#[trigger] names@[b])@),
                    ) by {
                        assert(variant_names(dvariants(variants@))[a] == variants@[a].0@);
                        assert(variant_names(dvariants(variants@))[b] == variants@[b].0@);
                    }
                    lemma_vviews(payloads@);
                    assert(names_view(names@) =~= variant_names(dvariants(variants@)));
                    assert(vviews(payloads@) =~= encode_payloads(dvariants(variants@)));
                }
                let inner = record(Shape::from_sorted_fields(names), payloads);
                let values = vec![kind_value("Enum"), inner];
                proof {
                    lemma_vviews_two(values@[0], values@[1]);
                    assert(values@ =~= seq![values@[0], values@[1]]);
                }
                record(shape_two("kind", "variants"), values)
            },
            TypeDescriptor::Union(items) => {
                let inner: Value<F> = Value::Array(values_of(items));
                let values = vec![kind_value("Union"), inner];
                proof {
                    lemma_vviews_two(values@[0], values@[1]);
                    assert(values@ =~= seq![values@[0], values@[1]]);
                }
                record(shape_two("kind", "variants"), values)
            },
            TypeDescriptor::Function { parameters, result } => {
                let parameter_values: Value<F> = Value::Array(values_of(parameters));
                let result_value = result.to_value();
                let values = vec![kind_value("Function"), parameter_values, result_value];
                proof {
                    lemma_vviews_three(values@[0], values@[1], values@[2]);
                    assert(values@ =~= seq![values@[0], values@[1], values@[2]]);
                }
                record(shape_three("kind", "parameters", "result"), values)
            },
        }
    }
}

/// Metadata round trip: reading back the metadata record of a type whose
/// enums and unions each have a member gives that type.
pub proof fn lemma_metadata_round_trip<F>(d: TypeDescriptor, v: Value<F>)
    requires
        canonical(dview(d)),
        vview(v) == encode_meta(dview(d)),
    ensures
        decode_meta(vview(v)) == Some(dview(d)),
{
    lemma_decode_encode(dview(d));
}

} // verus!

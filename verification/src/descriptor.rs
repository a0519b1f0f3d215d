//! Structural questions about type descriptors: equality, assignability,
//! where two types first disagree, and the small constructions that the
//! type checker builds on them.
//!
//! A descriptor is viewed as a [`DescView`], in which names are character
//! sequences. Struct fields and enum variants stay in the order of the
//! descriptor, which keeps them sorted by name, so that two views are equal
//! exactly when the two descriptors describe the same type.

use vstd::prelude::*;
use vstd::utf8::encode_utf8;
use crate::json::ValuePathSegment;
use crate::text::bytes_lt;
use crate::metadata::{
    lemma_sorted_all, lemma_sorted_fields, lemma_sorted_variants, names_in_byte_order, sorted_all, sorted_desc,
    sorted_fields, sorted_variants,
};
use crate::types::{comma, 
    atoms_equal, descriptor_fields, descriptor_name, descriptor_names, descriptor_variants, node_refs_below, show,
    show_fields, show_list, show_variants, TypeDescriptor, TypeGraph, TypeId, TypeNode,
};
use crate::value::{same_str, Atom, BuiltinAtom};

verus! {

/// An atom by its identity: a built-in atom, or a name.
pub enum AtomView {
    Builtin(BuiltinAtom),
    Named(Seq<char>),
}

pub open spec fn atom_view(a: Atom) -> AtomView {
    match a {
        Atom::Builtin(b) => AtomView::Builtin(b),
        Atom::Named(n) => AtomView::Named(n@),
    }
}

/// The mathematical content of a [`TypeDescriptor`].
pub enum DescView {
    Any,
    Int,
    Float,
    String,
    Bytes,
    Atom(AtomView),
    Array(Box<DescView>),
    Tuple(Seq<DescView>),
    Struct(Seq<(Seq<char>, DescView)>),
    Enum(Seq<(Seq<char>, Option<DescView>)>),
    Union(Seq<DescView>),
    Function(Seq<DescView>, Box<DescView>),
}

pub open spec fn dview(d: TypeDescriptor) -> DescView
    decreases d,
{
    match d {
        TypeDescriptor::Any => DescView::Any,
        TypeDescriptor::Int => DescView::Int,
        TypeDescriptor::Float => DescView::Float,
        TypeDescriptor::String => DescView::String,
        TypeDescriptor::Bytes => DescView::Bytes,
        TypeDescriptor::Atom(a) => DescView::Atom(atom_view(a)),
        TypeDescriptor::Array(item) => DescView::Array(Box::new(dview(*item))),
        TypeDescriptor::Tuple(items) => DescView::Tuple(dviews(items@)),
        TypeDescriptor::Struct(fields) => DescView::Struct(dfields(fields@)),
        TypeDescriptor::Enum(variants) => DescView::Enum(dvariants(variants@)),
        TypeDescriptor::Union(items) => DescView::Union(dviews(items@)),
        TypeDescriptor::Function { parameters, result } => DescView::Function(
            dviews(parameters@),
            Box::new(dview(*result)),
        ),
    }
}

pub open spec fn dviews(s: Seq<TypeDescriptor>) -> Seq<DescView>
    decreases s,
{
    if s.len() == 0 {
        Seq::empty()
    } else {
        seq![dview(s[0])] + dviews(s.subrange(1, s.len() as int))
    }
}

pub open spec fn dfields(s: Seq<(String, TypeDescriptor)>) -> Seq<(Seq<char>, DescView)>
    decreases s,
{
    if s.len() == 0 {
        Seq::empty()
    } else {
        seq![(s[0].0@, dview(s[0].1))] + dfields(s.subrange(1, s.len() as int))
    }
}

pub open spec fn dvariants(s: Seq<(String, Option<Box<TypeDescriptor>>)>) -> Seq<
    (Seq<char>, Option<DescView>),
>
    decreases s,
{
    if s.len() == 0 {
        Seq::empty()
    } else {
        let payload = match s[0].1 {
            None => None,
            Some(p) => Some(dview(*p)),
        };
        seq![(s[0].0@, payload)] + dvariants(s.subrange(1, s.len() as int))
    }
}

impl View for TypeDescriptor {
    type V = DescView;

    open spec fn view(&self) -> DescView {
        dview(*self)
    }
}

pub proof fn lemma_dviews(s: Seq<TypeDescriptor>)
    ensures
        dviews(s).len() == s.len(),
        forall|i: int| 0 <= i < s.len() ==> #[trigger] dviews(s)[i] == dview(s[i]),
    decreases s.len(),
{
    if s.len() > 0 {
        let rest = s.subrange(1, s.len() as int);
        lemma_dviews(rest);
        assert forall|i: int| 0 <= i < s.len() implies #[trigger] dviews(s)[i] == dview(s[i]) by {
            if i > 0 {
                assert(rest[i - 1] == s[i]);
            }
        }
    }
}

pub proof fn lemma_dfields(s: Seq<(String, TypeDescriptor)>)
    ensures
        dfields(s).len() == s.len(),
        forall|i: int|
            0 <= i < s.len() ==> #[trigger] dfields(s)[i] == (s[i].0@, dview(s[i].1)),
    decreases s.len(),
{
    if s.len() > 0 {
        let rest = s.subrange(1, s.len() as int);
        lemma_dfields(rest);
        assert forall|i: int| 0 <= i < s.len() implies #[trigger] dfields(s)[i] == (
            s[i].0@,
            dview(s[i].1),
        ) by {
            if i > 0 {
                assert(rest[i - 1] == s[i]);
            }
        }
    }
}

/// The view of an enum variant's payload.
pub open spec fn payload_view(p: Option<Box<TypeDescriptor>>) -> Option<DescView> {
    match p {
        None => None,
        Some(b) => Some(dview(*b)),
    }
}

pub proof fn lemma_dvariants(s: Seq<(String, Option<Box<TypeDescriptor>>)>)
    ensures
        dvariants(s).len() == s.len(),
        forall|i: int|
            0 <= i < s.len() ==> #[trigger] dvariants(s)[i] == (s[i].0@, payload_view(s[i].1)),
    decreases s.len(),
{
    if s.len() > 0 {
        let rest = s.subrange(1, s.len() as int);
        lemma_dvariants(rest);
        assert forall|i: int| 0 <= i < s.len() implies #[trigger] dvariants(s)[i] == (
            s[i].0@,
            payload_view(s[i].1),
        ) by {
            if i > 0 {
                assert(rest[i - 1] == s[i]);
            }
        }
    }
}

// ---------------------------------------------------------------------------
// Size, for termination.

/// A size of a view that bounds the recursion of the structural questions:
/// an enum variant weighs more than the type that stands for it.
pub open spec fn rank(d: DescView) -> nat
    decreases d,
{
    match d {
        DescView::Array(item) => 1 + rank(*item),
        DescView::Tuple(items) => 1 + rank_seq(items),
        DescView::Struct(fields) => 1 + rank_fields(fields),
        DescView::Enum(variants) => 1 + rank_variants(variants),
        DescView::Union(items) => 1 + rank_seq(items),
        DescView::Function(parameters, result) => 1 + rank_seq(parameters) + rank(*result),
        _ => 1,
    }
}

pub open spec fn rank_seq(s: Seq<DescView>) -> nat
    decreases s,
{
    if s.len() == 0 {
        0
    } else {
        rank(s[0]) + rank_seq(s.subrange(1, s.len() as int))
    }
}

pub open spec fn rank_fields(s: Seq<(Seq<char>, DescView)>) -> nat
    decreases s,
{
    if s.len() == 0 {
        0
    } else {
        rank(s[0].1) + rank_fields(s.subrange(1, s.len() as int))
    }
}

pub open spec fn rank_variants(s: Seq<(Seq<char>, Option<DescView>)>) -> nat
    decreases s,
{
    if s.len() == 0 {
        0
    } else {
        let own: nat = match s[0].1 {
            None => 2,
            Some(p) => 3 + rank(p),
        };
        own + rank_variants(s.subrange(1, s.len() as int))
    }
}

pub proof fn lemma_rank_seq(s: Seq<DescView>, i: int)
    requires
        0 <= i < s.len(),
    ensures
        1 <= rank(s[i]) <= rank_seq(s),
    decreases i,
{
    if i > 0 {
        lemma_rank_seq(s.subrange(1, s.len() as int), i - 1);
    }
}

pub proof fn lemma_rank_fields(s: Seq<(Seq<char>, DescView)>, i: int)
    requires
        0 <= i < s.len(),
    ensures
        1 <= rank(s[i].1) <= rank_fields(s),
    decreases i,
{
    if i > 0 {
        lemma_rank_fields(s.subrange(1, s.len() as int), i - 1);
    }
}

pub proof fn lemma_rank_variants(s: Seq<(Seq<char>, Option<DescView>)>, i: int)
    requires
        0 <= i < s.len(),
    ensures
        2 <= rank_variants(s),
        s[i].1 is Some ==> 3 + rank(s[i].1->Some_0) <= rank_variants(s),
    decreases i,
{
    if i > 0 {
        lemma_rank_variants(s.subrange(1, s.len() as int), i - 1);
    }
}

// ---------------------------------------------------------------------------
// Enum variants as types.

/// The atom that a name denotes: one of the built-in atoms, or a named one.
pub open spec fn atom_view_of_name(name: Seq<char>) -> AtomView {
    if name == "None"@ {
        AtomView::Builtin(BuiltinAtom::NoneAtom)
    } else if name == "Some"@ {
        AtomView::Builtin(BuiltinAtom::SomeAtom)
    } else if name == "Ok"@ {
        AtomView::Builtin(BuiltinAtom::OkAtom)
    } else if name == "Err"@ {
        AtomView::Builtin(BuiltinAtom::ErrAtom)
    } else if name == "True"@ {
        AtomView::Builtin(BuiltinAtom::True)
    } else if name == "False"@ {
        AtomView::Builtin(BuiltinAtom::False)
    } else {
        AtomView::Named(name)
    }
}

/// The type of an enum variant's values: its tag atom, or the pair of its
/// tag and its payload.
pub open spec fn variant_type(name: Seq<char>, payload: Option<DescView>) -> DescView {
    let tag = DescView::Atom(atom_view_of_name(name));
    match payload {
        None => tag,
        Some(p) => DescView::Tuple(seq![tag, p]),
    }
}

pub proof fn lemma_variant_type_rank(name: Seq<char>, payload: Option<DescView>)
    ensures
        payload is None ==> rank(variant_type(name, payload)) + 1 == 2,
        payload is Some ==> rank(variant_type(name, payload)) + 1 == 3 + rank(payload->Some_0),
{
    if let Some(p) = payload {
        let tag = DescView::Atom(atom_view_of_name(name));
        let s = seq![tag, p];
        let one = seq![p];
        let none = Seq::<DescView>::empty();
        assert(s.subrange(1, 2) =~= one);
        assert(one.subrange(1, 1) =~= none);
        assert(rank_seq(none) == 0);
        assert(one[0] == p);
        assert(rank_seq(one) == rank(p) + rank_seq(one.subrange(1, 1)));
        assert(rank_seq(one) == rank(p));
        assert(s[0] == tag);
        assert(rank(tag) == 1);
        assert(rank_seq(s) == rank(tag) + rank_seq(s.subrange(1, 2)));
        assert(rank_seq(s) == 1 + rank(p));
    }
}

// ---------------------------------------------------------------------------
// Assignability.

/// The index of the first field named `name`.
pub open spec fn field_position(fields: Seq<(Seq<char>, DescView)>, name: Seq<char>) -> Option<int>
    decreases fields.len(),
{
    if fields.len() == 0 {
        None
    } else if fields[0].0 == name {
        Some(0)
    } else {
        match field_position(fields.subrange(1, fields.len() as int), name) {
            None => None,
            Some(i) => Some(i + 1),
        }
    }
}

/// The index of the first variant named `name`.
pub open spec fn variant_position(variants: Seq<(Seq<char>, Option<DescView>)>, name: Seq<char>) -> Option<int>
    decreases variants.len(),
{
    if variants.len() == 0 {
        None
    } else if variants[0].0 == name {
        Some(0)
    } else {
        match variant_position(variants.subrange(1, variants.len() as int), name) {
            None => None,
            Some(i) => Some(i + 1),
        }
    }
}

pub proof fn lemma_field_position(fields: Seq<(Seq<char>, DescView)>, name: Seq<char>)
    ensures
        field_position(fields, name) matches Some(i) ==> 0 <= i < fields.len() && fields[i].0 == name,
        field_position(fields, name) is None ==> forall|k: int| 0 <= k < fields.len() ==> #[trigger] fields[k].0 != name,
    decreases fields.len(),
{
    if fields.len() > 0 {
        let rest = fields.subrange(1, fields.len() as int);
        lemma_field_position(rest, name);
        if field_position(fields, name) is None {
            assert forall|k: int| 0 <= k < fields.len() implies #[trigger] fields[k].0 != name by {
                if k > 0 {
                    assert(rest[k - 1] == fields[k]);
                }
            }
        }
    }
}

pub proof fn lemma_variant_position(variants: Seq<(Seq<char>, Option<DescView>)>, name: Seq<char>)
    ensures
        variant_position(variants, name) matches Some(i) ==> 0 <= i < variants.len() && variants[i].0 == name,
        variant_position(variants, name) is None ==> forall|k: int| 0 <= k < variants.len() ==> #[trigger] variants[k].0 != name,
    decreases variants.len(),
{
    if variants.len() > 0 {
        let rest = variants.subrange(1, variants.len() as int);
        lemma_variant_position(rest, name);
        if variant_position(variants, name) is None {
            assert forall|k: int| 0 <= k < variants.len() implies #[trigger] variants[k].0 != name by {
                if k > 0 {
                    assert(rest[k - 1] == variants[k]);
                }
            }
        }
    }
}

/// Whether values of type `a` may stand where type `e` is expected. `Any`
/// fits both ways. Two enums fit when they have the same variants with
/// fitting payloads; a union fits an enum when each member does; a type
/// fits an enum when it fits one of its variant types, and an enum fits a
/// type when each of its variant types does. A type fits a union when it
/// fits one member, and a union fits a type when each member does. Arrays,
/// tuples, structs and functions fit part by part; anything else fits only
/// an equal type.
pub open spec fn assignable_view(a: DescView, e: DescView) -> bool
    decreases rank(a) + rank(e), 0nat,
{
    match (a, e) {
        (DescView::Any, _) => true,
        (_, DescView::Any) => true,
        (DescView::Enum(xs), DescView::Enum(ys)) => xs.len() == ys.len() && variants_fit(xs, ys),
        (DescView::Union(xs), DescView::Enum(_)) => all_fit(xs, e),
        (_, DescView::Enum(ys)) => fits_some_variant(a, ys),
        (DescView::Enum(xs), _) => all_variants_fit(xs, e),
        (_, DescView::Union(ys)) => fits_some(a, ys),
        (DescView::Union(xs), _) => all_fit(xs, e),
        (DescView::Array(x), DescView::Array(y)) => assignable_view(*x, *y),
        (DescView::Tuple(xs), DescView::Tuple(ys)) => xs.len() == ys.len() && zip_fit(xs, ys),
        (DescView::Struct(xs), DescView::Struct(ys)) => xs.len() == ys.len() && fields_fit(xs, ys),
        (DescView::Function(ap, ar), DescView::Function(ep, er)) => ap.len() == ep.len() && zip_fit(
            ap,
            ep,
        ) && assignable_view(*ar, *er),
        _ => a == e,
    }
}

/// Every member of `xs` fits `e`.
pub open spec fn all_fit(xs: Seq<DescView>, e: DescView) -> bool
    decreases rank_seq(xs) + rank(e), 1nat,
{
    if xs.len() == 0 {
        true
    } else {
        proof {
            lemma_rank_seq(xs, 0);
        }
        assignable_view(xs[0], e) && all_fit(xs.subrange(1, xs.len() as int), e)
    }
}

/// `a` fits some member of `ys`.
pub open spec fn fits_some(a: DescView, ys: Seq<DescView>) -> bool
    decreases rank(a) + rank_seq(ys), 1nat,
{
    if ys.len() == 0 {
        false
    } else {
        proof {
            lemma_rank_seq(ys, 0);
        }
        assignable_view(a, ys[0]) || fits_some(a, ys.subrange(1, ys.len() as int))
    }
}

/// `xs[i]` fits `ys[i]` for each `i` of both.
pub open spec fn zip_fit(xs: Seq<DescView>, ys: Seq<DescView>) -> bool
    decreases rank_seq(xs) + rank_seq(ys), 1nat,
{
    if xs.len() == 0 || ys.len() == 0 {
        true
    } else {
        proof {
            lemma_rank_seq(xs, 0);
            lemma_rank_seq(ys, 0);
        }
        assignable_view(xs[0], ys[0]) && zip_fit(
            xs.subrange(1, xs.len() as int),
            ys.subrange(1, ys.len() as int),
        )
    }
}

/// Each expected field has an actual field of its name that fits it.
pub open spec fn fields_fit(actual: Seq<(Seq<char>, DescView)>, expected: Seq<(Seq<char>, DescView)>) -> bool
    decreases rank_fields(actual) + rank_fields(expected), 1nat,
{
    if expected.len() == 0 {
        true
    } else {
        match field_position(actual, expected[0].0) {
            None => false,
            Some(i) => {
                proof {
                    lemma_field_position(actual, expected[0].0);
                    lemma_rank_fields(actual, i);
                    lemma_rank_fields(expected, 0);
                }
                assignable_view(actual[i].1, expected[0].1) && fields_fit(
                    actual,
                    expected.subrange(1, expected.len() as int),
                )
            },
        }
    }
}

/// Each expected variant has an actual variant of its name, both without
/// payload or with fitting payloads.
pub open spec fn variants_fit(
    actual: Seq<(Seq<char>, Option<DescView>)>,
    expected: Seq<(Seq<char>, Option<DescView>)>,
) -> bool
    decreases rank_variants(actual) + rank_variants(expected), 1nat,
{
    if expected.len() == 0 {
        true
    } else {
        let rest = expected.subrange(1, expected.len() as int);
        match variant_position(actual, expected[0].0) {
            None => false,
            Some(i) => {
                proof {
                    lemma_variant_position(actual, expected[0].0);
                    lemma_rank_variants(actual, i);
                    lemma_rank_variants(expected, 0);
                }
                match (actual[i].1, expected[0].1) {
                    (None, None) => variants_fit(actual, rest),
                    (Some(x), Some(y)) => assignable_view(x, y) && variants_fit(actual, rest),
                    _ => false,
                }
            },
        }
    }
}

/// `a` fits the type of some variant of `ys`.
pub open spec fn fits_some_variant(a: DescView, ys: Seq<(Seq<char>, Option<DescView>)>) -> bool
    decreases rank(a) + rank_variants(ys), 1nat,
{
    if ys.len() == 0 {
        false
    } else {
        proof {
            lemma_rank_variants(ys, 0);
            lemma_variant_type_rank(ys[0].0, ys[0].1);
        }
        assignable_view(a, variant_type(ys[0].0, ys[0].1)) || fits_some_variant(
            a,
            ys.subrange(1, ys.len() as int),
        )
    }
}

/// The type of every variant of `xs` fits `e`.
pub open spec fn all_variants_fit(xs: Seq<(Seq<char>, Option<DescView>)>, e: DescView) -> bool
    decreases rank_variants(xs) + rank(e), 1nat,
{
    if xs.len() == 0 {
        true
    } else {
        proof {
            lemma_rank_variants(xs, 0);
            lemma_variant_type_rank(xs[0].0, xs[0].1);
        }
        assignable_view(variant_type(xs[0].0, xs[0].1), e) && all_variants_fit(
            xs.subrange(1, xs.len() as int),
            e,
        )
    }
}

// ---------------------------------------------------------------------------
// Copies and equality.

/// A copy of an atom.
pub fn copy_atom(a: &Atom) -> (c: Atom)
    ensures
        atom_view(c) == atom_view(*a),
{
    match a {
        Atom::Builtin(b) => Atom::Builtin(*b),
        Atom::Named(n) => Atom::Named(n.clone()),
    }
}

/// `true` when the two atoms are the same atom.
pub fn same_atom(p: &Atom, q: &Atom) -> (b: bool)
    ensures
        b == (atom_view(*p) == atom_view(*q)),
{
    atoms_equal(p, q)
}

impl TypeDescriptor {
    /// A copy of the descriptor.
    pub fn copy(&self) -> (c: TypeDescriptor)
        ensures
            c@ == self@,
        decreases self, 0int,
    {
        match self {
            TypeDescriptor::Any => TypeDescriptor::Any,
            TypeDescriptor::Int => TypeDescriptor::Int,
            TypeDescriptor::Float => TypeDescriptor::Float,
            TypeDescriptor::String => TypeDescriptor::String,
            TypeDescriptor::Bytes => TypeDescriptor::Bytes,
            TypeDescriptor::Atom(a) => TypeDescriptor::Atom(copy_atom(a)),
            TypeDescriptor::Array(item) => {
                let c = (**item).copy();
                TypeDescriptor::Array(Box::new(c))
            },
            TypeDescriptor::Tuple(items) => TypeDescriptor::Tuple(Self::copy_items(items)),
            TypeDescriptor::Struct(fields) => TypeDescriptor::Struct(Self::copy_fields(fields)),
            TypeDescriptor::Enum(variants) => TypeDescriptor::Enum(Self::copy_variants(variants)),
            TypeDescriptor::Union(items) => TypeDescriptor::Union(Self::copy_items(items)),
            TypeDescriptor::Function { parameters, result } => {
                let ps = Self::copy_items(parameters);
                let r = (**result).copy();
                TypeDescriptor::Function { parameters: ps, result: Box::new(r) }
            },
        }
    }

    fn copy_items(items: &Vec<TypeDescriptor>) -> (c: Vec<TypeDescriptor>)
        ensures
            dviews(c@) == dviews(items@),
        decreases items, 1int,
    {
        let mut c: Vec<TypeDescriptor> = Vec::new();
        let mut i: usize = 0;
        while i < items.len()
            invariant
                i <= items@.len(),
                c@.len() == i,
                forall|k: int| 0 <= k < i ==> (#[trigger] c@[k])@ == items@[k]@,
            decreases items@.len() - i,
        {
            let x = items[i].copy();
            c.push(x);
            i = i + 1;
        }
        proof {
            lemma_dviews(c@);
            lemma_dviews(items@);
            assert(dviews(c@) =~= dviews(items@));
        }
        c
    }

    fn copy_fields(fields: &Vec<(String, TypeDescriptor)>) -> (c: Vec<(String, TypeDescriptor)>)
        ensures
            dfields(c@) == dfields(fields@),
        decreases fields, 1int,
    {
        let mut c: Vec<(String, TypeDescriptor)> = Vec::new();
        let mut i: usize = 0;
        while i < fields.len()
            invariant
                i <= fields@.len(),
                c@.len() == i,
                forall|k: int|
                    0 <= k < i ==> (#[trigger] c@[k]).0@ == fields@[k].0@ && c@[k].1@
                        == fields@[k].1@,
            decreases fields@.len() - i,
        {
            let name = fields[i].0.clone();
            let x = fields[i].1.copy();
            c.push((name, x));
            i = i + 1;
        }
        proof {
            lemma_dfields(c@);
            lemma_dfields(fields@);
            assert(dfields(c@) =~= dfields(fields@));
        }
        c
    }

    fn copy_variants(variants: &Vec<(String, Option<Box<TypeDescriptor>>)>) -> (c: Vec<
        (String, Option<Box<TypeDescriptor>>),
    >)
        ensures
            dvariants(c@) == dvariants(variants@),
        decreases variants, 1int,
    {
        let mut c: Vec<(String, Option<Box<TypeDescriptor>>)> = Vec::new();
        let mut i: usize = 0;
        while i < variants.len()
            invariant
                i <= variants@.len(),
                c@.len() == i,
                forall|k: int|
                    0 <= k < i ==> (#[trigger] c@[k]).0@ == variants@[k].0@ && payload_view(
                        c@[k].1,
                    ) == payload_view(variants@[k].1),
            decreases variants@.len() - i,
        {
            let name = variants[i].0.clone();
            let payload = match &variants[i].1 {
                None => None,
                Some(p) => {
                    let x = (**p).copy();
                    Some(Box::new(x))
                },
            };
            c.push((name, payload));
            i = i + 1;
        }
        proof {
            lemma_dvariants(c@);
            lemma_dvariants(variants@);
            assert(dvariants(c@) =~= dvariants(variants@));
        }
        c
    }

    /// `true` when the two descriptors describe the same type.
    pub fn same(&self, other: &TypeDescriptor) -> (b: bool)
        ensures
            b == (self@ == other@),
        decreases self, 0int,
    {
        match (self, other) {
            (TypeDescriptor::Any, TypeDescriptor::Any) => true,
            (TypeDescriptor::Int, TypeDescriptor::Int) => true,
            (TypeDescriptor::Float, TypeDescriptor::Float) => true,
            (TypeDescriptor::String, TypeDescriptor::String) => true,
            (TypeDescriptor::Bytes, TypeDescriptor::Bytes) => true,
            (TypeDescriptor::Atom(x), TypeDescriptor::Atom(y)) => same_atom(x, y),
            (TypeDescriptor::Array(x), TypeDescriptor::Array(y)) => (**x).same(&**y),
            (TypeDescriptor::Tuple(xs), TypeDescriptor::Tuple(ys)) => Self::same_items(xs, ys),
            (TypeDescriptor::Struct(xs), TypeDescriptor::Struct(ys)) => Self::same_fields(xs, ys),
            (TypeDescriptor::Enum(xs), TypeDescriptor::Enum(ys)) => Self::same_variants(xs, ys),
            (TypeDescriptor::Union(xs), TypeDescriptor::Union(ys)) => Self::same_items(xs, ys),
            (
                TypeDescriptor::Function { parameters: xp, result: xr },
                TypeDescriptor::Function { parameters: yp, result: yr },
            ) => {
                if !Self::same_items(xp, yp) {
                    false
                } else {
                    (**xr).same(&**yr)
                }
            },
            _ => false,
        }
    }

    fn same_items(xs: &Vec<TypeDescriptor>, ys: &Vec<TypeDescriptor>) -> (b: bool)
        ensures
            b == (dviews(xs@) == dviews(ys@)),
        decreases xs, 1int,
    {
        proof {
            lemma_dviews(xs@);
            lemma_dviews(ys@);
        }
        if xs.len() != ys.len() {
            return false;
        }
        let mut i: usize = 0;
        while i < xs.len()
            invariant
                i <= xs@.len(),
                xs@.len() == ys@.len(),
                dviews(xs@).len() == xs@.len(),
                dviews(ys@).len() == ys@.len(),
                forall|k: int| 0 <= k < xs@.len() ==> #[trigger] dviews(xs@)[k] == dview(xs@[k]),
                forall|k: int| 0 <= k < ys@.len() ==> #[trigger] dviews(ys@)[k] == dview(ys@[k]),
                forall|k: int| 0 <= k < i ==> dview(#[trigger] xs@[k]) == dview(ys@[k]),
            decreases xs@.len() - i,
        {
            if !xs[i].same(&ys[i]) {
                proof {
                    assert(dviews(xs@)[i as int] != dviews(ys@)[i as int]);
                }
                return false;
            }
            i = i + 1;
        }
        proof {
            assert(dviews(xs@) =~= dviews(ys@));
        }
        true
    }

    fn same_fields(xs: &Vec<(String, TypeDescriptor)>, ys: &Vec<(String, TypeDescriptor)>) -> (b: bool)
        ensures
            b == (dfields(xs@) == dfields(ys@)),
        decreases xs, 1int,
    {
        proof {
            lemma_dfields(xs@);
            lemma_dfields(ys@);
        }
        if xs.len() != ys.len() {
            return false;
        }
        let mut i: usize = 0;
        while i < xs.len()
            invariant
                i <= xs@.len(),
                xs@.len() == ys@.len(),
                dfields(xs@).len() == xs@.len(),
                dfields(ys@).len() == ys@.len(),
                forall|k: int|
                    0 <= k < xs@.len() ==> #[trigger] dfields(xs@)[k] == (xs@[k].0@, dview(xs@[k].1)),
                forall|k: int|
                    0 <= k < ys@.len() ==> #[trigger] dfields(ys@)[k] == (ys@[k].0@, dview(ys@[k].1)),
                forall|k: int| 0 <= k < i ==> #[trigger] dfields(xs@)[k] == dfields(ys@)[k],
            decreases xs@.len() - i,
        {
            if !same_str(xs[i].0.as_str(), ys[i].0.as_str()) {
                proof {
                    assert(dfields(xs@)[i as int] != dfields(ys@)[i as int]);
                }
                return false;
            }
            if !xs[i].1.same(&ys[i].1) {
                proof {
                    assert(dfields(xs@)[i as int] != dfields(ys@)[i as int]);
                }
                return false;
            }
            proof {
                assert(dfields(xs@)[i as int] == dfields(ys@)[i as int]);
            }
            i = i + 1;
        }
        proof {
            assert(dfields(xs@) =~= dfields(ys@));
        }
        true
    }

    fn same_variants(
        xs: &Vec<(String, Option<Box<TypeDescriptor>>)>,
        ys: &Vec<(String, Option<Box<TypeDescriptor>>)>,
    ) -> (b: bool)
        ensures
            b == (dvariants(xs@) == dvariants(ys@)),
        decreases xs, 1int,
    {
        proof {
            lemma_dvariants(xs@);
            lemma_dvariants(ys@);
        }
        if xs.len() != ys.len() {
            return false;
        }
        let mut i: usize = 0;
        while i < xs.len()
            invariant
                i <= xs@.len(),
                xs@.len() == ys@.len(),
                dvariants(xs@).len() == xs@.len(),
                dvariants(ys@).len() == ys@.len(),
                forall|k: int|
                    0 <= k < xs@.len() ==> #[trigger] dvariants(xs@)[k] == (
                        xs@[k].0@,
                        payload_view(xs@[k].1),
                    ),
                forall|k: int|
                    0 <= k < ys@.len() ==> #[trigger] dvariants(ys@)[k] == (
                        ys@[k].0@,
                        payload_view(ys@[k].1),
                    ),
                forall|k: int| 0 <= k < i ==> #[trigger] dvariants(xs@)[k] == dvariants(ys@)[k],
            decreases xs@.len() - i,
        {
            if !same_str(xs[i].0.as_str(), ys[i].0.as_str()) {
                proof {
                    assert(dvariants(xs@)[i as int] != dvariants(ys@)[i as int]);
                }
                return false;
            }
            let same_payload = match (&xs[i].1, &ys[i].1) {
                (None, None) => true,
                (Some(p), Some(q)) => (**p).same(&**q),
                _ => false,
            };
            if !same_payload {
                proof {
                    assert(dvariants(xs@)[i as int] != dvariants(ys@)[i as int]);
                }
                return false;
            }
            proof {
                assert(dvariants(xs@)[i as int] == dvariants(ys@)[i as int]);
            }
            i = i + 1;
        }
        proof {
            assert(dvariants(xs@) =~= dvariants(ys@));
        }
        true
    }
}

// ---------------------------------------------------------------------------
// Enum variants, executable.

/// The atom that `name` denotes: `'None`, `'Some`, `'Ok`, `'Err`, `'True`
/// and `'False` are the built-in atoms, any other name a named one.
pub fn atom_from_name(name: &str) -> (a: Atom)
    ensures
        atom_view(a) == atom_view_of_name(name@),
{
    proof {
        reveal_strlit("None");
        reveal_strlit("Some");
        reveal_strlit("Ok");
        reveal_strlit("Err");
        reveal_strlit("True");
        reveal_strlit("False");
    }
    if same_str(name, "None") {
        Atom::builtin(BuiltinAtom::NoneAtom)
    } else if same_str(name, "Some") {
        Atom::builtin(BuiltinAtom::SomeAtom)
    } else if same_str(name, "Ok") {
        Atom::builtin(BuiltinAtom::OkAtom)
    } else if same_str(name, "Err") {
        Atom::builtin(BuiltinAtom::ErrAtom)
    } else if same_str(name, "True") {
        Atom::builtin(BuiltinAtom::True)
    } else if same_str(name, "False") {
        Atom::builtin(BuiltinAtom::False)
    } else {
        Atom::named(name)
    }
}

/// The view of an optional payload reference.
pub open spec fn opt_view(p: Option<&TypeDescriptor>) -> Option<DescView> {
    match p {
        None => None,
        Some(d) => Some(d@),
    }
}

/// The type of the values of the variant `name` with `payload`: its tag
/// atom, or the pair of its tag and payload.
pub fn enum_variant_type(name: &str, payload: Option<&TypeDescriptor>) -> (d: TypeDescriptor)
    ensures
        d@ == variant_type(name@, opt_view(payload)),
{
    let tag = TypeDescriptor::Atom(atom_from_name(name));
    match payload {
        None => tag,
        Some(p) => {
            let mut items: Vec<TypeDescriptor> = Vec::new();
            items.push(tag);
            items.push(p.copy());
            proof {
                lemma_dviews(items@);
                assert(dviews(items@) =~= seq![items@[0]@, items@[1]@]);
            }
            TypeDescriptor::Tuple(items)
        },
    }
}

/// The payload of a variant as a reference.
fn payload_ref(p: &Option<Box<TypeDescriptor>>) -> (r: Option<&TypeDescriptor>)
    ensures
        opt_view(r) == payload_view(*p),
{
    match p {
        None => None,
        Some(b) => Some(&**b),
    }
}

// ---------------------------------------------------------------------------
// Assignability, executable.

/// Whether values of type `actual` may stand where `expected` is expected,
/// as [`assignable_view`] says.
pub fn assignable(actual: &TypeDescriptor, expected: &TypeDescriptor) -> (b: bool)
    ensures
        b == assignable_view(actual@, expected@),
    decreases rank(actual@) + rank(expected@), 0nat,
{
    proof {
        reveal_with_fuel(assignable_view, 1);
    }
    match (actual, expected) {
        (TypeDescriptor::Any, _) => true,
        (_, TypeDescriptor::Any) => true,
        (TypeDescriptor::Enum(xs), TypeDescriptor::Enum(ys)) => {
            proof {
                lemma_dvariants(xs@);
                lemma_dvariants(ys@);
            }
            xs.len() == ys.len() && variants_fit_exec(xs, ys)
        },
        (TypeDescriptor::Union(xs), TypeDescriptor::Enum(_)) => all_fit_exec(xs, expected),
        (_, TypeDescriptor::Enum(ys)) => fits_some_variant_exec(actual, ys),
        (TypeDescriptor::Enum(xs), _) => all_variants_fit_exec(xs, expected),
        (_, TypeDescriptor::Union(ys)) => fits_some_exec(actual, ys),
        (TypeDescriptor::Union(xs), _) => all_fit_exec(xs, expected),
        (TypeDescriptor::Array(x), TypeDescriptor::Array(y)) => assignable(&**x, &**y),
        (TypeDescriptor::Tuple(xs), TypeDescriptor::Tuple(ys)) => {
            proof {
                lemma_dviews(xs@);
                lemma_dviews(ys@);
            }
            xs.len() == ys.len() && zip_fit_exec(xs, ys)
        },
        (TypeDescriptor::Struct(xs), TypeDescriptor::Struct(ys)) => {
            proof {
                lemma_dfields(xs@);
                lemma_dfields(ys@);
            }
            xs.len() == ys.len() && fields_fit_exec(xs, ys)
        },
        (
            TypeDescriptor::Function { parameters: ap, result: ar },
            TypeDescriptor::Function { parameters: ep, result: er },
        ) => {
            proof {
                lemma_dviews(ap@);
                lemma_dviews(ep@);
            }
            ap.len() == ep.len() && zip_fit_exec(ap, ep) && assignable(&**ar, &**er)
        },
        _ => actual.same(expected),
    }
}

fn all_fit_exec(xs: &Vec<TypeDescriptor>, e: &TypeDescriptor) -> (b: bool)
    ensures
        b == all_fit(dviews(xs@), e@),
    decreases rank_seq(dviews(xs@)) + rank(e@), 1nat,
{
    let ghost s = dviews(xs@);
    proof {
        lemma_dviews(xs@);
    }
    proof {
        assert(s.subrange(0, s.len() as int) =~= s);
    }
    let mut i: usize = 0;
    while i < xs.len()
        invariant
            i <= xs@.len(),
            s == dviews(xs@),
            s.len() == xs@.len(),
            forall|k: int| 0 <= k < xs@.len() ==> #[trigger] s[k] == xs@[k]@,
            all_fit(s, e@) == all_fit(s.subrange(i as int, s.len() as int), e@),
        decreases xs@.len() - i,
    {
        let ghost rest = s.subrange(i as int, s.len() as int);
        proof {
            lemma_rank_seq(s, i as int);
            assert(rest[0] == s[i as int]);
            assert(rest.subrange(1, rest.len() as int) =~= s.subrange(i + 1, s.len() as int));
        }
        if !assignable(&xs[i], e) {
            return false;
        }
        i = i + 1;
    }
    proof {
        assert(s.subrange(i as int, s.len() as int) =~= Seq::<DescView>::empty());
    }
    true
}

fn fits_some_exec(a: &TypeDescriptor, ys: &Vec<TypeDescriptor>) -> (b: bool)
    ensures
        b == fits_some(a@, dviews(ys@)),
    decreases rank(a@) + rank_seq(dviews(ys@)), 1nat,
{
    let ghost s = dviews(ys@);
    proof {
        lemma_dviews(ys@);
    }
    proof {
        assert(s.subrange(0, s.len() as int) =~= s);
    }
    let mut i: usize = 0;
    while i < ys.len()
        invariant
            i <= ys@.len(),
            s == dviews(ys@),
            s.len() == ys@.len(),
            forall|k: int| 0 <= k < ys@.len() ==> #[trigger] s[k] == ys@[k]@,
            fits_some(a@, s) == fits_some(a@, s.subrange(i as int, s.len() as int)),
        decreases ys@.len() - i,
    {
        let ghost rest = s.subrange(i as int, s.len() as int);
        proof {
            lemma_rank_seq(s, i as int);
            assert(rest[0] == s[i as int]);
            assert(rest.subrange(1, rest.len() as int) =~= s.subrange(i + 1, s.len() as int));
        }
        if assignable(a, &ys[i]) {
            return true;
        }
        i = i + 1;
    }
    proof {
        assert(s.subrange(i as int, s.len() as int) =~= Seq::<DescView>::empty());
    }
    false
}

fn zip_fit_exec(xs: &Vec<TypeDescriptor>, ys: &Vec<TypeDescriptor>) -> (b: bool)
    requires
        xs@.len() == ys@.len(),
    ensures
        b == zip_fit(dviews(xs@), dviews(ys@)),
    decreases rank_seq(dviews(xs@)) + rank_seq(dviews(ys@)), 1nat,
{
    let ghost s = dviews(xs@);
    let ghost t = dviews(ys@);
    proof {
        lemma_dviews(xs@);
        lemma_dviews(ys@);
    }
    proof {
        assert(s.subrange(0, s.len() as int) =~= s);
        assert(t.subrange(0, t.len() as int) =~= t);
    }
    let mut i: usize = 0;
    while i < xs.len()
        invariant
            i <= xs@.len(),
            xs@.len() == ys@.len(),
            s == dviews(xs@),
            t == dviews(ys@),
            s.len() == xs@.len(),
            t.len() == ys@.len(),
            forall|k: int| 0 <= k < xs@.len() ==> #[trigger] s[k] == xs@[k]@,
            forall|k: int| 0 <= k < ys@.len() ==> #[trigger] t[k] == ys@[k]@,
            zip_fit(s, t) == zip_fit(
                s.subrange(i as int, s.len() as int),
                t.subrange(i as int, t.len() as int),
            ),
        decreases xs@.len() - i,
    {
        let ghost rs = s.subrange(i as int, s.len() as int);
        let ghost rt = t.subrange(i as int, t.len() as int);
        proof {
            lemma_rank_seq(s, i as int);
            lemma_rank_seq(t, i as int);
            assert(rs[0] == s[i as int]);
            assert(rt[0] == t[i as int]);
            assert(rs.subrange(1, rs.len() as int) =~= s.subrange(i + 1, s.len() as int));
            assert(rt.subrange(1, rt.len() as int) =~= t.subrange(i + 1, t.len() as int));
        }
        if !assignable(&xs[i], &ys[i]) {
            return false;
        }
        i = i + 1;
    }
    proof {
        assert(s.subrange(i as int, s.len() as int) =~= Seq::<DescView>::empty());
    }
    true
}

/// The index of the first field named `name`.
fn find_field_index(fields: &Vec<(String, TypeDescriptor)>, name: &String) -> (r: Option<usize>)
    ensures
        match field_position(dfields(fields@), name@) {
            None => r is None,
            Some(i) => r matches Some(k) && k as int == i,
        },
{
    let ghost s = dfields(fields@);
    proof {
        lemma_dfields(fields@);
    }
    proof {
        assert(s.subrange(0, s.len() as int) =~= s);
    }
    let mut i: usize = 0;
    while i < fields.len()
        invariant
            i <= fields@.len(),
            s == dfields(fields@),
            s.len() == fields@.len(),
            forall|k: int| 0 <= k < fields@.len() ==> #[trigger] s[k] == (fields@[k].0@, fields@[k].1@),
            field_position(s.subrange(i as int, s.len() as int), name@) matches Some(j) ==> field_position(s, name@) == Some(j + i),
            field_position(s.subrange(i as int, s.len() as int), name@) is None ==> field_position(s, name@) is None,
        decreases fields@.len() - i,
    {
        let ghost rest = s.subrange(i as int, s.len() as int);
        proof {
            assert(rest[0] == s[i as int]);
            assert(rest.subrange(1, rest.len() as int) =~= s.subrange(i + 1, s.len() as int));
        }
        if same_str(fields[i].0.as_str(), name.as_str()) {
            return Some(i);
        }
        i = i + 1;
    }
    proof {
        assert(s.subrange(i as int, s.len() as int) =~= Seq::<(Seq<char>, DescView)>::empty());
    }
    None
}

/// The index of the first variant named `name`.
fn find_variant_index(variants: &Vec<(String, Option<Box<TypeDescriptor>>)>, name: &String) -> (r: Option<usize>)
    ensures
        match variant_position(dvariants(variants@), name@) {
            None => r is None,
            Some(i) => r matches Some(k) && k as int == i,
        },
{
    let ghost s = dvariants(variants@);
    proof {
        lemma_dvariants(variants@);
    }
    proof {
        assert(s.subrange(0, s.len() as int) =~= s);
    }
    let mut i: usize = 0;
    while i < variants.len()
        invariant
            i <= variants@.len(),
            s == dvariants(variants@),
            s.len() == variants@.len(),
            forall|k: int| 0 <= k < variants@.len() ==> #[trigger] s[k] == (variants@[k].0@, payload_view(variants@[k].1)),
            variant_position(s.subrange(i as int, s.len() as int), name@) matches Some(j) ==> variant_position(s, name@) == Some(j + i),
            variant_position(s.subrange(i as int, s.len() as int), name@) is None ==> variant_position(s, name@) is None,
        decreases variants@.len() - i,
    {
        let ghost rest = s.subrange(i as int, s.len() as int);
        proof {
            assert(rest[0] == s[i as int]);
            assert(rest.subrange(1, rest.len() as int) =~= s.subrange(i + 1, s.len() as int));
        }
        if same_str(variants[i].0.as_str(), name.as_str()) {
            return Some(i);
        }
        i = i + 1;
    }
    proof {
        assert(s.subrange(i as int, s.len() as int) =~= Seq::<(Seq<char>, Option<DescView>)>::empty());
    }
    None
}

fn fields_fit_exec(actual: &Vec<(String, TypeDescriptor)>, expected: &Vec<(String, TypeDescriptor)>) -> (b: bool)
    ensures
        b == fields_fit(dfields(actual@), dfields(expected@)),
    decreases rank_fields(dfields(actual@)) + rank_fields(dfields(expected@)), 1nat,
{
    let ghost s = dfields(actual@);
    let ghost t = dfields(expected@);
    proof {
        lemma_dfields(actual@);
        lemma_dfields(expected@);
    }
    proof {
        assert(s.subrange(0, s.len() as int) =~= s);
        assert(t.subrange(0, t.len() as int) =~= t);
    }
    let mut i: usize = 0;
    while i < expected.len()
        invariant
            i <= expected@.len(),
            s == dfields(actual@),
            t == dfields(expected@),
            s.len() == actual@.len(),
            t.len() == expected@.len(),
            forall|k: int| 0 <= k < actual@.len() ==> #[trigger] s[k] == (actual@[k].0@, actual@[k].1@),
            forall|k: int| 0 <= k < expected@.len() ==> #[trigger] t[k] == (expected@[k].0@, expected@[k].1@),
            fields_fit(s, t) == fields_fit(s, t.subrange(i as int, t.len() as int)),
        decreases expected@.len() - i,
    {
        let ghost rest = t.subrange(i as int, t.len() as int);
        proof {
            assert(rest[0] == t[i as int]);
            assert(rest.subrange(1, rest.len() as int) =~= t.subrange(i + 1, t.len() as int));
            lemma_rank_fields(t, i as int);
        }
        proof {
            assert(t[i as int] == (expected@[i as int].0@, expected@[i as int].1@));
        }
        match find_field_index(actual, &expected[i].0) {
            None => {
                proof {
                    assert(rest[0].0 == expected@[i as int].0@);
                    assert(field_position(s, rest[0].0) is None);
                    assert(!fields_fit(s, rest));
                }
                return false;
            },
            Some(j) => {
                proof {
                    lemma_field_position(s, t[i as int].0);
                    lemma_rank_fields(s, j as int);
                    assert(s[j as int] == (actual@[j as int].0@, actual@[j as int].1@));
                    assert(rest[0].0 == expected@[i as int].0@);
                    assert(field_position(s, rest[0].0) == Some(j as int));
                    assert(fields_fit(s, rest) == (assignable_view(s[j as int].1, rest[0].1)
                        && fields_fit(s, rest.subrange(1, rest.len() as int))));
                }
                if !assignable(&actual[j].1, &expected[i].1) {
                    return false;
                }
            },
        }
        i = i + 1;
    }
    proof {
        assert(t.subrange(i as int, t.len() as int) =~= Seq::<(Seq<char>, DescView)>::empty());
    }
    true
}

fn variants_fit_exec(
    actual: &Vec<(String, Option<Box<TypeDescriptor>>)>,
    expected: &Vec<(String, Option<Box<TypeDescriptor>>)>,
) -> (b: bool)
    ensures
        b == variants_fit(dvariants(actual@), dvariants(expected@)),
    decreases rank_variants(dvariants(actual@)) + rank_variants(dvariants(expected@)), 1nat,
{
    let ghost s = dvariants(actual@);
    let ghost t = dvariants(expected@);
    proof {
        lemma_dvariants(actual@);
        lemma_dvariants(expected@);
    }
    proof {
        assert(s.subrange(0, s.len() as int) =~= s);
        assert(t.subrange(0, t.len() as int) =~= t);
    }
    let mut i: usize = 0;
    while i < expected.len()
        invariant
            i <= expected@.len(),
            s == dvariants(actual@),
            t == dvariants(expected@),
            s.len() == actual@.len(),
            t.len() == expected@.len(),
            forall|k: int| 0 <= k < actual@.len() ==> #[trigger] s[k] == (actual@[k].0@, payload_view(actual@[k].1)),
            forall|k: int| 0 <= k < expected@.len() ==> #[trigger] t[k] == (expected@[k].0@, payload_view(expected@[k].1)),
            variants_fit(s, t) == variants_fit(s, t.subrange(i as int, t.len() as int)),
        decreases expected@.len() - i,
    {
        let ghost rest = t.subrange(i as int, t.len() as int);
        proof {
            assert(rest[0] == t[i as int]);
            assert(rest.subrange(1, rest.len() as int) =~= t.subrange(i + 1, t.len() as int));
            lemma_rank_variants(t, i as int);
        }
        proof {
            assert(t[i as int] == (expected@[i as int].0@, payload_view(expected@[i as int].1)));
        }
        match find_variant_index(actual, &expected[i].0) {
            None => {
                proof {
                    assert(rest[0].0 == expected@[i as int].0@);
                    assert(variant_position(s, rest[0].0) is None);
                    assert(!variants_fit(s, rest));
                }
                return false;
            },
            Some(j) => {
                proof {
                    lemma_variant_position(s, t[i as int].0);
                    lemma_rank_variants(s, j as int);
                    assert(s[j as int] == (actual@[j as int].0@, payload_view(actual@[j as int].1)));
                    assert(rest[0].0 == expected@[i as int].0@);
                    assert(variant_position(s, rest[0].0) == Some(j as int));
                }
                let ok = match (&actual[j].1, &expected[i].1) {
                    (None, None) => true,
                    (Some(x), Some(y)) => assignable(&**x, &**y),
                    _ => false,
                };
                if !ok {
                    return false;
                }
            },
        }
        i = i + 1;
    }
    proof {
        assert(t.subrange(i as int, t.len() as int) =~= Seq::<(Seq<char>, Option<DescView>)>::empty());
    }
    true
}

fn fits_some_variant_exec(a: &TypeDescriptor, ys: &Vec<(String, Option<Box<TypeDescriptor>>)>) -> (b: bool)
    ensures
        b == fits_some_variant(a@, dvariants(ys@)),
    decreases rank(a@) + rank_variants(dvariants(ys@)), 1nat,
{
    let ghost s = dvariants(ys@);
    proof {
        lemma_dvariants(ys@);
    }
    proof {
        assert(s.subrange(0, s.len() as int) =~= s);
    }
    let mut i: usize = 0;
    while i < ys.len()
        invariant
            i <= ys@.len(),
            s == dvariants(ys@),
            s.len() == ys@.len(),
            forall|k: int| 0 <= k < ys@.len() ==> #[trigger] s[k] == (ys@[k].0@, payload_view(ys@[k].1)),
            fits_some_variant(a@, s) == fits_some_variant(a@, s.subrange(i as int, s.len() as int)),
        decreases ys@.len() - i,
    {
        let ghost rest = s.subrange(i as int, s.len() as int);
        proof {
            assert(rest[0] == s[i as int]);
            assert(rest.subrange(1, rest.len() as int) =~= s.subrange(i + 1, s.len() as int));
            lemma_rank_variants(s, i as int);
            lemma_variant_type_rank(s[i as int].0, s[i as int].1);
        }
        let v = enum_variant_type(ys[i].0.as_str(), payload_ref(&ys[i].1));
        if assignable(a, &v) {
            return true;
        }
        i = i + 1;
    }
    proof {
        assert(s.subrange(i as int, s.len() as int) =~= Seq::<(Seq<char>, Option<DescView>)>::empty());
    }
    false
}

fn all_variants_fit_exec(xs: &Vec<(String, Option<Box<TypeDescriptor>>)>, e: &TypeDescriptor) -> (b: bool)
    ensures
        b == all_variants_fit(dvariants(xs@), e@),
    decreases rank_variants(dvariants(xs@)) + rank(e@), 1nat,
{
    let ghost s = dvariants(xs@);
    proof {
        lemma_dvariants(xs@);
    }
    proof {
        assert(s.subrange(0, s.len() as int) =~= s);
    }
    let mut i: usize = 0;
    while i < xs.len()
        invariant
            i <= xs@.len(),
            s == dvariants(xs@),
            s.len() == xs@.len(),
            forall|k: int| 0 <= k < xs@.len() ==> #[trigger] s[k] == (xs@[k].0@, payload_view(xs@[k].1)),
            all_variants_fit(s, e@) == all_variants_fit(s.subrange(i as int, s.len() as int), e@),
        decreases xs@.len() - i,
    {
        let ghost rest = s.subrange(i as int, s.len() as int);
        proof {
            assert(rest[0] == s[i as int]);
            assert(rest.subrange(1, rest.len() as int) =~= s.subrange(i + 1, s.len() as int));
            lemma_rank_variants(s, i as int);
            lemma_variant_type_rank(s[i as int].0, s[i as int].1);
        }
        let v = enum_variant_type(xs[i].0.as_str(), payload_ref(&xs[i].1));
        if !assignable(&v, e) {
            return false;
        }
        i = i + 1;
    }
    proof {
        assert(s.subrange(i as int, s.len() as int) =~= Seq::<(Seq<char>, Option<DescView>)>::empty());
    }
    true
}

// ---------------------------------------------------------------------------
// Interpolation.

/// Whether values of a type can be interpolated into a string: `Any`,
/// `Int`, `String` and atoms can; a union can when each member can; an
/// enum can when every variant is a bare tag (its type is an atom).
pub open spec fn interpolation_supported(d: DescView) -> bool
    decreases d,
{
    match d {
        DescView::Any | DescView::Int | DescView::String | DescView::Atom(_) => true,
        DescView::Union(items) => all_interpolation_supported(items),
        DescView::Enum(variants) => forall|i: int| 0 <= i < variants.len() ==> (#[trigger] variants[i]).1 is None,
        _ => false,
    }
}

pub open spec fn all_interpolation_supported(items: Seq<DescView>) -> bool
    decreases items,
{
    if items.len() == 0 {
        true
    } else {
        interpolation_supported(items[0]) && all_interpolation_supported(
            items.subrange(1, items.len() as int),
        )
    }
}

/// Whether values of `descriptor` can be interpolated into a string, as
/// [`interpolation_supported`] says.
pub fn interpolation_type_supported(descriptor: &TypeDescriptor) -> (b: bool)
    ensures
        b == interpolation_supported(descriptor@),
    decreases descriptor, 0int,
{
    match descriptor {
        TypeDescriptor::Any | TypeDescriptor::Int | TypeDescriptor::String | TypeDescriptor::Atom(
            _,
        ) => true,
        TypeDescriptor::Union(items) => all_interpolation_supported_exec(items),
        TypeDescriptor::Enum(variants) => {
            let ghost s = dvariants(variants@);
            proof {
                lemma_dvariants(variants@);
                assert(descriptor@ == DescView::Enum(s));
            }
            let mut i: usize = 0;
            while i < variants.len()
                invariant
                    i <= variants@.len(),
                    s == dvariants(variants@),
                    descriptor@ == DescView::Enum(s),
                    s.len() == variants@.len(),
                    forall|k: int| 0 <= k < variants@.len() ==> #[trigger] s[k] == (variants@[k].0@, payload_view(variants@[k].1)),
                    forall|k: int| 0 <= k < i ==> (#[trigger] s[k]).1 is None,
                decreases variants@.len() - i,
            {
                if variants[i].1.is_some() {
                    proof {
                        assert(s[i as int].1 is Some);
                        assert(!interpolation_supported(DescView::Enum(s)));
                    }
                    return false;
                }
                i = i + 1;
            }
            true
        },
        _ => false,
    }
}

fn all_interpolation_supported_exec(items: &Vec<TypeDescriptor>) -> (b: bool)
    ensures
        b == all_interpolation_supported(dviews(items@)),
    decreases items, 1int,
{
    let ghost s = dviews(items@);
    proof {
        lemma_dviews(items@);
        assert(s.subrange(0, s.len() as int) =~= s);
    }
    let mut i: usize = 0;
    while i < items.len()
        invariant
            i <= items@.len(),
            s == dviews(items@),
            s.len() == items@.len(),
            forall|k: int| 0 <= k < items@.len() ==> #[trigger] s[k] == items@[k]@,
            all_interpolation_supported(s) == all_interpolation_supported(
                s.subrange(i as int, s.len() as int),
            ),
        decreases items@.len() - i,
    {
        let ghost rest = s.subrange(i as int, s.len() as int);
        proof {
            assert(rest[0] == s[i as int]);
            assert(rest.subrange(1, rest.len() as int) =~= s.subrange(i + 1, s.len() as int));
        }
        if !interpolation_type_supported(&items[i]) {
            return false;
        }
        i = i + 1;
    }
    proof {
        assert(s.subrange(i as int, s.len() as int) =~= Seq::<DescView>::empty());
    }
    true
}

// ---------------------------------------------------------------------------
// Collections of types.

/// `s` without repetitions, each type where it first occurs, appended to
/// `acc`.
pub open spec fn dedup_onto(acc: Seq<DescView>, s: Seq<DescView>) -> Seq<DescView>
    decreases s.len(),
{
    if s.len() == 0 {
        acc
    } else {
        let next = if acc.contains(s[0]) {
            acc
        } else {
            acc.push(s[0])
        };
        dedup_onto(next, s.subrange(1, s.len() as int))
    }
}

/// The distinct types of `s`, in the order of their first occurrence.
pub open spec fn dedup(s: Seq<DescView>) -> Seq<DescView> {
    dedup_onto(Seq::empty(), s)
}

/// The union of the distinct types of `s`, or the type itself when there
/// is only one.
pub open spec fn union_view(s: Seq<DescView>) -> DescView {
    let u = dedup(s);
    if u.len() == 1 {
        u[0]
    } else {
        DescView::Union(u)
    }
}

/// `true` when some element of `items` describes the same type as `d`.
fn contains_type(items: &Vec<TypeDescriptor>, d: &TypeDescriptor) -> (b: bool)
    ensures
        b == dviews(items@).contains(d@),
{
    proof {
        lemma_dviews(items@);
    }
    let mut i: usize = 0;
    while i < items.len()
        invariant
            i <= items@.len(),
            dviews(items@).len() == items@.len(),
            forall|k: int| 0 <= k < items@.len() ==> #[trigger] dviews(items@)[k] == items@[k]@,
            forall|k: int| 0 <= k < i ==> (#[trigger] items@[k])@ != d@,
        decreases items@.len() - i,
    {
        if items[i].same(d) {
            proof {
                assert(dviews(items@)[i as int] == d@);
            }
            return true;
        }
        i = i + 1;
    }
    proof {
        if dviews(items@).contains(d@) {
            let k = choose|k: int| 0 <= k < dviews(items@).len() && dviews(items@)[k] == d@;
            assert(items@[k]@ == d@);
        }
    }
    false
}

/// The union of the distinct types of `types`, in the order of their
/// first occurrence, or that type itself when there is only one.
pub fn union_or_single(types: Vec<TypeDescriptor>) -> (d: TypeDescriptor)
    ensures
        d@ == union_view(dviews(types@)),
{
    let ghost s = dviews(types@);
    let mut unique: Vec<TypeDescriptor> = Vec::new();
    proof {
        lemma_dviews(types@);
        lemma_dviews(unique@);
        assert(s.subrange(0, s.len() as int) =~= s);
        assert(dviews(unique@) =~= Seq::<DescView>::empty());
    }
    let mut i: usize = 0;
    while i < types.len()
        invariant
            i <= types@.len(),
            s == dviews(types@),
            s.len() == types@.len(),
            forall|k: int| 0 <= k < types@.len() ==> #[trigger] s[k] == types@[k]@,
            dedup(s) == dedup_onto(dviews(unique@), s.subrange(i as int, s.len() as int)),
        decreases types@.len() - i,
    {
        let ghost rest = s.subrange(i as int, s.len() as int);
        let ghost before = dviews(unique@);
        let ghost old_u = unique@;
        proof {
            assert(rest[0] == s[i as int]);
            assert(rest.subrange(1, rest.len() as int) =~= s.subrange(i + 1, s.len() as int));
        }
        if !contains_type(&unique, &types[i]) {
            let c = types[i].copy();
            unique.push(c);
            proof {
                lemma_dviews(unique@);
                lemma_dviews(old_u);
                assert(unique@ == old_u.push(c));
                assert(dviews(unique@) =~= before.push(s[i as int]));
            }
        }
        i = i + 1;
    }
    proof {
        assert(s.subrange(i as int, s.len() as int) =~= Seq::<DescView>::empty());
        lemma_dviews(unique@);
    }
    let ghost all = unique@;
    proof {
        assert(dedup(s) == dviews(all));
    }
    if unique.len() == 1 {
        let d = unique.pop().unwrap();
        proof {
            assert(d == all[0]);
        }
        d
    } else {
        TypeDescriptor::Union(unique)
    }
}

/// The one type of `s` when all of them are the same type.
pub open spec fn common_view(s: Seq<DescView>) -> Option<DescView> {
    if s.len() > 0 && forall|i: int| 0 <= i < s.len() ==> #[trigger] s[i] == s[0] {
        Some(s[0])
    } else {
        None
    }
}

/// The type that all of `types` are, when they are all the same type.
pub fn common_type(types: Vec<TypeDescriptor>) -> (r: Option<TypeDescriptor>)
    ensures
        match common_view(dviews(types@)) {
            None => r is None,
            Some(v) => r matches Some(d) && d@ == v,
        },
{
    proof {
        lemma_dviews(types@);
    }
    if types.len() == 0 {
        return None;
    }
    let mut i: usize = 0;
    while i < types.len()
        invariant
            0 < types@.len(),
            i <= types@.len(),
            dviews(types@).len() == types@.len(),
            forall|k: int| 0 <= k < types@.len() ==> #[trigger] dviews(types@)[k] == types@[k]@,
            forall|k: int| 0 <= k < i ==> (#[trigger] types@[k])@ == types@[0]@,
        decreases types@.len() - i,
    {
        if !types[i].same(&types[0]) {
            proof {
                assert(dviews(types@)[i as int] != dviews(types@)[0]);
            }
            return None;
        }
        i = i + 1;
    }
    proof {
        assert forall|k: int| 0 <= k < dviews(types@).len() implies #[trigger] dviews(types@)[k] == dviews(types@)[0] by {
            assert(types@[k]@ == types@[0]@);
        }
    }
    Some(types[0].copy())
}

// ---------------------------------------------------------------------------
// Where two types disagree.

/// A step of a path into a value: an index or a key.
pub enum SegView {
    Index(int),
    Key(Seq<char>),
}

pub open spec fn seg_view(s: ValuePathSegment) -> SegView {
    match s {
        ValuePathSegment::Index(i) => SegView::Index(i as int),
        ValuePathSegment::Key(k) => SegView::Key(k@),
    }
}

pub open spec fn path_view(p: Seq<ValuePathSegment>) -> Seq<SegView> {
    p.map_values(|s: ValuePathSegment| seg_view(s))
}

/// The path, from the root of a value of type `a`, to the first place
/// where it fails to fit `e`; `None` where it fits. Struct fields and enum
/// variants are visited in the order of `e`: a missing or mismatched one is
/// the place (below it, where its payload disagrees deeper); then the first
/// one of `a` that `e` lacks. Tuples of different lengths disagree at the
/// tuple itself, otherwise at the first element that disagrees; arrays
/// disagree where their items do. `Any` on either side fits; any other
/// pair disagrees at its root exactly when it is not assignable.
pub open spec fn mismatch(a: DescView, e: DescView) -> Option<Seq<SegView>>
    decreases rank(a) + rank(e), 0nat,
{
    match (a, e) {
        (DescView::Any, _) => None,
        (_, DescView::Any) => None,
        (DescView::Struct(xs), DescView::Struct(ys)) => match fields_mismatch(xs, ys) {
            Some(p) => Some(p),
            None => match extra_field(xs, ys) {
                Some(n) => Some(seq![SegView::Key(n)]),
                None => None,
            },
        },
        (DescView::Enum(xs), DescView::Enum(ys)) => match variants_mismatch(xs, ys) {
            Some(p) => Some(p),
            None => match extra_variant(xs, ys) {
                Some(n) => Some(seq![SegView::Key(n)]),
                None => None,
            },
        },
        (DescView::Tuple(xs), DescView::Tuple(ys)) => if xs.len() != ys.len() {
            Some(Seq::empty())
        } else {
            items_mismatch(xs, ys, 0)
        },
        (DescView::Array(x), DescView::Array(y)) => mismatch(*x, *y),
        _ => if assignable_view(a, e) {
            None
        } else {
            Some(Seq::empty())
        },
    }
}

/// The first expected field that is missing from `actual` or disagrees.
pub open spec fn fields_mismatch(
    actual: Seq<(Seq<char>, DescView)>,
    expected: Seq<(Seq<char>, DescView)>,
) -> Option<Seq<SegView>>
    decreases rank_fields(actual) + rank_fields(expected), 1nat,
{
    if expected.len() == 0 {
        None
    } else {
        let key = SegView::Key(expected[0].0);
        match field_position(actual, expected[0].0) {
            None => Some(seq![key]),
            Some(i) => {
                proof {
                    lemma_field_position(actual, expected[0].0);
                    lemma_rank_fields(actual, i);
                    lemma_rank_fields(expected, 0);
                }
                match mismatch(actual[i].1, expected[0].1) {
                    Some(p) => Some(seq![key] + p),
                    None => fields_mismatch(actual, expected.subrange(1, expected.len() as int)),
                }
            },
        }
    }
}

/// The first expected variant that is missing from `actual` or disagrees.
pub open spec fn variants_mismatch(
    actual: Seq<(Seq<char>, Option<DescView>)>,
    expected: Seq<(Seq<char>, Option<DescView>)>,
) -> Option<Seq<SegView>>
    decreases rank_variants(actual) + rank_variants(expected), 1nat,
{
    if expected.len() == 0 {
        None
    } else {
        let key = SegView::Key(expected[0].0);
        let rest = expected.subrange(1, expected.len() as int);
        match variant_position(actual, expected[0].0) {
            None => Some(seq![key]),
            Some(i) => {
                proof {
                    lemma_variant_position(actual, expected[0].0);
                    lemma_rank_variants(actual, i);
                    lemma_rank_variants(expected, 0);
                }
                match (actual[i].1, expected[0].1) {
                    (None, None) => variants_mismatch(actual, rest),
                    (Some(x), Some(y)) => match mismatch(x, y) {
                        Some(p) => Some(seq![key] + p),
                        None => variants_mismatch(actual, rest),
                    },
                    _ => Some(seq![key]),
                }
            },
        }
    }
}

/// The first pair of elements that disagrees, the first of them at index
/// `k`.
pub open spec fn items_mismatch(xs: Seq<DescView>, ys: Seq<DescView>, k: int) -> Option<Seq<SegView>>
    decreases rank_seq(xs) + rank_seq(ys), 1nat,
{
    if xs.len() == 0 || ys.len() == 0 {
        None
    } else {
        proof {
            lemma_rank_seq(xs, 0);
            lemma_rank_seq(ys, 0);
        }
        match mismatch(xs[0], ys[0]) {
            Some(p) => Some(seq![SegView::Index(k)] + p),
            None => items_mismatch(
                xs.subrange(1, xs.len() as int),
                ys.subrange(1, ys.len() as int),
                k + 1,
            ),
        }
    }
}

/// The first field name of `actual` that `expected` lacks.
pub open spec fn extra_field(actual: Seq<(Seq<char>, DescView)>, expected: Seq<(Seq<char>, DescView)>) -> Option<Seq<char>>
    decreases actual.len(),
{
    if actual.len() == 0 {
        None
    } else if field_position(expected, actual[0].0) is None {
        Some(actual[0].0)
    } else {
        extra_field(actual.subrange(1, actual.len() as int), expected)
    }
}

/// The first variant name of `actual` that `expected` lacks.
pub open spec fn extra_variant(
    actual: Seq<(Seq<char>, Option<DescView>)>,
    expected: Seq<(Seq<char>, Option<DescView>)>,
) -> Option<Seq<char>>
    decreases actual.len(),
{
    if actual.len() == 0 {
        None
    } else if variant_position(expected, actual[0].0) is None {
        Some(actual[0].0)
    } else {
        extra_variant(actual.subrange(1, actual.len() as int), expected)
    }
}

/// The path to the first place where `actual` fails to fit `expected`, as
/// [`mismatch`] says, or `None` where it fits.
pub fn incompatibility_path(actual: &TypeDescriptor, expected: &TypeDescriptor) -> (r: Option<Vec<ValuePathSegment>>)
    ensures
        match mismatch(actual@, expected@) {
            None => r is None,
            Some(p) => r matches Some(v) && path_view(v@) == p,
        },
{
    let mut path: Vec<ValuePathSegment> = Vec::new();
    if visit(actual, expected, &mut path) {
        proof {
            assert(path_view(Seq::<ValuePathSegment>::empty()) =~= Seq::<SegView>::empty());
        }
        Some(path)
    } else {
        None
    }
}

/// Appends to `path` the steps that [`mismatch`] gives, when it gives some.
fn visit(actual: &TypeDescriptor, expected: &TypeDescriptor, path: &mut Vec<ValuePathSegment>) -> (found: bool)
    ensures
        found == mismatch(actual@, expected@) is Some,
        found ==> path_view(final(path)@) == path_view(old(path)@) + mismatch(actual@, expected@)->Some_0,
        !found ==> final(path)@ == old(path)@,
    decreases rank(actual@) + rank(expected@), 0nat,
{
    match (actual, expected) {
        (TypeDescriptor::Any, _) => false,
        (_, TypeDescriptor::Any) => false,
        (TypeDescriptor::Struct(xs), TypeDescriptor::Struct(ys)) => {
            if visit_fields(xs, ys, path) {
                return true;
            }
            match extra_field_exec(xs, ys) {
                Some(name) => {
                    let ghost before = path@;
                    path.push(ValuePathSegment::Key(name));
                    proof {
                        lemma_path_push(before, ValuePathSegment::Key(name));
                    }
                    true
                },
                None => false,
            }
        },
        (TypeDescriptor::Enum(xs), TypeDescriptor::Enum(ys)) => {
            if visit_variants(xs, ys, path) {
                return true;
            }
            match extra_variant_exec(xs, ys) {
                Some(name) => {
                    let ghost before = path@;
                    path.push(ValuePathSegment::Key(name));
                    proof {
                        lemma_path_push(before, ValuePathSegment::Key(name));
                    }
                    true
                },
                None => false,
            }
        },
        (TypeDescriptor::Tuple(xs), TypeDescriptor::Tuple(ys)) => {
            proof {
                lemma_dviews(xs@);
                lemma_dviews(ys@);
            }
            if xs.len() != ys.len() {
                proof {
                    assert(path_view(path@) + Seq::<SegView>::empty() =~= path_view(path@));
                }
                return true;
            }
            visit_items(xs, ys, path)
        },
        (TypeDescriptor::Array(x), TypeDescriptor::Array(y)) => visit(&**x, &**y, path),
        _ => {
            if assignable(actual, expected) {
                false
            } else {
                proof {
                    assert(path_view(path@) + Seq::<SegView>::empty() =~= path_view(path@));
                }
                true
            }
        },
    }
}

proof fn lemma_path_push(p: Seq<ValuePathSegment>, s: ValuePathSegment)
    ensures
        path_view(p.push(s)) == path_view(p) + seq![seg_view(s)],
{
    assert(path_view(p.push(s)) =~= path_view(p) + seq![seg_view(s)]);
}

fn visit_fields(
    actual: &Vec<(String, TypeDescriptor)>,
    expected: &Vec<(String, TypeDescriptor)>,
    path: &mut Vec<ValuePathSegment>,
) -> (found: bool)
    ensures
        found == fields_mismatch(dfields(actual@), dfields(expected@)) is Some,
        found ==> path_view(final(path)@) == path_view(old(path)@) + fields_mismatch(
            dfields(actual@),
            dfields(expected@),
        )->Some_0,
        !found ==> final(path)@ == old(path)@,
    decreases rank_fields(dfields(actual@)) + rank_fields(dfields(expected@)), 1nat,
{
    let ghost s = dfields(actual@);
    let ghost t = dfields(expected@);
    proof {
        lemma_dfields(actual@);
        lemma_dfields(expected@);
        assert(t.subrange(0, t.len() as int) =~= t);
    }
    let mut i: usize = 0;
    while i < expected.len()
        invariant
            i <= expected@.len(),
            s == dfields(actual@),
            t == dfields(expected@),
            s.len() == actual@.len(),
            t.len() == expected@.len(),
            forall|k: int| 0 <= k < actual@.len() ==> #[trigger] s[k] == (actual@[k].0@, actual@[k].1@),
            forall|k: int| 0 <= k < expected@.len() ==> #[trigger] t[k] == (expected@[k].0@, expected@[k].1@),
            fields_mismatch(s, t) == fields_mismatch(s, t.subrange(i as int, t.len() as int)),
            path@ == old(path)@,
        decreases expected@.len() - i,
    {
        let ghost rest = t.subrange(i as int, t.len() as int);
        proof {
            assert(rest[0] == t[i as int]);
            assert(rest.subrange(1, rest.len() as int) =~= t.subrange(i + 1, t.len() as int));
            assert(t[i as int] == (expected@[i as int].0@, expected@[i as int].1@));
            assert(rest[0].0 == expected@[i as int].0@);
            lemma_rank_fields(t, i as int);
        }
        let name = expected[i].0.clone();
        let ghost before = path@;
        path.push(ValuePathSegment::Key(name));
        proof {
            lemma_path_push(before, ValuePathSegment::Key(expected@[i as int].0));
        }
        match find_field_index(actual, &expected[i].0) {
            None => {
                proof {
                    assert(field_position(s, rest[0].0) is None);
                    assert(path_view(path@) =~= path_view(old(path)@) + seq![SegView::Key(rest[0].0)]);
                }
                return true;
            },
            Some(j) => {
                proof {
                    lemma_field_position(s, rest[0].0);
                    lemma_rank_fields(s, j as int);
                    assert(s[j as int] == (actual@[j as int].0@, actual@[j as int].1@));
                    assert(field_position(s, rest[0].0) == Some(j as int));
                }
                let ghost pushed = path@;
                if visit(&actual[j].1, &expected[i].1, path) {
                    proof {
                        assert(path_view(path@) =~= path_view(old(path)@) + (seq![SegView::Key(rest[0].0)] + mismatch(s[j as int].1, rest[0].1)->Some_0));
                    }
                    return true;
                }
                let _ = path.pop();
                proof {
                    assert(path@ =~= old(path)@);
                }
            },
        }
        i = i + 1;
    }
    proof {
        assert(t.subrange(i as int, t.len() as int) =~= Seq::<(Seq<char>, DescView)>::empty());
    }
    false
}

fn visit_variants(
    actual: &Vec<(String, Option<Box<TypeDescriptor>>)>,
    expected: &Vec<(String, Option<Box<TypeDescriptor>>)>,
    path: &mut Vec<ValuePathSegment>,
) -> (found: bool)
    ensures
        found == variants_mismatch(dvariants(actual@), dvariants(expected@)) is Some,
        found ==> path_view(final(path)@) == path_view(old(path)@) + variants_mismatch(
            dvariants(actual@),
            dvariants(expected@),
        )->Some_0,
        !found ==> final(path)@ == old(path)@,
    decreases rank_variants(dvariants(actual@)) + rank_variants(dvariants(expected@)), 1nat,
{
    let ghost s = dvariants(actual@);
    let ghost t = dvariants(expected@);
    proof {
        lemma_dvariants(actual@);
        lemma_dvariants(expected@);
        assert(t.subrange(0, t.len() as int) =~= t);
    }
    let mut i: usize = 0;
    while i < expected.len()
        invariant
            i <= expected@.len(),
            s == dvariants(actual@),
            t == dvariants(expected@),
            s.len() == actual@.len(),
            t.len() == expected@.len(),
            forall|k: int| 0 <= k < actual@.len() ==> #[trigger] s[k] == (actual@[k].0@, payload_view(actual@[k].1)),
            forall|k: int| 0 <= k < expected@.len() ==> #[trigger] t[k] == (expected@[k].0@, payload_view(expected@[k].1)),
            variants_mismatch(s, t) == variants_mismatch(s, t.subrange(i as int, t.len() as int)),
            path@ == old(path)@,
        decreases expected@.len() - i,
    {
        let ghost rest = t.subrange(i as int, t.len() as int);
        proof {
            assert(rest[0] == t[i as int]);
            assert(rest.subrange(1, rest.len() as int) =~= t.subrange(i + 1, t.len() as int));
            assert(t[i as int] == (expected@[i as int].0@, payload_view(expected@[i as int].1)));
            assert(rest[0].0 == expected@[i as int].0@);
            lemma_rank_variants(t, i as int);
        }
        let name = expected[i].0.clone();
        let ghost before = path@;
        path.push(ValuePathSegment::Key(name));
        proof {
            lemma_path_push(before, ValuePathSegment::Key(expected@[i as int].0));
        }
        match find_variant_index(actual, &expected[i].0) {
            None => {
                proof {
                    assert(variant_position(s, rest[0].0) is None);
                    assert(path_view(path@) =~= path_view(old(path)@) + seq![SegView::Key(rest[0].0)]);
                }
                return true;
            },
            Some(j) => {
                proof {
                    lemma_variant_position(s, rest[0].0);
                    lemma_rank_variants(s, j as int);
                    assert(s[j as int] == (actual@[j as int].0@, payload_view(actual@[j as int].1)));
                    assert(variant_position(s, rest[0].0) == Some(j as int));
                }
                match (&actual[j].1, &expected[i].1) {
                    (None, None) => {},
                    (Some(x), Some(y)) => {
                        if visit(&**x, &**y, path) {
                            proof {
                                assert(path_view(path@) =~= path_view(old(path)@) + (seq![SegView::Key(rest[0].0)] + mismatch(x@, y@)->Some_0));
                            }
                            return true;
                        }
                    },
                    _ => {
                        proof {
                            assert(path_view(path@) =~= path_view(old(path)@) + seq![SegView::Key(rest[0].0)]);
                        }
                        return true;
                    },
                }
                let _ = path.pop();
                proof {
                    assert(path@ =~= old(path)@);
                }
            },
        }
        i = i + 1;
    }
    proof {
        assert(t.subrange(i as int, t.len() as int) =~= Seq::<(Seq<char>, Option<DescView>)>::empty());
    }
    false
}

fn visit_items(xs: &Vec<TypeDescriptor>, ys: &Vec<TypeDescriptor>, path: &mut Vec<ValuePathSegment>) -> (found: bool)
    requires
        xs@.len() == ys@.len(),
    ensures
        found == items_mismatch(dviews(xs@), dviews(ys@), 0) is Some,
        found ==> path_view(final(path)@) == path_view(old(path)@) + items_mismatch(
            dviews(xs@),
            dviews(ys@),
            0,
        )->Some_0,
        !found ==> final(path)@ == old(path)@,
    decreases rank_seq(dviews(xs@)) + rank_seq(dviews(ys@)), 1nat,
{
    let ghost s = dviews(xs@);
    let ghost t = dviews(ys@);
    proof {
        lemma_dviews(xs@);
        lemma_dviews(ys@);
        assert(s.subrange(0, s.len() as int) =~= s);
        assert(t.subrange(0, t.len() as int) =~= t);
    }
    let mut i: usize = 0;
    while i < xs.len()
        invariant
            i <= xs@.len(),
            xs@.len() == ys@.len(),
            s == dviews(xs@),
            t == dviews(ys@),
            s.len() == xs@.len(),
            t.len() == ys@.len(),
            forall|k: int| 0 <= k < xs@.len() ==> #[trigger] s[k] == xs@[k]@,
            forall|k: int| 0 <= k < ys@.len() ==> #[trigger] t[k] == ys@[k]@,
            items_mismatch(s, t, 0) == items_mismatch(
                s.subrange(i as int, s.len() as int),
                t.subrange(i as int, t.len() as int),
                i as int,
            ),
            path@ == old(path)@,
        decreases xs@.len() - i,
    {
        let ghost rs = s.subrange(i as int, s.len() as int);
        let ghost rt = t.subrange(i as int, t.len() as int);
        proof {
            lemma_rank_seq(s, i as int);
            lemma_rank_seq(t, i as int);
            assert(rs[0] == s[i as int]);
            assert(rt[0] == t[i as int]);
            assert(rs.subrange(1, rs.len() as int) =~= s.subrange(i + 1, s.len() as int));
            assert(rt.subrange(1, rt.len() as int) =~= t.subrange(i + 1, t.len() as int));
        }
        let ghost before = path@;
        path.push(ValuePathSegment::Index(i));
        proof {
            lemma_path_push(before, ValuePathSegment::Index(i));
        }
        if visit(&xs[i], &ys[i], path) {
            proof {
                assert(path_view(path@) =~= path_view(old(path)@) + (seq![SegView::Index(i as int)] + mismatch(s[i as int], t[i as int])->Some_0));
            }
            return true;
        }
        let _ = path.pop();
        proof {
            assert(path@ =~= old(path)@);
        }
        i = i + 1;
    }
    proof {
        assert(s.subrange(i as int, s.len() as int) =~= Seq::<DescView>::empty());
    }
    false
}

/// The first field name of `actual` that `expected` lacks.
fn extra_field_exec(actual: &Vec<(String, TypeDescriptor)>, expected: &Vec<(String, TypeDescriptor)>) -> (r: Option<String>)
    ensures
        match extra_field(dfields(actual@), dfields(expected@)) {
            None => r is None,
            Some(n) => r matches Some(x) && x@ == n,
        },
{
    let ghost s = dfields(actual@);
    let ghost t = dfields(expected@);
    proof {
        lemma_dfields(actual@);
        assert(s.subrange(0, s.len() as int) =~= s);
    }
    let mut i: usize = 0;
    while i < actual.len()
        invariant
            i <= actual@.len(),
            s == dfields(actual@),
            t == dfields(expected@),
            s.len() == actual@.len(),
            forall|k: int| 0 <= k < actual@.len() ==> #[trigger] s[k] == (actual@[k].0@, actual@[k].1@),
            extra_field(s, t) == extra_field(s.subrange(i as int, s.len() as int), t),
        decreases actual@.len() - i,
    {
        let ghost rest = s.subrange(i as int, s.len() as int);
        proof {
            assert(rest[0] == s[i as int]);
            assert(rest.subrange(1, rest.len() as int) =~= s.subrange(i + 1, s.len() as int));
        }
        if find_field_index(expected, &actual[i].0).is_none() {
            return Some(actual[i].0.clone());
        }
        i = i + 1;
    }
    proof {
        assert(s.subrange(i as int, s.len() as int) =~= Seq::<(Seq<char>, DescView)>::empty());
    }
    None
}

/// The first variant name of `actual` that `expected` lacks.
fn extra_variant_exec(
    actual: &Vec<(String, Option<Box<TypeDescriptor>>)>,
    expected: &Vec<(String, Option<Box<TypeDescriptor>>)>,
) -> (r: Option<String>)
    ensures
        match extra_variant(dvariants(actual@), dvariants(expected@)) {
            None => r is None,
            Some(n) => r matches Some(x) && x@ == n,
        },
{
    let ghost s = dvariants(actual@);
    let ghost t = dvariants(expected@);
    proof {
        lemma_dvariants(actual@);
        assert(s.subrange(0, s.len() as int) =~= s);
    }
    let mut i: usize = 0;
    while i < actual.len()
        invariant
            i <= actual@.len(),
            s == dvariants(actual@),
            t == dvariants(expected@),
            s.len() == actual@.len(),
            forall|k: int| 0 <= k < actual@.len() ==> #[trigger] s[k] == (actual@[k].0@, payload_view(actual@[k].1)),
            extra_variant(s, t) == extra_variant(s.subrange(i as int, s.len() as int), t),
        decreases actual@.len() - i,
    {
        let ghost rest = s.subrange(i as int, s.len() as int);
        proof {
            assert(rest[0] == s[i as int]);
            assert(rest.subrange(1, rest.len() as int) =~= s.subrange(i + 1, s.len() as int));
        }
        if find_variant_index(expected, &actual[i].0).is_none() {
            return Some(actual[i].0.clone());
        }
        i = i + 1;
    }
    proof {
        assert(s.subrange(i as int, s.len() as int) =~= Seq::<(Seq<char>, Option<DescView>)>::empty());
    }
    None
}

// ---------------------------------------------------------------------------
// Descriptors as graph nodes.

/// The number of graph nodes a descriptor takes: one for itself and those
/// of its parts.
pub open spec fn node_count(d: DescView) -> nat
    decreases d,
{
    match d {
        DescView::Array(item) => 1 + node_count(*item),
        DescView::Tuple(items) => 1 + count_seq(items),
        DescView::Struct(fields) => 1 + count_fields(fields),
        DescView::Enum(variants) => 1 + count_variants(variants),
        DescView::Union(items) => 1 + count_seq(items),
        DescView::Function(parameters, result) => 1 + count_seq(parameters) + node_count(*result),
        _ => 1,
    }
}

pub open spec fn count_seq(s: Seq<DescView>) -> nat
    decreases s,
{
    if s.len() == 0 {
        0
    } else {
        node_count(s[0]) + count_seq(s.subrange(1, s.len() as int))
    }
}

pub open spec fn count_fields(s: Seq<(Seq<char>, DescView)>) -> nat
    decreases s,
{
    if s.len() == 0 {
        0
    } else {
        node_count(s[0].1) + count_fields(s.subrange(1, s.len() as int))
    }
}

pub open spec fn count_variants(s: Seq<(Seq<char>, Option<DescView>)>) -> nat
    decreases s,
{
    if s.len() == 0 {
        0
    } else {
        let own: nat = match s[0].1 {
            None => 0,
            Some(p) => node_count(p),
        };
        own + count_variants(s.subrange(1, s.len() as int))
    }
}

/// Node `id` of `nodes` has the shape of `d`, part by part: the same kind,
/// the same atoms and names in the same order, and parts that represent
/// the parts of `d`.
pub open spec fn represents(nodes: Seq<TypeNode>, id: TypeId, d: DescView) -> bool
    decreases d,
{
    &&& id.0 < nodes.len()
    &&& match (nodes[id.0 as int], d) {
        (TypeNode::Any, DescView::Any) => true,
        (TypeNode::Int, DescView::Int) => true,
        (TypeNode::Float, DescView::Float) => true,
        (TypeNode::String, DescView::String) => true,
        (TypeNode::Bytes, DescView::Bytes) => true,
        (TypeNode::Atom(a), DescView::Atom(v)) => atom_view(a) == v,
        (TypeNode::Array(t), DescView::Array(x)) => represents(nodes, t, *x),
        (TypeNode::Tuple(ts), DescView::Tuple(xs)) => represents_all(nodes, ts@, xs),
        (TypeNode::Struct(fs), DescView::Struct(xs)) => represents_fields(nodes, fs@, xs),
        (TypeNode::Enum(vs), DescView::Enum(xs)) => represents_variants(nodes, vs@, xs),
        (TypeNode::Union(ts), DescView::Union(xs)) => represents_all(nodes, ts@, xs),
        (
            TypeNode::Function { parameters, result },
            DescView::Function(ps, r),
        ) => represents_all(nodes, parameters@, ps) && represents(nodes, result, *r),
        _ => false,
    }
}

pub open spec fn represents_all(nodes: Seq<TypeNode>, ts: Seq<TypeId>, xs: Seq<DescView>) -> bool
    decreases xs,
{
    &&& ts.len() == xs.len()
    &&& (xs.len() == 0 || (represents(nodes, ts[0], xs[0]) && represents_all(
        nodes,
        ts.subrange(1, ts.len() as int),
        xs.subrange(1, xs.len() as int),
    )))
}

pub open spec fn represents_fields(nodes: Seq<TypeNode>, fs: Seq<(String, TypeId)>, xs: Seq<(Seq<char>, DescView)>) -> bool
    decreases xs,
{
    &&& fs.len() == xs.len()
    &&& (xs.len() == 0 || (fs[0].0@ == xs[0].0 && represents(nodes, fs[0].1, xs[0].1)
        && represents_fields(nodes, fs.subrange(1, fs.len() as int), xs.subrange(1, xs.len() as int))))
}

pub open spec fn represents_variants(
    nodes: Seq<TypeNode>,
    vs: Seq<(String, Option<TypeId>)>,
    xs: Seq<(Seq<char>, Option<DescView>)>,
) -> bool
    decreases xs,
{
    &&& vs.len() == xs.len()
    &&& (xs.len() == 0 || (vs[0].0@ == xs[0].0 && match (vs[0].1, xs[0].1) {
        (None, None) => true,
        (Some(t), Some(p)) => represents(nodes, t, p),
        _ => false,
    } && represents_variants(nodes, vs.subrange(1, vs.len() as int), xs.subrange(1, xs.len() as int))))
}

/// Representation survives adding nodes after the existing ones.
pub proof fn lemma_represents_extend(nodes: Seq<TypeNode>, more: Seq<TypeNode>, id: TypeId, d: DescView)
    requires
        represents(nodes, id, d),
        nodes.len() <= more.len(),
        forall|i: int| 0 <= i < nodes.len() ==> more[i] == nodes[i],
    ensures
        represents(more, id, d),
    decreases d,
{
    match (nodes[id.0 as int], d) {
        (TypeNode::Array(t), DescView::Array(x)) => lemma_represents_extend(nodes, more, t, *x),
        (TypeNode::Tuple(ts), DescView::Tuple(xs)) => lemma_represents_all_extend(nodes, more, ts@, xs),
        (TypeNode::Struct(fs), DescView::Struct(xs)) => lemma_represents_fields_extend(nodes, more, fs@, xs),
        (TypeNode::Enum(vs), DescView::Enum(xs)) => lemma_represents_variants_extend(nodes, more, vs@, xs),
        (TypeNode::Union(ts), DescView::Union(xs)) => lemma_represents_all_extend(nodes, more, ts@, xs),
        (TypeNode::Function { parameters, result }, DescView::Function(ps, r)) => {
            lemma_represents_all_extend(nodes, more, parameters@, ps);
            lemma_represents_extend(nodes, more, result, *r);
        },
        _ => {},
    }
}

pub proof fn lemma_represents_all_extend(nodes: Seq<TypeNode>, more: Seq<TypeNode>, ts: Seq<TypeId>, xs: Seq<DescView>)
    requires
        represents_all(nodes, ts, xs),
        nodes.len() <= more.len(),
        forall|i: int| 0 <= i < nodes.len() ==> more[i] == nodes[i],
    ensures
        represents_all(more, ts, xs),
    decreases xs,
{
    if xs.len() > 0 {
        lemma_represents_extend(nodes, more, ts[0], xs[0]);
        lemma_represents_all_extend(nodes, more, ts.subrange(1, ts.len() as int), xs.subrange(1, xs.len() as int));
    }
}

pub proof fn lemma_represents_fields_extend(
    nodes: Seq<TypeNode>,
    more: Seq<TypeNode>,
    fs: Seq<(String, TypeId)>,
    xs: Seq<(Seq<char>, DescView)>,
)
    requires
        represents_fields(nodes, fs, xs),
        nodes.len() <= more.len(),
        forall|i: int| 0 <= i < nodes.len() ==> more[i] == nodes[i],
    ensures
        represents_fields(more, fs, xs),
    decreases xs,
{
    if xs.len() > 0 {
        lemma_represents_extend(nodes, more, fs[0].1, xs[0].1);
        lemma_represents_fields_extend(nodes, more, fs.subrange(1, fs.len() as int), xs.subrange(1, xs.len() as int));
    }
}

pub proof fn lemma_represents_variants_extend(
    nodes: Seq<TypeNode>,
    more: Seq<TypeNode>,
    vs: Seq<(String, Option<TypeId>)>,
    xs: Seq<(Seq<char>, Option<DescView>)>,
)
    requires
        represents_variants(nodes, vs, xs),
        nodes.len() <= more.len(),
        forall|i: int| 0 <= i < nodes.len() ==> more[i] == nodes[i],
    ensures
        represents_variants(more, vs, xs),
    decreases xs,
{
    if xs.len() > 0 {
        match (vs[0].1, xs[0].1) {
            (Some(t), Some(p)) => lemma_represents_extend(nodes, more, t, p),
            _ => {},
        }
        lemma_represents_variants_extend(nodes, more, vs.subrange(1, vs.len() as int), xs.subrange(1, xs.len() as int));
    }
}

/// `ids[k]` represents `xs[k]` for every `k`, element by element.
pub proof fn lemma_represents_all_from_each(nodes: Seq<TypeNode>, ts: Seq<TypeId>, xs: Seq<DescView>)
    requires
        ts.len() == xs.len(),
        forall|k: int| 0 <= k < xs.len() ==> represents(nodes, #[trigger] ts[k], xs[k]),
    ensures
        represents_all(nodes, ts, xs),
    decreases xs.len(),
{
    if xs.len() > 0 {
        let ts1 = ts.subrange(1, ts.len() as int);
        let xs1 = xs.subrange(1, xs.len() as int);
        assert forall|k: int| 0 <= k < xs1.len() implies represents(nodes, #[trigger] ts1[k], xs1[k]) by {
            assert(ts1[k] == ts[k + 1]);
            assert(xs1[k] == xs[k + 1]);
        }
        lemma_represents_all_from_each(nodes, ts1, xs1);
        assert(represents(nodes, ts[0], xs[0]));
    }
}

/// Fields whose names and ids correspond one by one represent `xs`.
pub proof fn lemma_represents_fields_from_each(nodes: Seq<TypeNode>, fs: Seq<(String, TypeId)>, xs: Seq<(Seq<char>, DescView)>)
    requires
        fs.len() == xs.len(),
        forall|k: int| 0 <= k < xs.len() ==> (#[trigger] fs[k]).0@ == xs[k].0 && represents(nodes, fs[k].1, xs[k].1),
    ensures
        represents_fields(nodes, fs, xs),
    decreases xs.len(),
{
    if xs.len() > 0 {
        let fs1 = fs.subrange(1, fs.len() as int);
        let xs1 = xs.subrange(1, xs.len() as int);
        assert forall|k: int| 0 <= k < xs1.len() implies (#[trigger] fs1[k]).0@ == xs1[k].0 && represents(nodes, fs1[k].1, xs1[k].1) by {
            assert(fs1[k] == fs[k + 1]);
            assert(xs1[k] == xs[k + 1]);
        }
        lemma_represents_fields_from_each(nodes, fs1, xs1);
        assert(fs[0].0@ == xs[0].0);
    }
}

/// Variants whose names and payloads correspond one by one represent `xs`.
pub proof fn lemma_represents_variants_from_each(
    nodes: Seq<TypeNode>,
    vs: Seq<(String, Option<TypeId>)>,
    xs: Seq<(Seq<char>, Option<DescView>)>,
)
    requires
        vs.len() == xs.len(),
        forall|k: int| 0 <= k < xs.len() ==> (#[trigger] vs[k]).0@ == xs[k].0 && match (vs[k].1, xs[k].1) {
            (None, None) => true,
            (Some(t), Some(p)) => represents(nodes, t, p),
            _ => false,
        },
    ensures
        represents_variants(nodes, vs, xs),
    decreases xs.len(),
{
    if xs.len() > 0 {
        let vs1 = vs.subrange(1, vs.len() as int);
        let xs1 = xs.subrange(1, xs.len() as int);
        assert forall|k: int| 0 <= k < xs1.len() implies (#[trigger] vs1[k]).0@ == xs1[k].0 && match (vs1[k].1, xs1[k].1) {
            (None, None) => true,
            (Some(t), Some(p)) => represents(nodes, t, p),
            _ => false,
        } by {
            assert(vs1[k] == vs[k + 1]);
            assert(xs1[k] == xs[k + 1]);
        }
        lemma_represents_variants_from_each(nodes, vs1, xs1);
        assert(vs[0].0@ == xs[0].0);
    }
}

impl TypeGraph {
    /// Adds the nodes of `descriptor`, its parts first, and returns the id
    /// of the node for the whole.
    pub fn intern_descriptor(&mut self, descriptor: &TypeDescriptor) -> (id: TypeId)
        requires
            old(self).wf(),
            old(self).spec_nodes().len() + node_count(descriptor@) <= u32::MAX,
            sorted_desc(descriptor@),
        ensures
            final(self).wf(),
            final(self).spec_names() == old(self).spec_names(),
            final(self).spec_nodes().len() == old(self).spec_nodes().len() + node_count(descriptor@),
            forall|i: int| 0 <= i < old(self).spec_nodes().len() ==> final(self).spec_nodes()[i] == old(self).spec_nodes()[i],
            id.0 == final(self).spec_nodes().len() - 1,
            represents(final(self).spec_nodes(), id, descriptor@),
        decreases descriptor, 0int,
    {
        let ghost start = self.spec_nodes();
        let node = match descriptor {
            TypeDescriptor::Any => TypeNode::Any,
            TypeDescriptor::Int => TypeNode::Int,
            TypeDescriptor::Float => TypeNode::Float,
            TypeDescriptor::String => TypeNode::String,
            TypeDescriptor::Bytes => TypeNode::Bytes,
            TypeDescriptor::Atom(atom) => TypeNode::Atom(copy_atom(atom)),
            TypeDescriptor::Array(item) => TypeNode::Array(self.intern_descriptor(&**item)),
            TypeDescriptor::Tuple(items) => TypeNode::Tuple(self.intern_items(items)),
            TypeDescriptor::Struct(fields) => TypeNode::Struct(self.intern_fields(fields)),
            TypeDescriptor::Enum(variants) => TypeNode::Enum(self.intern_variants(variants)),
            TypeDescriptor::Union(items) => TypeNode::Union(self.intern_items(items)),
            TypeDescriptor::Function { parameters, result } => {
                let ps = self.intern_items(parameters);
                let ghost mid = self.spec_nodes();
                let r = self.intern_descriptor(&**result);
                proof {
                    lemma_represents_all_extend(mid, self.spec_nodes(), ps@, dviews(parameters@));
                }
                TypeNode::Function { parameters: ps, result: r }
            },
        };
        let ghost before = self.spec_nodes();
        proof {
            lemma_interned_refs_below(before, node, descriptor@);
        }
        let id = self.push(node);
        proof {
            lemma_represents_parts_extend(before, self.spec_nodes(), node, descriptor@);
        }
        id
    }

    fn intern_items(&mut self, items: &Vec<TypeDescriptor>) -> (ids: Vec<TypeId>)
        requires
            old(self).wf(),
            old(self).spec_nodes().len() + count_seq(dviews(items@)) < u32::MAX,
            sorted_all(dviews(items@)),
        ensures
            final(self).wf(),
            final(self).spec_names() == old(self).spec_names(),
            final(self).spec_nodes().len() == old(self).spec_nodes().len() + count_seq(dviews(items@)),
            forall|i: int| 0 <= i < old(self).spec_nodes().len() ==> final(self).spec_nodes()[i] == old(self).spec_nodes()[i],
            represents_all(final(self).spec_nodes(), ids@, dviews(items@)),
        decreases items, 1int,
    {
        let ghost s = dviews(items@);
        let ghost n0 = self.spec_nodes().len();
        proof {
            lemma_sorted_all(dviews(items@));
            lemma_dviews(items@);
            assert(s.subrange(0, s.len() as int) =~= s);
        }
        let mut ids: Vec<TypeId> = Vec::new();
        let mut i: usize = 0;
        while i < items.len()
            invariant
                self.wf(),
                self.spec_names() == old(self).spec_names(),
                s == dviews(items@),
                s.len() == items@.len(),
                forall|k: int| 0 <= k < items@.len() ==> #[trigger] s[k] == items@[k]@,
                forall|k: int| 0 <= k < s.len() ==> #[trigger] sorted_desc(s[k]),
                n0 == old(self).spec_nodes().len(),
                n0 <= self.spec_nodes().len(),
                i <= items@.len(),
                ids@.len() == i,
                self.spec_nodes().len() + count_seq(s.subrange(i as int, s.len() as int)) == n0 + count_seq(s),
                n0 + count_seq(s) < u32::MAX,
                forall|q: int| 0 <= q < n0 ==> self.spec_nodes()[q] == old(self).spec_nodes()[q],
                forall|k: int| 0 <= k < i ==> represents(self.spec_nodes(), #[trigger] ids@[k], s[k]),
            decreases items@.len() - i,
        {
            let ghost rest = s.subrange(i as int, s.len() as int);
            let ghost before = self.spec_nodes();
            proof {
                assert(rest[0] == s[i as int]);
                assert(rest.subrange(1, rest.len() as int) =~= s.subrange(i + 1, s.len() as int));
            }
            let id = self.intern_descriptor(&items[i]);
            proof {
                assert forall|k: int| 0 <= k < i implies represents(self.spec_nodes(), #[trigger] ids@[k], s[k]) by {
                    lemma_represents_extend(before, self.spec_nodes(), ids@[k], s[k]);
                }
            }
            ids.push(id);
            i = i + 1;
        }
        proof {
            lemma_represents_all_from_each(self.spec_nodes(), ids@, s);
            assert(s.subrange(i as int, s.len() as int) =~= Seq::<DescView>::empty());
        }
        ids
    }

    fn intern_fields(&mut self, fields: &Vec<(String, TypeDescriptor)>) -> (ids: Vec<(String, TypeId)>)
        requires
            old(self).wf(),
            old(self).spec_nodes().len() + count_fields(dfields(fields@)) < u32::MAX,
            sorted_fields(dfields(fields@)),
            names_in_byte_order(crate::metadata::field_names(dfields(fields@))),
        ensures
            crate::types::names_in_order(ids@),
            final(self).wf(),
            final(self).spec_names() == old(self).spec_names(),
            final(self).spec_nodes().len() == old(self).spec_nodes().len() + count_fields(dfields(fields@)),
            forall|i: int| 0 <= i < old(self).spec_nodes().len() ==> final(self).spec_nodes()[i] == old(self).spec_nodes()[i],
            represents_fields(final(self).spec_nodes(), ids@, dfields(fields@)),
        decreases fields, 1int,
    {
        let ghost s = dfields(fields@);
        let ghost n0 = self.spec_nodes().len();
        proof {
            lemma_sorted_fields(dfields(fields@));
            lemma_dfields(fields@);
            assert(s.subrange(0, s.len() as int) =~= s);
        }
        let mut ids: Vec<(String, TypeId)> = Vec::new();
        let mut i: usize = 0;
        while i < fields.len()
            invariant
                self.wf(),
                self.spec_names() == old(self).spec_names(),
                s == dfields(fields@),
                s.len() == fields@.len(),
                forall|k: int| 0 <= k < fields@.len() ==> #[trigger] s[k] == (fields@[k].0@, fields@[k].1@),
                forall|k: int| 0 <= k < s.len() ==> #[trigger] sorted_desc(s[k].1),
                n0 == old(self).spec_nodes().len(),
                n0 <= self.spec_nodes().len(),
                i <= fields@.len(),
                ids@.len() == i,
                self.spec_nodes().len() + count_fields(s.subrange(i as int, s.len() as int)) == n0 + count_fields(s),
                n0 + count_fields(s) < u32::MAX,
                forall|q: int| 0 <= q < n0 ==> self.spec_nodes()[q] == old(self).spec_nodes()[q],
                forall|k: int| 0 <= k < i ==> (#[trigger] ids@[k]).0@ == s[k].0 && represents(self.spec_nodes(), ids@[k].1, s[k].1),
            decreases fields@.len() - i,
        {
            let ghost rest = s.subrange(i as int, s.len() as int);
            let ghost before = self.spec_nodes();
            proof {
                assert(rest[0] == s[i as int]);
                assert(rest.subrange(1, rest.len() as int) =~= s.subrange(i + 1, s.len() as int));
            }
            let id = self.intern_descriptor(&fields[i].1);
            proof {
                assert forall|k: int| 0 <= k < i implies (#[trigger] ids@[k]).0@ == s[k].0 && represents(self.spec_nodes(), ids@[k].1, s[k].1) by {
                    lemma_represents_extend(before, self.spec_nodes(), ids@[k].1, s[k].1);
                }
            }
            ids.push((fields[i].0.clone(), id));
            i = i + 1;
        }
        proof {
            assert forall|a: int, b: int| 0 <= a < b < ids@.len() implies bytes_lt(
                encode_utf8((#[trigger] ids@[a]).0@),
                encode_utf8((#[trigger] ids@[b]).0@),
            ) by {
                assert(crate::metadata::field_names(s)[a] == s[a].0);
                assert(crate::metadata::field_names(s)[b] == s[b].0);
            }
            lemma_represents_fields_from_each(self.spec_nodes(), ids@, s);
            assert(s.subrange(i as int, s.len() as int) =~= Seq::<(Seq<char>, DescView)>::empty());
        }
        ids
    }

    fn intern_variants(&mut self, variants: &Vec<(String, Option<Box<TypeDescriptor>>)>) -> (ids: Vec<(String, Option<TypeId>)>)
        requires
            old(self).wf(),
            old(self).spec_nodes().len() + count_variants(dvariants(variants@)) < u32::MAX,
            sorted_variants(dvariants(variants@)),
            names_in_byte_order(crate::metadata::variant_names(dvariants(variants@))),
        ensures
            crate::types::names_in_order(ids@),
            final(self).wf(),
            final(self).spec_names() == old(self).spec_names(),
            final(self).spec_nodes().len() == old(self).spec_nodes().len() + count_variants(dvariants(variants@)),
            forall|i: int| 0 <= i < old(self).spec_nodes().len() ==> final(self).spec_nodes()[i] == old(self).spec_nodes()[i],
            represents_variants(final(self).spec_nodes(), ids@, dvariants(variants@)),
        decreases variants, 1int,
    {
        let ghost s = dvariants(variants@);
        let ghost n0 = self.spec_nodes().len();
        proof {
            lemma_sorted_variants(dvariants(variants@));
            lemma_dvariants(variants@);
            assert(s.subrange(0, s.len() as int) =~= s);
        }
        let mut ids: Vec<(String, Option<TypeId>)> = Vec::new();
        let mut i: usize = 0;
        while i < variants.len()
            invariant
                self.wf(),
                self.spec_names() == old(self).spec_names(),
                s == dvariants(variants@),
                s.len() == variants@.len(),
                forall|k: int| 0 <= k < variants@.len() ==> #[trigger] s[k] == (variants@[k].0@, payload_view(variants@[k].1)),
                forall|k: int| 0 <= k < s.len() ==> (#[trigger] s[k]).1 is None || sorted_desc(s[k].1->Some_0),
                n0 == old(self).spec_nodes().len(),
                n0 <= self.spec_nodes().len(),
                i <= variants@.len(),
                ids@.len() == i,
                self.spec_nodes().len() + count_variants(s.subrange(i as int, s.len() as int)) == n0 + count_variants(s),
                n0 + count_variants(s) < u32::MAX,
                forall|q: int| 0 <= q < n0 ==> self.spec_nodes()[q] == old(self).spec_nodes()[q],
                forall|k: int| 0 <= k < i ==> (#[trigger] ids@[k]).0@ == s[k].0 && match (ids@[k].1, s[k].1) {
                    (None, None) => true,
                    (Some(t), Some(p)) => represents(self.spec_nodes(), t, p),
                    _ => false,
                },
            decreases variants@.len() - i,
        {
            let ghost rest = s.subrange(i as int, s.len() as int);
            let ghost before = self.spec_nodes();
            proof {
                assert(rest[0] == s[i as int]);
                assert(rest.subrange(1, rest.len() as int) =~= s.subrange(i + 1, s.len() as int));
            }
            let payload = match &variants[i].1 {
                None => None,
                Some(p) => Some(self.intern_descriptor(&**p)),
            };
            proof {
                assert forall|k: int| 0 <= k < i implies (#[trigger] ids@[k]).0@ == s[k].0 && match (ids@[k].1, s[k].1) {
                    (None, None) => true,
                    (Some(t), Some(p)) => represents(self.spec_nodes(), t, p),
                    _ => false,
                } by {
                    match (ids@[k].1, s[k].1) {
                        (Some(t), Some(p)) => lemma_represents_extend(before, self.spec_nodes(), t, p),
                        _ => {},
                    }
                }
            }
            ids.push((variants[i].0.clone(), payload));
            i = i + 1;
        }
        proof {
            assert forall|a: int, b: int| 0 <= a < b < ids@.len() implies bytes_lt(
                encode_utf8((#[trigger] ids@[a]).0@),
                encode_utf8((#[trigger] ids@[b]).0@),
            ) by {
                assert(crate::metadata::variant_names(s)[a] == s[a].0);
                assert(crate::metadata::variant_names(s)[b] == s[b].0);
            }
            lemma_represents_variants_from_each(self.spec_nodes(), ids@, s);
            assert(s.subrange(i as int, s.len() as int) =~= Seq::<(Seq<char>, Option<DescView>)>::empty());
        }
        ids
    }
}

/// The parts of an interned node are ids already in the graph.
proof fn lemma_interned_refs_below(nodes: Seq<TypeNode>, node: TypeNode, d: DescView)
    requires
        match (node, d) {
            (TypeNode::Array(t), DescView::Array(x)) => represents(nodes, t, *x),
            (TypeNode::Tuple(ts), DescView::Tuple(xs)) => represents_all(nodes, ts@, xs),
            (TypeNode::Struct(fs), DescView::Struct(xs)) => represents_fields(nodes, fs@, xs),
            (TypeNode::Enum(vs), DescView::Enum(xs)) => represents_variants(nodes, vs@, xs),
            (TypeNode::Union(ts), DescView::Union(xs)) => represents_all(nodes, ts@, xs),
            (TypeNode::Function { parameters, result }, DescView::Function(ps, r)) => represents_all(nodes, parameters@, ps) && represents(nodes, result, *r),
            (TypeNode::Ref(_), _) | (TypeNode::Array(_), _) | (TypeNode::Tuple(_), _) | (TypeNode::Struct(_), _)
            | (TypeNode::Enum(_), _) | (TypeNode::Union(_), _) | (TypeNode::Function { .. }, _) => false,
            _ => true,
        },
    ensures
        node_refs_below(node, nodes.len() as int),
{
    match (node, d) {
        (TypeNode::Array(t), DescView::Array(x)) => {
            assert(represents(nodes, t, *x));
        },
        (TypeNode::Tuple(ts), DescView::Tuple(xs)) => lemma_represents_all_below(nodes, ts@, xs),
        (TypeNode::Union(ts), DescView::Union(xs)) => lemma_represents_all_below(nodes, ts@, xs),
        (TypeNode::Struct(fs), DescView::Struct(xs)) => lemma_represents_fields_below(nodes, fs@, xs),
        (TypeNode::Enum(vs), DescView::Enum(xs)) => lemma_represents_variants_below(nodes, vs@, xs),
        (TypeNode::Function { parameters, result }, DescView::Function(ps, r)) => {
            lemma_represents_all_below(nodes, parameters@, ps);
            assert(represents(nodes, result, *r));
        },
        _ => {},
    }
}

proof fn lemma_represents_all_below(nodes: Seq<TypeNode>, ts: Seq<TypeId>, xs: Seq<DescView>)
    requires
        represents_all(nodes, ts, xs),
    ensures
        forall|k: int| 0 <= k < ts.len() ==> (#[trigger] ts[k]).0 < nodes.len(),
    decreases xs.len(),
{
    if xs.len() > 0 {
        let ts1 = ts.subrange(1, ts.len() as int);
        lemma_represents_all_below(nodes, ts1, xs.subrange(1, xs.len() as int));
        assert(represents(nodes, ts[0], xs[0]));
        assert forall|k: int| 0 <= k < ts.len() implies (#[trigger] ts[k]).0 < nodes.len() by {
            if k > 0 {
                assert(ts[k] == ts1[k - 1]);
            }
        }
    }
}

proof fn lemma_represents_fields_below(nodes: Seq<TypeNode>, fs: Seq<(String, TypeId)>, xs: Seq<(Seq<char>, DescView)>)
    requires
        represents_fields(nodes, fs, xs),
    ensures
        forall|k: int| 0 <= k < fs.len() ==> (#[trigger] fs[k]).1.0 < nodes.len(),
    decreases xs.len(),
{
    if xs.len() > 0 {
        let fs1 = fs.subrange(1, fs.len() as int);
        lemma_represents_fields_below(nodes, fs1, xs.subrange(1, xs.len() as int));
        assert(represents(nodes, fs[0].1, xs[0].1));
        assert forall|k: int| 0 <= k < fs.len() implies (#[trigger] fs[k]).1.0 < nodes.len() by {
            if k > 0 {
                assert(fs[k] == fs1[k - 1]);
            }
        }
    }
}

proof fn lemma_represents_variants_below(nodes: Seq<TypeNode>, vs: Seq<(String, Option<TypeId>)>, xs: Seq<(Seq<char>, Option<DescView>)>)
    requires
        represents_variants(nodes, vs, xs),
    ensures
        forall|k: int| 0 <= k < vs.len() ==> ((#[trigger] vs[k]).1 matches Some(t) ==> t.0 < nodes.len()),
    decreases xs.len(),
{
    if xs.len() > 0 {
        let vs1 = vs.subrange(1, vs.len() as int);
        lemma_represents_variants_below(nodes, vs1, xs.subrange(1, xs.len() as int));
        match (vs[0].1, xs[0].1) {
            (Some(t), Some(p)) => {
                assert(represents(nodes, t, p));
            },
            _ => {},
        }
        assert forall|k: int| 0 <= k < vs.len() implies ((#[trigger] vs[k]).1 matches Some(t) ==> t.0 < nodes.len()) by {
            if k > 0 {
                assert(vs[k] == vs1[k - 1]);
            }
        }
    }
}

/// After a node is appended for `d`, the appended node represents `d`.
proof fn lemma_represents_parts_extend(before: Seq<TypeNode>, after: Seq<TypeNode>, node: TypeNode, d: DescView)
    requires
        after == before.push(node),
        before.len() < u32::MAX,
        match (node, d) {
            (TypeNode::Any, DescView::Any) => true,
            (TypeNode::Int, DescView::Int) => true,
            (TypeNode::Float, DescView::Float) => true,
            (TypeNode::String, DescView::String) => true,
            (TypeNode::Bytes, DescView::Bytes) => true,
            (TypeNode::Atom(a), DescView::Atom(v)) => atom_view(a) == v,
            (TypeNode::Array(t), DescView::Array(x)) => represents(before, t, *x),
            (TypeNode::Tuple(ts), DescView::Tuple(xs)) => represents_all(before, ts@, xs),
            (TypeNode::Struct(fs), DescView::Struct(xs)) => represents_fields(before, fs@, xs),
            (TypeNode::Enum(vs), DescView::Enum(xs)) => represents_variants(before, vs@, xs),
            (TypeNode::Union(ts), DescView::Union(xs)) => represents_all(before, ts@, xs),
            (TypeNode::Function { parameters, result }, DescView::Function(ps, r)) => represents_all(before, parameters@, ps) && represents(before, result, *r),
            _ => false,
        },
    ensures
        represents(after, TypeId(before.len() as u32), d),
{
    assert forall|i: int| 0 <= i < before.len() implies after[i] == before[i] by {}
    match (node, d) {
        (TypeNode::Array(t), DescView::Array(x)) => lemma_represents_extend(before, after, t, *x),
        (TypeNode::Tuple(ts), DescView::Tuple(xs)) => lemma_represents_all_extend(before, after, ts@, xs),
        (TypeNode::Struct(fs), DescView::Struct(xs)) => lemma_represents_fields_extend(before, after, fs@, xs),
        (TypeNode::Enum(vs), DescView::Enum(xs)) => lemma_represents_variants_extend(before, after, vs@, xs),
        (TypeNode::Union(ts), DescView::Union(xs)) => lemma_represents_all_extend(before, after, ts@, xs),
        (TypeNode::Function { parameters, result }, DescView::Function(ps, r)) => {
            lemma_represents_all_extend(before, after, parameters@, ps);
            lemma_represents_extend(before, after, result, *r);
        },
        _ => {},
    }
}

// ---------------------------------------------------------------------------
// Incompatibility and assignability agree.

/// The names of fields, in order.
pub open spec fn field_names(fs: Seq<(Seq<char>, DescView)>) -> Seq<Seq<char>> {
    fs.map_values(|f: (Seq<char>, DescView)| f.0)
}

/// The names of variants, in order.
pub open spec fn variant_names(vs: Seq<(Seq<char>, Option<DescView>)>) -> Seq<Seq<char>> {
    vs.map_values(|v: (Seq<char>, Option<DescView>)| v.0)
}

/// No struct or enum, at any depth, names a field or variant twice, as
/// for descriptors whose fields and variants come from ordered maps.
pub open spec fn well_named(d: DescView) -> bool
    decreases d,
{
    match d {
        DescView::Array(x) => well_named(*x),
        DescView::Tuple(xs) => all_well_named(xs),
        DescView::Union(xs) => all_well_named(xs),
        DescView::Struct(fs) => field_names(fs).no_duplicates() && fields_well_named(fs),
        DescView::Enum(vs) => variant_names(vs).no_duplicates() && variants_well_named(vs),
        DescView::Function(ps, r) => all_well_named(ps) && well_named(*r),
        _ => true,
    }
}

pub open spec fn all_well_named(xs: Seq<DescView>) -> bool
    decreases xs,
{
    xs.len() == 0 || (well_named(xs[0]) && all_well_named(xs.subrange(1, xs.len() as int)))
}

pub open spec fn fields_well_named(fs: Seq<(Seq<char>, DescView)>) -> bool
    decreases fs,
{
    fs.len() == 0 || (well_named(fs[0].1) && fields_well_named(fs.subrange(1, fs.len() as int)))
}

pub open spec fn variants_well_named(vs: Seq<(Seq<char>, Option<DescView>)>) -> bool
    decreases vs,
{
    vs.len() == 0 || ((match vs[0].1 {
        None => true,
        Some(p) => well_named(p),
    }) && variants_well_named(vs.subrange(1, vs.len() as int)))
}

proof fn lemma_all_well_named(xs: Seq<DescView>, i: int)
    requires
        all_well_named(xs),
        0 <= i < xs.len(),
    ensures
        well_named(xs[i]),
    decreases i,
{
    if i > 0 {
        lemma_all_well_named(xs.subrange(1, xs.len() as int), i - 1);
    }
}

proof fn lemma_fields_well_named(fs: Seq<(Seq<char>, DescView)>, i: int)
    requires
        fields_well_named(fs),
        0 <= i < fs.len(),
    ensures
        well_named(fs[i].1),
    decreases i,
{
    if i > 0 {
        lemma_fields_well_named(fs.subrange(1, fs.len() as int), i - 1);
    }
}

proof fn lemma_variants_well_named(vs: Seq<(Seq<char>, Option<DescView>)>, i: int)
    requires
        variants_well_named(vs),
        0 <= i < vs.len(),
    ensures
        vs[i].1 matches Some(p) ==> well_named(p),
    decreases i,
{
    if i > 0 {
        lemma_variants_well_named(vs.subrange(1, vs.len() as int), i - 1);
    }
}

/// Of two duplicate-free name lists, where every name of `ne` is in `na`,
/// every name of `na` is in `ne` exactly when both are equally long.
proof fn lemma_names_cover(na: Seq<Seq<char>>, ne: Seq<Seq<char>>)
    requires
        na.no_duplicates(),
        ne.no_duplicates(),
        forall|k: int| 0 <= k < ne.len() ==> na.contains(#[trigger] ne[k]),
    ensures
        (forall|k: int| 0 <= k < na.len() ==> ne.contains(#[trigger] na[k])) <==> na.len() == ne.len(),
{
    let sa = na.to_set();
    let se = ne.to_set();
    na.unique_seq_to_set();
    ne.unique_seq_to_set();
    vstd::seq_lib::seq_to_set_is_finite(na);
    vstd::seq_lib::seq_to_set_is_finite(ne);
    assert(se.subset_of(sa)) by {
        assert forall|x: Seq<char>| se.contains(x) implies sa.contains(x) by {
            let k = choose|k: int| 0 <= k < ne.len() && ne[k] == x;
            assert(na.contains(ne[k]));
        }
    }
    if forall|k: int| 0 <= k < na.len() ==> ne.contains(#[trigger] na[k]) {
        assert forall|x: Seq<char>| sa.contains(x) implies se.contains(x) by {
            let k = choose|k: int| 0 <= k < na.len() && na[k] == x;
            assert(ne.contains(na[k]));
        }
        assert(sa =~= se);
    }
    if na.len() == ne.len() {
        vstd::set_lib::lemma_subset_equality(se, sa);
        assert forall|k: int| 0 <= k < na.len() implies ne.contains(#[trigger] na[k]) by {
            assert(sa.contains(na[k]));
            assert(se.contains(na[k]));
        }
    }
}

/// A field name of `fs` has a position in it.
proof fn lemma_field_names(fs: Seq<(Seq<char>, DescView)>, name: Seq<char>)
    ensures
        field_position(fs, name) is Some <==> field_names(fs).contains(name),
{
    lemma_field_position(fs, name);
    if field_position(fs, name) is Some {
        let i = field_position(fs, name)->Some_0;
        assert(field_names(fs)[i] == name);
    }
    if field_names(fs).contains(name) {
        let k = choose|k: int| 0 <= k < field_names(fs).len() && field_names(fs)[k] == name;
        assert(fs[k].0 == name);
    }
}

/// A variant name of `vs` has a position in it.
proof fn lemma_variant_names(vs: Seq<(Seq<char>, Option<DescView>)>, name: Seq<char>)
    ensures
        variant_position(vs, name) is Some <==> variant_names(vs).contains(name),
{
    lemma_variant_position(vs, name);
    if variant_position(vs, name) is Some {
        let i = variant_position(vs, name)->Some_0;
        assert(variant_names(vs)[i] == name);
    }
    if variant_names(vs).contains(name) {
        let k = choose|k: int| 0 <= k < variant_names(vs).len() && variant_names(vs)[k] == name;
        assert(vs[k].0 == name);
    }
}

/// No extra field exactly when every field name of `actual` is expected.
proof fn lemma_extra_field(actual: Seq<(Seq<char>, DescView)>, expected: Seq<(Seq<char>, DescView)>)
    ensures
        extra_field(actual, expected) is None <==> forall|k: int|
            0 <= k < actual.len() ==> field_names(expected).contains(#[trigger] actual[k].0),
    decreases actual.len(),
{
    if actual.len() > 0 {
        let rest = actual.subrange(1, actual.len() as int);
        lemma_extra_field(rest, expected);
        lemma_field_names(expected, actual[0].0);
        if forall|k: int| 0 <= k < actual.len() ==> field_names(expected).contains(#[trigger] actual[k].0) {
            assert forall|k: int| 0 <= k < rest.len() implies field_names(expected).contains(#[trigger] rest[k].0) by {
                assert(rest[k] == actual[k + 1]);
            }
        }
        if extra_field(actual, expected) is None {
            assert forall|k: int| 0 <= k < actual.len() implies field_names(expected).contains(#[trigger] actual[k].0) by {
                if k > 0 {
                    assert(rest[k - 1] == actual[k]);
                }
            }
        }
    }
}

/// No extra variant exactly when every variant name of `actual` is expected.
proof fn lemma_extra_variant(actual: Seq<(Seq<char>, Option<DescView>)>, expected: Seq<(Seq<char>, Option<DescView>)>)
    ensures
        extra_variant(actual, expected) is None <==> forall|k: int|
            0 <= k < actual.len() ==> variant_names(expected).contains(#[trigger] actual[k].0),
    decreases actual.len(),
{
    if actual.len() > 0 {
        let rest = actual.subrange(1, actual.len() as int);
        lemma_extra_variant(rest, expected);
        lemma_variant_names(expected, actual[0].0);
        if forall|k: int| 0 <= k < actual.len() ==> variant_names(expected).contains(#[trigger] actual[k].0) {
            assert forall|k: int| 0 <= k < rest.len() implies variant_names(expected).contains(#[trigger] rest[k].0) by {
                assert(rest[k] == actual[k + 1]);
            }
        }
        if extra_variant(actual, expected) is None {
            assert forall|k: int| 0 <= k < actual.len() implies variant_names(expected).contains(#[trigger] actual[k].0) by {
                if k > 0 {
                    assert(rest[k - 1] == actual[k]);
                }
            }
        }
    }
}

/// When the expected fields all fit, each expected name is an actual one.
proof fn lemma_fields_fit_names(actual: Seq<(Seq<char>, DescView)>, expected: Seq<(Seq<char>, DescView)>)
    requires
        fields_fit(actual, expected),
    ensures
        forall|k: int| 0 <= k < expected.len() ==> field_names(actual).contains(#[trigger] field_names(expected)[k]),
    decreases expected.len(),
{
    if expected.len() > 0 {
        let rest = expected.subrange(1, expected.len() as int);
        lemma_field_names(actual, expected[0].0);
        lemma_fields_fit_names(actual, rest);
        assert forall|k: int| 0 <= k < expected.len() implies field_names(actual).contains(#[trigger] field_names(expected)[k]) by {
            if k > 0 {
                assert(field_names(expected)[k] == field_names(rest)[k - 1]);
            }
        }
    }
}

/// When the expected variants all fit, each expected name is an actual one.
proof fn lemma_variants_fit_names(actual: Seq<(Seq<char>, Option<DescView>)>, expected: Seq<(Seq<char>, Option<DescView>)>)
    requires
        variants_fit(actual, expected),
    ensures
        forall|k: int| 0 <= k < expected.len() ==> variant_names(actual).contains(#[trigger] variant_names(expected)[k]),
    decreases expected.len(),
{
    if expected.len() > 0 {
        let rest = expected.subrange(1, expected.len() as int);
        lemma_variant_names(actual, expected[0].0);
        lemma_variants_fit_names(actual, rest);
        assert forall|k: int| 0 <= k < expected.len() implies variant_names(actual).contains(#[trigger] variant_names(expected)[k]) by {
            if k > 0 {
                assert(variant_names(expected)[k] == variant_names(rest)[k - 1]);
            }
        }
    }
}

/// For types whose structs and enums never repeat a name, an
/// incompatibility path exists exactly when the actual type does not fit
/// the expected one.
pub proof fn lemma_incompatible_exactly_when_not_assignable(a: DescView, e: DescView)
    requires
        well_named(a),
        well_named(e),
    ensures
        mismatch(a, e) is None <==> assignable_view(a, e),
    decreases rank(a) + rank(e), 0nat,
{
    match (a, e) {
        (DescView::Any, _) => {},
        (_, DescView::Any) => {},
        (DescView::Struct(xs), DescView::Struct(ys)) => {
            lemma_fields_agree(xs, ys);
            lemma_extra_field(xs, ys);
            if fields_fit(xs, ys) {
                lemma_fields_fit_names(xs, ys);
                assert forall|k: int| 0 <= k < field_names(ys).len() implies field_names(xs).contains(#[trigger] field_names(ys)[k]) by {}
                lemma_names_cover(field_names(xs), field_names(ys));
                if forall|k: int| 0 <= k < xs.len() ==> field_names(ys).contains(#[trigger] xs[k].0) {
                    assert forall|k: int| 0 <= k < field_names(xs).len() implies field_names(ys).contains(#[trigger] field_names(xs)[k]) by {
                        assert(field_names(xs)[k] == xs[k].0);
                    }
                }
                if forall|k: int| 0 <= k < field_names(xs).len() ==> field_names(ys).contains(#[trigger] field_names(xs)[k]) {
                    assert forall|k: int| 0 <= k < xs.len() implies field_names(ys).contains(#[trigger] xs[k].0) by {
                        assert(field_names(xs)[k] == xs[k].0);
                    }
                }
            }
        },
        (DescView::Enum(xs), DescView::Enum(ys)) => {
            lemma_variants_agree(xs, ys);
            lemma_extra_variant(xs, ys);
            if variants_fit(xs, ys) {
                lemma_variants_fit_names(xs, ys);
                lemma_names_cover(variant_names(xs), variant_names(ys));
                if forall|k: int| 0 <= k < xs.len() ==> variant_names(ys).contains(#[trigger] xs[k].0) {
                    assert forall|k: int| 0 <= k < variant_names(xs).len() implies variant_names(ys).contains(#[trigger] variant_names(xs)[k]) by {
                        assert(variant_names(xs)[k] == xs[k].0);
                    }
                }
                if forall|k: int| 0 <= k < variant_names(xs).len() ==> variant_names(ys).contains(#[trigger] variant_names(xs)[k]) {
                    assert forall|k: int| 0 <= k < xs.len() implies variant_names(ys).contains(#[trigger] xs[k].0) by {
                        assert(variant_names(xs)[k] == xs[k].0);
                    }
                }
            }
        },
        (DescView::Tuple(xs), DescView::Tuple(ys)) => {
            if xs.len() == ys.len() {
                lemma_items_agree(xs, ys, 0);
            }
        },
        (DescView::Array(x), DescView::Array(y)) => {
            lemma_incompatible_exactly_when_not_assignable(*x, *y);
        },
        _ => {},
    }
}

proof fn lemma_items_agree(xs: Seq<DescView>, ys: Seq<DescView>, k: int)
    requires
        all_well_named(xs),
        all_well_named(ys),
        xs.len() == ys.len(),
    ensures
        items_mismatch(xs, ys, k) is None <==> zip_fit(xs, ys),
    decreases rank_seq(xs) + rank_seq(ys), 1nat,
{
    if xs.len() > 0 {
        lemma_rank_seq(xs, 0);
        lemma_rank_seq(ys, 0);
        lemma_all_well_named(xs, 0);
        lemma_all_well_named(ys, 0);
        lemma_incompatible_exactly_when_not_assignable(xs[0], ys[0]);
        lemma_items_agree(xs.subrange(1, xs.len() as int), ys.subrange(1, ys.len() as int), k + 1);
    }
}

proof fn lemma_fields_agree(actual: Seq<(Seq<char>, DescView)>, expected: Seq<(Seq<char>, DescView)>)
    requires
        fields_well_named(actual),
        fields_well_named(expected),
    ensures
        fields_mismatch(actual, expected) is None <==> fields_fit(actual, expected),
    decreases rank_fields(actual) + rank_fields(expected), 1nat,
{
    if expected.len() > 0 {
        match field_position(actual, expected[0].0) {
            None => {},
            Some(i) => {
                lemma_field_position(actual, expected[0].0);
                lemma_rank_fields(actual, i);
                lemma_rank_fields(expected, 0);
                lemma_fields_well_named(actual, i);
                lemma_fields_well_named(expected, 0);
                lemma_incompatible_exactly_when_not_assignable(actual[i].1, expected[0].1);
                lemma_fields_agree(actual, expected.subrange(1, expected.len() as int));
            },
        }
    }
}

proof fn lemma_variants_agree(actual: Seq<(Seq<char>, Option<DescView>)>, expected: Seq<(Seq<char>, Option<DescView>)>)
    requires
        variants_well_named(actual),
        variants_well_named(expected),
    ensures
        variants_mismatch(actual, expected) is None <==> variants_fit(actual, expected),
    decreases rank_variants(actual) + rank_variants(expected), 1nat,
{
    if expected.len() > 0 {
        let rest = expected.subrange(1, expected.len() as int);
        match variant_position(actual, expected[0].0) {
            None => {},
            Some(i) => {
                lemma_variant_position(actual, expected[0].0);
                lemma_rank_variants(actual, i);
                lemma_rank_variants(expected, 0);
                lemma_variants_well_named(actual, i);
                lemma_variants_well_named(expected, 0);
                lemma_variants_agree(actual, rest);
                match (actual[i].1, expected[0].1) {
                    (Some(x), Some(y)) => {
                        lemma_incompatible_exactly_when_not_assignable(x, y);
                    },
                    _ => {},
                }
            },
        }
    }
}


// ---------------------------------------------------------------------------
// Displaying an interned descriptor.

/// Each id of `ts` represents the matching element of `xs`.
proof fn lemma_represents_all_to_each(nodes: Seq<TypeNode>, ts: Seq<TypeId>, xs: Seq<DescView>)
    requires
        represents_all(nodes, ts, xs),
    ensures
        ts.len() == xs.len(),
        forall|k: int| 0 <= k < xs.len() ==> represents(nodes, #[trigger] ts[k], xs[k]),
    decreases xs.len(),
{
    if xs.len() > 0 {
        let ts1 = ts.subrange(1, ts.len() as int);
        let xs1 = xs.subrange(1, xs.len() as int);
        lemma_represents_all_to_each(nodes, ts1, xs1);
        assert forall|k: int| 0 <= k < xs.len() implies represents(nodes, #[trigger] ts[k], xs[k]) by {
            if k > 0 {
                assert(ts1[k - 1] == ts[k]);
                assert(xs1[k - 1] == xs[k]);
            }
        }
    }
}

/// Each field of `fs` has the name and represents the type of the matching
/// field of `xs`.
proof fn lemma_represents_fields_to_each(nodes: Seq<TypeNode>, fs: Seq<(String, TypeId)>, xs: Seq<(Seq<char>, DescView)>)
    requires
        represents_fields(nodes, fs, xs),
    ensures
        fs.len() == xs.len(),
        forall|k: int| 0 <= k < xs.len() ==> (#[trigger] fs[k]).0@ == xs[k].0 && represents(nodes, fs[k].1, xs[k].1),
    decreases xs.len(),
{
    if xs.len() > 0 {
        let fs1 = fs.subrange(1, fs.len() as int);
        let xs1 = xs.subrange(1, xs.len() as int);
        lemma_represents_fields_to_each(nodes, fs1, xs1);
        assert forall|k: int| 0 <= k < xs.len() implies (#[trigger] fs[k]).0@ == xs[k].0 && represents(nodes, fs[k].1, xs[k].1) by {
            if k > 0 {
                assert(fs1[k - 1] == fs[k]);
                assert(xs1[k - 1] == xs[k]);
            }
        }
    }
}

/// Each variant of `vs` has the name and represents the payload of the
/// matching variant of `xs`.
proof fn lemma_represents_variants_to_each(
    nodes: Seq<TypeNode>,
    vs: Seq<(String, Option<TypeId>)>,
    xs: Seq<(Seq<char>, Option<DescView>)>,
)
    requires
        represents_variants(nodes, vs, xs),
    ensures
        vs.len() == xs.len(),
        forall|k: int| 0 <= k < xs.len() ==> (#[trigger] vs[k]).0@ == xs[k].0 && match (vs[k].1, xs[k].1) {
            (None, None) => true,
            (Some(t), Some(p)) => represents(nodes, t, p),
            _ => false,
        },
    decreases xs.len(),
{
    if xs.len() > 0 {
        let vs1 = vs.subrange(1, vs.len() as int);
        let xs1 = xs.subrange(1, xs.len() as int);
        lemma_represents_variants_to_each(nodes, vs1, xs1);
        assert forall|k: int| 0 <= k < xs.len() implies (#[trigger] vs[k]).0@ == xs[k].0 && match (vs[k].1, xs[k].1) {
            (None, None) => true,
            (Some(t), Some(p)) => represents(nodes, t, p),
            _ => false,
        } by {
            if k > 0 {
                assert(vs1[k - 1] == vs[k]);
                assert(xs1[k - 1] == xs[k]);
            }
        }
    }
}

/// A node represents at most one descriptor.
pub proof fn lemma_represents_unique(nodes: Seq<TypeNode>, id: TypeId, x: DescView, y: DescView)
    requires
        represents(nodes, id, x),
        represents(nodes, id, y),
    ensures
        x == y,
    decreases rank(x), 1nat,
{
    match (nodes[id.0 as int], x, y) {
        (TypeNode::Array(t), DescView::Array(a), DescView::Array(b)) => {
            lemma_represents_unique(nodes, t, *a, *b);
        },
        (TypeNode::Tuple(ts), DescView::Tuple(xs), DescView::Tuple(ys)) => {
            lemma_unique_all(nodes, ts@, xs, ys);
        },
        (TypeNode::Union(ts), DescView::Union(xs), DescView::Union(ys)) => {
            lemma_unique_all(nodes, ts@, xs, ys);
        },
        (TypeNode::Struct(fs), DescView::Struct(xs), DescView::Struct(ys)) => {
            lemma_represents_fields_to_each(nodes, fs@, xs);
            lemma_represents_fields_to_each(nodes, fs@, ys);
            assert forall|k: int| 0 <= k < xs.len() implies #[trigger] xs[k] == ys[k] by {
                lemma_rank_fields(xs, k);
                assert(fs@[k].0@ == xs[k].0);
                lemma_represents_unique(nodes, fs@[k].1, xs[k].1, ys[k].1);
            }
            assert(xs =~= ys);
        },
        (TypeNode::Enum(vs), DescView::Enum(xs), DescView::Enum(ys)) => {
            lemma_represents_variants_to_each(nodes, vs@, xs);
            lemma_represents_variants_to_each(nodes, vs@, ys);
            assert forall|k: int| 0 <= k < xs.len() implies #[trigger] xs[k] == ys[k] by {
                lemma_rank_variants(xs, k);
                assert(vs@[k].0@ == xs[k].0);
                match (vs@[k].1, xs[k].1, ys[k].1) {
                    (Some(t), Some(p), Some(q)) => {
                        lemma_represents_unique(nodes, t, p, q);
                    },
                    _ => {},
                }
            }
            assert(xs =~= ys);
        },
        (
            TypeNode::Function { parameters, result },
            DescView::Function(xs, xr),
            DescView::Function(ys, yr),
        ) => {
            lemma_unique_all(nodes, parameters@, xs, ys);
            lemma_represents_unique(nodes, result, *xr, *yr);
        },
        _ => {},
    }
}

/// Ids represent at most one list of descriptors, each smaller than its
/// container.
proof fn lemma_unique_all(nodes: Seq<TypeNode>, ts: Seq<TypeId>, xs: Seq<DescView>, ys: Seq<DescView>)
    requires
        represents_all(nodes, ts, xs),
        represents_all(nodes, ts, ys),
    ensures
        xs == ys,
    decreases rank_seq(xs) + 1, 0nat,
{
    lemma_represents_all_to_each(nodes, ts, xs);
    lemma_represents_all_to_each(nodes, ts, ys);
    assert forall|k: int| 0 <= k < xs.len() implies #[trigger] xs[k] == ys[k] by {
        lemma_rank_seq(xs, k);
        lemma_represents_unique(nodes, ts[k], xs[k], ys[k]);
    }
    assert(xs =~= ys);
}

/// Every node being displayed above the current one represents a larger
/// descriptor than `r` measures.
pub open spec fn ancestors_above(nodes: Seq<TypeNode>, active: Seq<bool>, r: nat) -> bool {
    forall|t: TypeId|
        t.0 < active.len() && #[trigger] active[t.0 as int] ==> exists|y: DescView| represents(nodes, t, y) && rank(y) > r
}

/// Marking the node of `x` as displayed keeps the ancestors above any
/// smaller measure.
proof fn lemma_ancestors_step(nodes: Seq<TypeNode>, active: Seq<bool>, id: TypeId, x: DescView, r: nat)
    requires
        ancestors_above(nodes, active, rank(x)),
        represents(nodes, id, x),
        id.0 < active.len(),
        r < rank(x),
    ensures
        ancestors_above(nodes, active.update(id.0 as int, true), r),
{
    let a = active.update(id.0 as int, true);
    assert forall|t: TypeId| t.0 < a.len() && #[trigger] a[t.0 as int] implies exists|y: DescView| represents(nodes, t, y) && rank(y) > r by {
        if t.0 == id.0 {
            assert(t == id);
        } else {
            assert(active[t.0 as int]);
        }
    }
}

/// The displays of ids that each show as the matching descriptor show as
/// the list of those descriptors.
proof fn lemma_show_list(
    nodes: Seq<TypeNode>,
    names: Seq<(String, TypeId)>,
    ts: Seq<TypeId>,
    ds: Seq<TypeDescriptor>,
    a: Seq<bool>,
    sep: Seq<char>,
)
    requires
        ts.len() == ds.len(),
        forall|k: int| 0 <= k < ts.len() ==> show(nodes, names, #[trigger] ts[k], a) == descriptor_name(ds[k]),
    ensures
        show_list(nodes, names, ts, a, sep) == descriptor_names(ds, sep),
    decreases ts.len(),
{
    if ts.len() > 1 {
        let ts1 = ts.drop_last();
        let ds1 = ds.subrange(0, ds.len() - 1);
        assert forall|k: int| 0 <= k < ts1.len() implies show(nodes, names, #[trigger] ts1[k], a) == descriptor_name(ds1[k]) by {
            assert(ts1[k] == ts[k]);
            assert(ds1[k] == ds[k]);
        }
        lemma_show_list(nodes, names, ts1, ds1, a, sep);
        assert(show(nodes, names, ts[ts.len() - 1], a) == descriptor_name(ds[ds.len() - 1]));
    } else if ts.len() == 1 {
        assert(show(nodes, names, ts[0], a) == descriptor_name(ds[0]));
    }
}

/// Fields that each show as the matching descriptor field show as those
/// fields.
proof fn lemma_show_fields(
    nodes: Seq<TypeNode>,
    names: Seq<(String, TypeId)>,
    fs: Seq<(String, TypeId)>,
    ds: Seq<(String, TypeDescriptor)>,
    a: Seq<bool>,
)
    requires
        fs.len() == ds.len(),
        forall|k: int| 0 <= k < fs.len() ==> (#[trigger] fs[k]).0@ == ds[k].0@ && show(nodes, names, fs[k].1, a) == descriptor_name(ds[k].1),
    ensures
        show_fields(nodes, names, fs, a) == descriptor_fields(ds),
    decreases fs.len(),
{
    if fs.len() > 0 {
        let fs1 = fs.drop_last();
        let ds1 = ds.subrange(0, ds.len() - 1);
        assert forall|k: int| 0 <= k < fs1.len() implies (#[trigger] fs1[k]).0@ == ds1[k].0@ && show(nodes, names, fs1[k].1, a) == descriptor_name(ds1[k].1) by {
            assert(fs1[k] == fs[k]);
            assert(ds1[k] == ds[k]);
        }
        lemma_show_fields(nodes, names, fs1, ds1, a);
        assert(fs[fs.len() - 1].0@ == ds[ds.len() - 1].0@);
    }
}

/// Variants that each show as the matching descriptor variant show as those
/// variants.
proof fn lemma_show_variants(
    nodes: Seq<TypeNode>,
    names: Seq<(String, TypeId)>,
    vs: Seq<(String, Option<TypeId>)>,
    ds: Seq<(String, Option<Box<TypeDescriptor>>)>,
    a: Seq<bool>,
)
    requires
        vs.len() == ds.len(),
        forall|k: int| 0 <= k < vs.len() ==> (#[trigger] vs[k]).0@ == ds[k].0@ && match (vs[k].1, ds[k].1) {
            (None, None) => true,
            (Some(t), Some(p)) => show(nodes, names, t, a) == descriptor_name(*p),
            _ => false,
        },
    ensures
        show_variants(nodes, names, vs, a) == descriptor_variants(ds),
    decreases vs.len(),
{
    if vs.len() > 0 {
        let vs1 = vs.drop_last();
        let ds1 = ds.subrange(0, ds.len() - 1);
        assert forall|k: int| 0 <= k < vs1.len() implies (#[trigger] vs1[k]).0@ == ds1[k].0@ && match (vs1[k].1, ds1[k].1) {
            (None, None) => true,
            (Some(t), Some(p)) => show(nodes, names, t, a) == descriptor_name(*p),
            _ => false,
        } by {
            assert(vs1[k] == vs[k]);
            assert(ds1[k] == ds[k]);
        }
        lemma_show_variants(nodes, names, vs1, ds1, a);
        assert(vs[vs.len() - 1].0@ == ds[ds.len() - 1].0@);
    }
}

/// A node that represents `d` shows as `d`'s display name, as long as the
/// nodes being displayed above it represent larger descriptors.
proof fn lemma_show_represented(
    nodes: Seq<TypeNode>,
    names: Seq<(String, TypeId)>,
    id: TypeId,
    d: TypeDescriptor,
    active: Seq<bool>,
)
    requires
        represents(nodes, id, dview(d)),
        active.len() == nodes.len(),
        ancestors_above(nodes, active, rank(dview(d))),
    ensures
        show(nodes, names, id, active) == descriptor_name(d),
    decreases rank(dview(d)), 1int,
{
    let x = dview(d);
    if active[id.0 as int] {
        let y = choose|y: DescView| represents(nodes, id, y) && rank(y) > rank(x);
        lemma_represents_unique(nodes, id, x, y);
        assert(false);
    }
    let a = active.update(id.0 as int, true);
    match d {
        TypeDescriptor::Array(item) => {
            let t = nodes[id.0 as int]->Array_0;
            assert(x == DescView::Array(Box::new(dview(*item))));
            assert(represents(nodes, t, dview(*item)));
            lemma_ancestors_step(nodes, active, id, x, rank(dview(*item)));
            lemma_show_represented(nodes, names, t, *item, a);
            assert(nodes[id.0 as int] == TypeNode::Array(t));
            assert(show(nodes, names, id, active) == "Array<"@ + show(nodes, names, t, a) + seq!['>']);
            assert(descriptor_name(d) == "Array<"@ + descriptor_name(*item) + seq!['>']);
        },
        TypeDescriptor::Tuple(items) => {
            let ts = nodes[id.0 as int]->Tuple_0;
            lemma_show_items(nodes, names, id, ts@, items@, active, x);
            assert(nodes[id.0 as int] == TypeNode::Tuple(ts));
            assert(show_list(nodes, names, ts@, a, comma()) == descriptor_names(items@, comma()));
        },
        TypeDescriptor::Union(items) => {
            let ts = nodes[id.0 as int]->Union_0;
            lemma_show_items(nodes, names, id, ts@, items@, active, x);
            assert(nodes[id.0 as int] == TypeNode::Union(ts));
            assert(show_list(nodes, names, ts@, a, " | "@) == descriptor_names(items@, " | "@));
        },
        TypeDescriptor::Struct(fields) => {
            let fs = nodes[id.0 as int]->Struct_0;
            lemma_dfields(fields@);
            lemma_represents_fields_to_each(nodes, fs@, dfields(fields@));
            assert forall|k: int| 0 <= k < fs@.len() implies (#[trigger] fs@[k]).0@ == fields@[k].0@ && show(nodes, names, fs@[k].1, a) == descriptor_name(fields@[k].1) by {
                assert(dfields(fields@)[k] == (fields@[k].0@, dview(fields@[k].1)));
                lemma_rank_fields(dfields(fields@), k);
                lemma_ancestors_step(nodes, active, id, x, rank(dview(fields@[k].1)));
                lemma_show_represented(nodes, names, fs@[k].1, fields@[k].1, a);
            }
            lemma_show_fields(nodes, names, fs@, fields@, a);
        },
        TypeDescriptor::Enum(variants) => {
            let vs = nodes[id.0 as int]->Enum_0;
            lemma_dvariants(variants@);
            lemma_represents_variants_to_each(nodes, vs@, dvariants(variants@));
            assert forall|k: int| 0 <= k < vs@.len() implies (#[trigger] vs@[k]).0@ == variants@[k].0@ && match (vs@[k].1, variants@[k].1) {
                (None, None) => true,
                (Some(t), Some(p)) => show(nodes, names, t, a) == descriptor_name(*p),
                _ => false,
            } by {
                lemma_rank_variants(dvariants(variants@), k);
                match (vs@[k].1, variants@[k].1) {
                    (Some(t), Some(p)) => {
                        lemma_ancestors_step(nodes, active, id, x, rank(dview(*p)));
                        lemma_show_represented(nodes, names, t, *p, a);
                    },
                    _ => {},
                }
            }
            lemma_show_variants(nodes, names, vs@, variants@, a);
        },
        TypeDescriptor::Function { parameters, result } => {
            let (ps, r) = match nodes[id.0 as int] {
                TypeNode::Function { parameters, result } => (parameters, result),
                _ => arbitrary(),
            };
            lemma_show_items(nodes, names, id, ps@, parameters@, active, x);
            lemma_ancestors_step(nodes, active, id, x, rank(dview(*result)));
            lemma_show_represented(nodes, names, r, *result, a);
            assert(nodes[id.0 as int] == TypeNode::Function { parameters: ps, result: r });
            assert(show_list(nodes, names, ps@, a, comma()) == descriptor_names(parameters@, comma()));
        },
        TypeDescriptor::Atom(atom) => {
            let b = nodes[id.0 as int]->Atom_0;
            assert(atom_view(b) == atom_view(atom));
            assert(b.spec_name() == atom.spec_name());
            assert(show(nodes, names, id, active) == descriptor_name(d));
        },
        _ => {},
    }
}

/// The items of a tuple, union or parameter list each show as the matching
/// descriptor.
proof fn lemma_show_items(
    nodes: Seq<TypeNode>,
    names: Seq<(String, TypeId)>,
    id: TypeId,
    ts: Seq<TypeId>,
    items: Seq<TypeDescriptor>,
    active: Seq<bool>,
    x: DescView,
)
    requires
        represents_all(nodes, ts, dviews(items)),
        represents(nodes, id, x),
        id.0 < active.len(),
        active.len() == nodes.len(),
        ancestors_above(nodes, active, rank(x)),
        rank_seq(dviews(items)) < rank(x),
    ensures
        ts.len() == items.len(),
        forall|k: int| 0 <= k < ts.len() ==> show(nodes, names, #[trigger] ts[k], active.update(id.0 as int, true))
            == descriptor_name(items[k]),
        forall|sep: Seq<char>| #[trigger] show_list(nodes, names, ts, active.update(id.0 as int, true), sep)
            == descriptor_names(items, sep),
    decreases rank(x), 0int,
{
    let a = active.update(id.0 as int, true);
    lemma_dviews(items);
    lemma_represents_all_to_each(nodes, ts, dviews(items));
    assert forall|k: int| 0 <= k < ts.len() implies show(nodes, names, #[trigger] ts[k], a) == descriptor_name(items[k]) by {
        lemma_rank_seq(dviews(items), k);
        lemma_ancestors_step(nodes, active, id, x, rank(dview(items[k])));
        lemma_show_represented(nodes, names, ts[k], items[k], a);
    }
    assert forall|sep: Seq<char>| #[trigger] show_list(nodes, names, ts, a, sep) == descriptor_names(items, sep) by {
        lemma_show_list(nodes, names, ts, items, a, sep);
    }
}

/// Displaying the node that represents a descriptor (as the node that
/// [`TypeGraph::intern_descriptor`] returns does) gives the descriptor's
/// [`TypeDescriptor::display_name`].
pub proof fn law_display_interned(g: TypeGraph, id: TypeId, d: TypeDescriptor)
    requires
        represents(g.spec_nodes(), id, dview(d)),
    ensures
        show(g.spec_nodes(), g.spec_names(), id, Seq::new(g.spec_nodes().len(), |i: int| false)) == descriptor_name(d),
{
    let active = Seq::new(g.spec_nodes().len(), |i: int| false);
    assert(ancestors_above(g.spec_nodes(), active, rank(dview(d))));
    lemma_show_represented(g.spec_nodes(), g.spec_names(), id, d, active);
}

} // verus!

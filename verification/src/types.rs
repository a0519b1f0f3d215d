//! The graph of types computed for a program, and its textual display.

use vstd::prelude::*;
use crate::value::{lemma_utf8_injective, Atom};
use vstd::string::StringSliceAdditionalSpecFns;
use vstd::utf8::encode_utf8;
use crate::text::{bytes_lt, compare_str, lemma_bytes_lt_irreflexive, lemma_bytes_lt_transitive};

verus! {

/// Index of a node in a [`TypeGraph`].
#[derive(Clone, Copy, Debug, PartialEq, Eq, Structural, Hash, PartialOrd, Ord)]
pub struct TypeId(pub u32);

impl TypeId {
    /// The position of the node in the graph.
    pub fn index(self) -> (i: usize)
        ensures
            i == self.0,
    {
        self.0 as usize
    }
}

/// One node of a type graph. Struct fields and enum variants are kept
/// sorted by name, as in an ordered map.
#[derive(Clone, Debug)]
pub enum TypeNode {
    Pending,
    Ref(TypeId),
    Any,
    Int,
    Float,
    String,
    Bytes,
    Atom(Atom),
    Array(TypeId),
    Tuple(Vec<TypeId>),
    Struct(Vec<(String, TypeId)>),
    Enum(Vec<(String, Option<TypeId>)>),
    Union(Vec<TypeId>),
    Function { parameters: Vec<TypeId>, result: TypeId },
}

/// Number of `false` entries.
pub open spec fn count_false(s: Seq<bool>) -> nat
    decreases s.len(),
{
    if s.len() == 0 {
        0
    } else {
        count_false(s.drop_last()) + if s.last() {
            0nat
        } else {
            1nat
        }
    }
}

pub proof fn lemma_count_false_update(s: Seq<bool>, i: int)
    requires
        0 <= i < s.len(),
        !s[i],
    ensures
        count_false(s.update(i, true)) + 1 == count_false(s),
    decreases s.len(),
{
    let t = s.update(i, true);
    if i < s.len() - 1 {
        assert(t.drop_last() == s.drop_last().update(i, true));
        lemma_count_false_update(s.drop_last(), i);
    } else {
        assert(t.drop_last() == s.drop_last());
    }
}

/// The first name (in name order) bound to `id`, if any.
pub open spec fn name_of(names: Seq<(String, TypeId)>, id: TypeId) -> Option<Seq<char>>
    decreases names.len(),
{
    if names.len() == 0 {
        None
    } else if names[0].1 == id {
        Some(names[0].0@)
    } else {
        name_of(names.drop_first(), id)
    }
}

/// `", "`
pub open spec fn comma() -> Seq<char> {
    seq![',', ' ']
}

/// The display of node `id`: nodes already being displayed (`active`) show
/// as their first name, or `recursive`.
pub open spec fn show(
    nodes: Seq<TypeNode>,
    names: Seq<(String, TypeId)>,
    id: TypeId,
    active: Seq<bool>,
) -> Seq<char>
    decreases count_false(active), 0nat, 0nat,
{
    if id.0 >= nodes.len() || active.len() != nodes.len() {
        Seq::empty()
    } else if active[id.0 as int] {
        match name_of(names, id) {
            Some(n) => n,
            None => "recursive"@,
        }
    } else {
        let a = active.update(id.0 as int, true);
        proof {
            lemma_count_false_update(active, id.0 as int);
        }
        match nodes[id.0 as int] {
            TypeNode::Pending => "<pending>"@,
            TypeNode::Ref(t) => show(nodes, names, t, a),
            TypeNode::Any => "Any"@,
            TypeNode::Int => "Int"@,
            TypeNode::Float => "Float"@,
            TypeNode::String => "String"@,
            TypeNode::Bytes => "Bytes"@,
            TypeNode::Atom(atom) => seq!['\''] + atom.spec_name(),
            TypeNode::Array(item) => "Array<"@ + show(nodes, names, item, a) + seq!['>'],
            TypeNode::Tuple(items) => seq!['('] + show_list(nodes, names, items@, a, comma())
                + seq![')'],
            TypeNode::Struct(fields) => seq!['{'] + show_fields(nodes, names, fields@, a) + seq![
                '}',
            ],
            TypeNode::Enum(variants) => "enum {"@ + show_variants(nodes, names, variants@, a)
                + seq!['}'],
            TypeNode::Union(items) => show_list(nodes, names, items@, a, " | "@),
            TypeNode::Function { parameters, result } => "fn("@ + show_list(
                nodes,
                names,
                parameters@,
                a,
                comma(),
            ) + ") -> "@ + show(nodes, names, result, a),
        }
    }
}

/// The displays of `items`, separated by `sep`.
pub open spec fn show_list(
    nodes: Seq<TypeNode>,
    names: Seq<(String, TypeId)>,
    items: Seq<TypeId>,
    active: Seq<bool>,
    sep: Seq<char>,
) -> Seq<char>
    decreases count_false(active), 1nat, items.len(),
{
    if items.len() == 0 {
        Seq::empty()
    } else if items.len() == 1 {
        show(nodes, names, items[0], active)
    } else {
        show_list(nodes, names, items.drop_last(), active, sep) + sep + show(
            nodes,
            names,
            items.last(),
            active,
        )
    }
}

/// `name: type` for each field, separated by `, `.
pub open spec fn show_fields(
    nodes: Seq<TypeNode>,
    names: Seq<(String, TypeId)>,
    fields: Seq<(String, TypeId)>,
    active: Seq<bool>,
) -> Seq<char>
    decreases count_false(active), 1nat, fields.len(),
{
    if fields.len() == 0 {
        Seq::empty()
    } else {
        let last = fields.last();
        let one = last.0@ + seq![':', ' '] + show(nodes, names, last.1, active);
        if fields.len() == 1 {
            one
        } else {
            show_fields(nodes, names, fields.drop_last(), active) + comma() + one
        }
    }
}

/// `name` or `name(type)` for each variant, separated by `, `.
pub open spec fn show_variants(
    nodes: Seq<TypeNode>,
    names: Seq<(String, TypeId)>,
    variants: Seq<(String, Option<TypeId>)>,
    active: Seq<bool>,
) -> Seq<char>
    decreases count_false(active), 1nat, variants.len(),
{
    if variants.len() == 0 {
        Seq::empty()
    } else {
        let last = variants.last();
        let one = match last.1 {
            None => last.0@,
            Some(p) => last.0@ + seq!['('] + show(nodes, names, p, active) + seq![')'],
        };
        if variants.len() == 1 {
            one
        } else {
            show_variants(nodes, names, variants.drop_last(), active) + comma() + one
        }
    }
}

/// Every type id a node mentions.
pub open spec fn node_refs_below(node: TypeNode, n: int) -> bool {
    match node {
        TypeNode::Ref(t) => t.0 < n,
        TypeNode::Array(t) => t.0 < n,
        TypeNode::Tuple(items) => forall|i: int| 0 <= i < items@.len() ==> (#[trigger] items@[i]).0 < n,
        TypeNode::Union(items) => forall|i: int| 0 <= i < items@.len() ==> (#[trigger] items@[i]).0 < n,
        TypeNode::Struct(fields) => forall|i: int| 0 <= i < fields@.len() ==> (#[trigger] fields@[i]).1.0 < n,
        TypeNode::Enum(variants) => forall|i: int|
            0 <= i < variants@.len() ==> ((#[trigger] variants@[i]).1 matches Some(t) ==> t.0 < n),
        TypeNode::Function { parameters, result } => result.0 < n && forall|i: int|
            0 <= i < parameters@.len() ==> (#[trigger] parameters@[i]).0 < n,
        _ => true,
    }
}

/// The fields of a struct node and the variants of an enum node are named
/// in strictly increasing byte order, as the keys of an ordered map.
pub open spec fn node_keys_ordered(node: TypeNode) -> bool {
    match node {
        TypeNode::Struct(fields) => names_in_order(fields@),
        TypeNode::Enum(variants) => names_in_order(variants@),
        _ => true,
    }
}

/// The id that `names` binds to `name`: that of its first entry of that name.
pub open spec fn bound_id<I>(names: Seq<(String, I)>, name: Seq<char>) -> Option<I>
    decreases names.len(),
{
    if names.len() == 0 {
        None
    } else if names[0].0@ == name {
        Some(names[0].1)
    } else {
        bound_id(names.drop_first(), name)
    }
}

/// Entry names strictly increase in byte order, so none occurs twice.
pub open spec fn names_in_order<I>(names: Seq<(String, I)>) -> bool {
    forall|i: int, j: int|
        0 <= i < j < names.len() ==> bytes_lt(
            encode_utf8((#[trigger] names[i]).0@),
            encode_utf8((#[trigger] names[j]).0@),
        )
}

/// Replacing the first entry named like `e` rebinds that name only.
pub proof fn lemma_bound_id_update<I>(s: Seq<(String, I)>, i: int, e: (String, I))
    requires
        0 <= i < s.len(),
        s[i].0@ == e.0@,
        forall|j: int| 0 <= j < i ==> (#[trigger] s[j]).0@ != e.0@,
    ensures
        forall|n: Seq<char>| #[trigger] bound_id(s.update(i, e), n) == if n == e.0@ {
            Some(e.1)
        } else {
            bound_id(s, n)
        },
    decreases i,
{
    let t = s.update(i, e);
    if i == 0 {
        assert(t.drop_first() =~= s.drop_first());
        assert forall|n: Seq<char>| #[trigger] bound_id(t, n) == if n == e.0@ {
            Some(e.1)
        } else {
            bound_id(s, n)
        } by {}
    } else {
        assert(t.drop_first() =~= s.drop_first().update(i - 1, e));
        assert forall|j: int| 0 <= j < i - 1 implies (#[trigger] s.drop_first()[j]).0@ != e.0@ by {
            assert(s.drop_first()[j] == s[j + 1]);
        }
        lemma_bound_id_update(s.drop_first(), i - 1, e);
        assert(s[0].0@ != e.0@);
        assert forall|n: Seq<char>| #[trigger] bound_id(t, n) == if n == e.0@ {
            Some(e.1)
        } else {
            bound_id(s, n)
        } by {
            assert(bound_id(t.drop_first(), n) == bound_id(s.drop_first().update(i - 1, e), n));
        }
    }
}

/// Inserting an entry before any entry of its name binds that name to it and
/// leaves every other name as it was.
pub proof fn lemma_bound_id_insert<I>(s: Seq<(String, I)>, i: int, e: (String, I))
    requires
        0 <= i <= s.len(),
        forall|j: int| 0 <= j < i ==> (#[trigger] s[j]).0@ != e.0@,
    ensures
        forall|n: Seq<char>| #[trigger] bound_id(s.insert(i, e), n) == if n == e.0@ {
            Some(e.1)
        } else {
            bound_id(s, n)
        },
    decreases i,
{
    let t = s.insert(i, e);
    if i == 0 {
        assert(t.drop_first() =~= s);
        assert forall|n: Seq<char>| #[trigger] bound_id(t, n) == if n == e.0@ {
            Some(e.1)
        } else {
            bound_id(s, n)
        } by {}
    } else {
        assert(t.drop_first() =~= s.drop_first().insert(i - 1, e));
        assert forall|j: int| 0 <= j < i - 1 implies (#[trigger] s.drop_first()[j]).0@ != e.0@ by {
            assert(s.drop_first()[j] == s[j + 1]);
        }
        lemma_bound_id_insert(s.drop_first(), i - 1, e);
        assert(s[0].0@ != e.0@);
        assert forall|n: Seq<char>| #[trigger] bound_id(t, n) == if n == e.0@ {
            Some(e.1)
        } else {
            bound_id(s, n)
        } by {
            assert(bound_id(t.drop_first(), n) == bound_id(s.drop_first().insert(i - 1, e), n));
        }
    }
}

/// A name that orders before an entry differs from it.
pub proof fn lemma_before_differs(a: Seq<char>, b: Seq<char>)
    requires
        bytes_lt(encode_utf8(a), encode_utf8(b)),
    ensures
        a != b,
{
    if a == b {
        lemma_bytes_lt_irreflexive(encode_utf8(a));
    }
}

/// Inserting `e` where every earlier entry orders before it and the entry
/// it displaces orders after it keeps the names in order.
pub proof fn lemma_insert_in_order<I>(s: Seq<(String, I)>, i: int, e: (String, I))
    requires
        names_in_order(s),
        0 <= i <= s.len(),
        forall|j: int| 0 <= j < i ==> bytes_lt(encode_utf8((#[trigger] s[j]).0@), encode_utf8(e.0@)),
        i < s.len() ==> bytes_lt(encode_utf8(e.0@), encode_utf8(s[i].0@)),
    ensures
        names_in_order(s.insert(i, e)),
{
    let t = s.insert(i, e);
    assert forall|a: int, b: int| 0 <= a < b < t.len() implies bytes_lt(
        encode_utf8((#[trigger] t[a]).0@),
        encode_utf8((#[trigger] t[b]).0@),
    ) by {
        if b < i {
        } else if b == i {
            assert(t[b] == e);
            assert(t[a] == s[a]);
        } else if a < i {
            assert(t[a] == s[a]);
            assert(t[b] == s[b - 1]);
            if i < s.len() {
                assert(bytes_lt(encode_utf8(s[a].0@), encode_utf8(e.0@)));
                if b - 1 > i {
                    lemma_bytes_lt_transitive(encode_utf8(e.0@), encode_utf8(s[i].0@), encode_utf8(s[b - 1].0@));
                }
                lemma_bytes_lt_transitive(encode_utf8(s[a].0@), encode_utf8(e.0@), encode_utf8(s[b - 1].0@));
            }
        } else if a == i {
            assert(t[a] == e);
            assert(t[b] == s[b - 1]);
            if b - 1 > i {
                lemma_bytes_lt_transitive(encode_utf8(e.0@), encode_utf8(s[i].0@), encode_utf8(s[b - 1].0@));
            }
        } else {
            assert(t[a] == s[a - 1]);
            assert(t[b] == s[b - 1]);
        }
    }
}

/// A graph of type nodes with named entries, names in increasing order.
#[derive(Clone, Debug)]
pub struct TypeGraph {
    nodes: Vec<TypeNode>,
    names: Vec<(String, TypeId)>,
}

impl TypeGraph {
    pub closed spec fn spec_nodes(self) -> Seq<TypeNode> {
        self.nodes@
    }

    pub closed spec fn spec_names(self) -> Seq<(String, TypeId)> {
        self.names@
    }

    /// Every id in the graph names one of its nodes.
    pub closed spec fn wf(self) -> bool {
        &&& self.nodes@.len() <= u32::MAX
        &&& forall|i: int|
            0 <= i < self.nodes@.len() ==> node_refs_below(
                #[trigger] self.nodes@[i],
                self.nodes@.len() as int,
            )
        &&& forall|i: int| 0 <= i < self.nodes@.len() ==> node_keys_ordered(#[trigger] self.nodes@[i])
        &&& forall|i: int|
            0 <= i < self.names@.len() ==> (#[trigger] self.names@[i]).1.0 < self.nodes@.len()
        &&& names_in_order(self.names@)
    }

    /// What a well-formed graph guarantees: node ids in range, struct fields
    /// and enum variants in order, names bound to nodes of the graph and
    /// kept in order.
    pub proof fn lemma_wf(self)
        requires
            self.wf(),
        ensures
            self.spec_nodes().len() <= u32::MAX,
            forall|i: int| 0 <= i < self.spec_nodes().len() ==> node_refs_below(
                #[trigger] self.spec_nodes()[i],
                self.spec_nodes().len() as int,
            ),
            forall|i: int| 0 <= i < self.spec_nodes().len() ==> node_keys_ordered(#[trigger] self.spec_nodes()[i]),
            forall|i: int| 0 <= i < self.spec_names().len() ==> (#[trigger] self.spec_names()[i]).1.0
                < self.spec_nodes().len(),
            names_in_order(self.spec_names()),
    {
    }

    /// An empty graph.
    pub fn new() -> (g: TypeGraph)
        ensures
            g.wf(),
            g.spec_nodes().len() == 0,
            g.spec_names().len() == 0,
    {
        TypeGraph { nodes: Vec::new(), names: Vec::new() }
    }

    /// Adds a node whose ids are already in the graph, and returns its id.
    pub fn push(&mut self, node: TypeNode) -> (id: TypeId)
        requires
            old(self).wf(),
            old(self).spec_nodes().len() < u32::MAX,
            node_refs_below(node, old(self).spec_nodes().len() as int),
            node_keys_ordered(node),
        ensures
            final(self).wf(),
            id.0 == old(self).spec_nodes().len(),
            final(self).spec_nodes() == old(self).spec_nodes().push(node),
            final(self).spec_names() == old(self).spec_names(),
    {
        let id = TypeId(self.nodes.len() as u32);
        self.nodes.push(node);
        proof {
            assert forall|i: int| 0 <= i < self.nodes@.len() implies node_refs_below(
                #[trigger] self.nodes@[i],
                self.nodes@.len() as int,
            ) by {
                lemma_refs_below_grow(self.nodes@[i], old(self).nodes@.len() as int, self.nodes@.len() as int);
            }
        }
        id
    }

    /// Replaces node `id`, for instance a pending node by the type that
    /// refers back to it.
    pub fn set_node(&mut self, id: TypeId, node: TypeNode)
        requires
            old(self).wf(),
            id.0 < old(self).spec_nodes().len(),
            node_refs_below(node, old(self).spec_nodes().len() as int),
            node_keys_ordered(node),
        ensures
            final(self).wf(),
            final(self).spec_nodes() == old(self).spec_nodes().update(id.0 as int, node),
            final(self).spec_names() == old(self).spec_names(),
    {
        self.nodes.set(id.index(), node);
    }

    /// Binds `name` to `id`, replacing an earlier binding of the name;
    /// names stay in byte order.
    pub fn bind(&mut self, name: &str, id: TypeId)
        requires
            old(self).wf(),
            id.0 < old(self).spec_nodes().len(),
        ensures
            final(self).wf(),
            final(self).spec_nodes() == old(self).spec_nodes(),
            forall|n: Seq<char>| #[trigger] bound_id(final(self).spec_names(), n) == if n == name@ {
                Some(id)
            } else {
                bound_id(old(self).spec_names(), n)
            },
    {
        proof {
            assert(name.spec_bytes() == encode_utf8(name@));
        }
        let mut i: usize = 0;
        while i < self.names.len()
            invariant
                self.wf(),
                self.nodes@ == old(self).nodes@,
                self.names@ == old(self).names@,
                i <= self.names@.len(),
                id.0 < self.nodes@.len(),
                name.spec_bytes() == encode_utf8(name@),
                forall|j: int| 0 <= j < i ==> bytes_lt(encode_utf8((#[trigger] self.names@[j]).0@), encode_utf8(name@)),
            decreases self.names@.len() - i,
        {
            let current = self.names[i].0.as_str();
            let c = compare_str(current, name);
            proof {
                assert(current.spec_bytes() == encode_utf8(current@));
            }
            if c == 0 {
                let entry = (String::from_str(name), id);
                proof {
                    lemma_utf8_injective(current@, name@);
                    assert forall|j: int| 0 <= j < i implies (#[trigger] self.names@[j]).0@ != entry.0@ by {
                        lemma_before_differs(self.names@[j].0@, name@);
                    }
                    lemma_bound_id_update(self.names@, i as int, entry);
                }
                self.names.set(i, entry);
                proof {
                    assert forall|q: int| 0 <= q < self.names@.len() implies (#[trigger] self.names@[q]).1.0 < self.nodes@.len() by {
                        if q != i {
                            assert(self.names@[q] == old(self).names@[q]);
                        }
                    }
                    assert forall|a: int, b: int| 0 <= a < b < self.names@.len() implies bytes_lt(
                        encode_utf8((#[trigger] self.names@[a]).0@),
                        encode_utf8((#[trigger] self.names@[b]).0@),
                    ) by {
                        assert(self.names@[a].0@ == old(self).names@[a].0@);
                        assert(self.names@[b].0@ == old(self).names@[b].0@);
                    }
                }
                return;
            }
            if c > 0 {
                let entry = (String::from_str(name), id);
                proof {
                    assert forall|j: int| 0 <= j < i implies (#[trigger] self.names@[j]).0@ != entry.0@ by {
                        lemma_before_differs(self.names@[j].0@, name@);
                    }
                    lemma_bound_id_insert(self.names@, i as int, entry);
                    lemma_insert_in_order(self.names@, i as int, entry);
                }
                self.names.insert(i, entry);
                proof {
                    assert forall|q: int| 0 <= q < self.names@.len() implies (#[trigger] self.names@[q]).1.0 < self.nodes@.len() by {
                        if q < i {
                            assert(self.names@[q] == old(self).names@[q]);
                        } else if q > i {
                            assert(self.names@[q] == old(self).names@[q - 1]);
                        }
                    }
                }
                return;
            }
            i = i + 1;
        }
        let entry = (String::from_str(name), id);
        proof {
            assert forall|j: int| 0 <= j < self.names@.len() implies (#[trigger] self.names@[j]).0@ != entry.0@ by {
                lemma_before_differs(self.names@[j].0@, name@);
            }
            lemma_bound_id_insert(self.names@, self.names@.len() as int, entry);
            lemma_insert_in_order(self.names@, self.names@.len() as int, entry);
            assert(self.names@.insert(self.names@.len() as int, entry) =~= self.names@.push(entry));
        }
        self.names.push(entry);
        proof {
            assert forall|q: int| 0 <= q < self.names@.len() implies (#[trigger] self.names@[q]).1.0 < self.nodes@.len() by {
                if q < self.names@.len() - 1 {
                    assert(self.names@[q] == old(self).names@[q]);
                }
            }
        }
    }

    /// The node `id`.
    pub fn node(&self, id: TypeId) -> (n: &TypeNode)
        requires
            id.0 < self.spec_nodes().len(),
        ensures
            *n == self.spec_nodes()[id.0 as int],
    {
        &self.nodes[id.index()]
    }

    /// The id bound to `name`, if any.
    pub fn named(&self, name: &str) -> (r: Option<TypeId>)
        ensures
            r is Some <==> exists|i: int| 0 <= i < self.spec_names().len() && (#[trigger] self.spec_names()[i]).0@ == name@,
            r is Some ==> exists|i: int| 0 <= i < self.spec_names().len() && (#[trigger] self.spec_names()[i]).0@ == name@ && self.spec_names()[i].1 == r->Some_0,
    {
        let mut i: usize = 0;
        while i < self.names.len()
            invariant
                i <= self.names@.len(),
                forall|j: int| 0 <= j < i ==> (#[trigger] self.names@[j]).0@ != name@,
            decreases self.names@.len() - i,
        {
            let candidate = self.names[i].0.as_str();
            let c = compare_str(candidate, name);
            proof {
                assert(candidate.spec_bytes() == encode_utf8(candidate@));
                assert(name.spec_bytes() == encode_utf8(name@));
                if c == 0 {
                    lemma_utf8_injective(candidate@, name@);
                }
            }
            if c == 0 {
                assert(self.spec_names()[i as int].0@ == name@);
                return Some(self.names[i].1);
            }
            i = i + 1;
        }
        None
    }

    /// The named entries, in name order.
    pub fn names(&self) -> (r: Vec<(String, TypeId)>)
        ensures
            r@.len() == self.spec_names().len(),
            forall|i: int| 0 <= i < r@.len() ==> (#[trigger] r@[i]).0@ == self.spec_names()[i].0@ && r@[i].1 == self.spec_names()[i].1,
    {
        let mut out: Vec<(String, TypeId)> = Vec::new();
        let mut i: usize = 0;
        while i < self.names.len()
            invariant
                i <= self.names@.len(),
                out@.len() == i,
                forall|j: int| 0 <= j < i ==> (#[trigger] out@[j]).0@ == self.names@[j].0@ && out@[j].1 == self.names@[j].1,
            decreases self.names@.len() - i,
        {
            out.push((self.names[i].0.clone(), self.names[i].1));
            i = i + 1;
        }
        out
    }

    /// The nodes with their ids, in id order.
    pub fn nodes(&self) -> (r: Vec<(TypeId, &TypeNode)>)
        requires
            self.wf(),
        ensures
            r@.len() == self.spec_nodes().len(),
            forall|i: int| 0 <= i < r@.len() ==> (#[trigger] r@[i]).0.0 == i && *r@[i].1 == self.spec_nodes()[i],
    {
        let mut out: Vec<(TypeId, &TypeNode)> = Vec::new();
        let mut i: usize = 0;
        while i < self.nodes.len()
            invariant
                self.wf(),
                i <= self.nodes@.len(),
                out@.len() == i,
                forall|j: int| 0 <= j < i ==> (#[trigger] out@[j]).0.0 == j && *out@[j].1 == self.nodes@[j],
            decreases self.nodes@.len() - i,
        {
            out.push((TypeId(i as u32), &self.nodes[i]));
            i = i + 1;
        }
        out
    }

    /// The display of `id`, as `show` describes it: a node reached again
    /// while it is being displayed shows as its first name, or `recursive`.
    pub fn display(&self, id: TypeId) -> (s: String)
        requires
            self.wf(),
            id.0 < self.spec_nodes().len(),
        ensures
            s@ == show(
                self.spec_nodes(),
                self.spec_names(),
                id,
                Seq::new(self.spec_nodes().len(), |i: int| false),
            ),
    {
        let mut active: Vec<bool> = Vec::new();
        let mut i: usize = 0;
        while i < self.nodes.len()
            invariant
                i <= self.nodes@.len(),
                active@ == Seq::new(i as nat, |k: int| false),
            decreases self.nodes@.len() - i,
        {
            active.push(false);
            i = i + 1;
        }
        self.display_with(id, &mut active)
    }

    /// The first name bound to `id`, or `recursive`.
    fn name_or_recursive(&self, id: TypeId) -> (s: String)
        ensures
            s@ == match name_of(self.names@, id) {
                Some(n) => n,
                None => "recursive"@,
            },
    {
        let mut i: usize = 0;
        assert(self.names@.subrange(0, self.names@.len() as int) =~= self.names@);
        while i < self.names.len()
            invariant
                i <= self.names@.len(),
                name_of(self.names@, id) == name_of(self.names@.subrange(i as int, self.names@.len() as int), id),
            decreases self.names@.len() - i,
        {
            proof {
                let t = self.names@.subrange(i as int, self.names@.len() as int);
                assert(t.drop_first() =~= self.names@.subrange(i + 1, self.names@.len() as int));
            }
            if self.names[i].1 == id {
                return self.names[i].0.clone();
            }
            i = i + 1;
        }
        proof {
            reveal_strlit("recursive");
        }
        String::from_str("recursive")
    }

    fn display_with(&self, id: TypeId, active: &mut Vec<bool>) -> (s: String)
        requires
            self.wf(),
            id.0 < self.spec_nodes().len(),
            old(active)@.len() == self.spec_nodes().len(),
        ensures
            final(active)@ == old(active)@,
            s@ == show(self.nodes@, self.names@, id, old(active)@),
        decreases count_false(old(active)@), 0nat, 0nat,
    {
        let k = id.index();
        if active[k] {
            return self.name_or_recursive(id);
        }
        proof {
            lemma_count_false_update(active@, k as int);
        }
        active.set(k, true);
        let ghost a = active@;
        assert(a == old(active)@.update(k as int, true));
        let ghost expected = show(self.nodes@, self.names@, id, old(active)@);
        let shown = match &self.nodes[k] {
            TypeNode::Pending => {
                proof { reveal_strlit("<pending>"); }
                let r = String::from_str("<pending>");
                assert(r@ == expected);
                r
            },
            TypeNode::Ref(t) => {
                let r = self.display_with(*t, active);
                assert(r@ == expected);
                r
            },
            TypeNode::Any => {
                proof { reveal_strlit("Any"); }
                let r = String::from_str("Any");
                assert(r@ == expected);
                r
            },
            TypeNode::Int => {
                proof { reveal_strlit("Int"); }
                let r = String::from_str("Int");
                assert(r@ == expected);
                r
            },
            TypeNode::Float => {
                proof { reveal_strlit("Float"); }
                let r = String::from_str("Float");
                assert(r@ == expected);
                r
            },
            TypeNode::String => {
                proof { reveal_strlit("String"); }
                let r = String::from_str("String");
                assert(r@ == expected);
                r
            },
            TypeNode::Bytes => {
                proof { reveal_strlit("Bytes"); }
                let r = String::from_str("Bytes");
                assert(r@ == expected);
                r
            },
            TypeNode::Atom(atom) => {
                proof { reveal_strlit("'"); }
                let mut s = String::from_str("'");
                s.append(atom.name());
                assert(s@ == expected);
                s
            },
            TypeNode::Array(item) => {
                proof { reveal_strlit("Array<"); reveal_strlit(">"); }
                let mut s = String::from_str("Array<");
                let inner = self.display_with(*item, active);
                s.append(inner.as_str());
                s.append(">");
                assert(s@ == expected);
                s
            },
            TypeNode::Tuple(items) => {
                proof { reveal_strlit("("); reveal_strlit(")"); reveal_strlit(", "); assert(", "@ =~= comma()); }
                let mut s = String::from_str("(");
                let inner = self.display_list(items, active, ", ");
                s.append(inner.as_str());
                s.append(")");
                assert(s@ == expected);
                s
            },
            TypeNode::Struct(fields) => {
                proof { reveal_strlit("{"); reveal_strlit("}"); }
                let mut s = String::from_str("{");
                let inner = self.display_fields(fields, active);
                s.append(inner.as_str());
                s.append("}");
                assert(s@ == expected);
                s
            },
            TypeNode::Enum(variants) => {
                proof { reveal_strlit("enum {"); reveal_strlit("}"); }
                let mut s = String::from_str("enum {");
                let inner = self.display_variants(variants, active);
                s.append(inner.as_str());
                s.append("}");
                assert(s@ == expected);
                s
            },
            TypeNode::Union(items) => {
                proof { reveal_strlit(" | "); }
                let r = self.display_list(items, active, " | ");
                assert(r@ == expected);
                r
            },
            TypeNode::Function { parameters, result } => {
                proof { reveal_strlit("fn("); reveal_strlit(") -> "); reveal_strlit(", "); assert(", "@ =~= comma()); }
                let mut s = String::from_str("fn(");
                let inner = self.display_list(parameters, active, ", ");
                s.append(inner.as_str());
                s.append(") -> ");
                let r = self.display_with(*result, active);
                s.append(r.as_str());
                assert(s@ == expected);
                s
            },
        };
        proof {
            assert(active@ == a);
        }
        active.set(k, false);
        proof {
            assert(active@ =~= old(active)@);
        }
        shown
    }

    fn display_list(&self, items: &Vec<TypeId>, active: &mut Vec<bool>, sep: &str) -> (s: String)
        requires
            self.wf(),
            old(active)@.len() == self.spec_nodes().len(),
            forall|i: int| 0 <= i < items@.len() ==> (#[trigger] items@[i]).0 < self.spec_nodes().len(),
        ensures
            final(active)@ == old(active)@,
            s@ == show_list(self.nodes@, self.names@, items@, old(active)@, sep@),
        decreases count_false(old(active)@), 1nat, items@.len(),
    {
        let mut s = String::new();
        let mut i: usize = 0;
        while i < items.len()
            invariant
                self.wf(),
                active@ == old(active)@,
                active@.len() == self.spec_nodes().len(),
                i <= items@.len(),
                forall|q: int| 0 <= q < items@.len() ==> (#[trigger] items@[q]).0 < self.spec_nodes().len(),
                s@ == show_list(self.nodes@, self.names@, items@.take(i as int), active@, sep@),
            decreases items@.len() - i,
        {
            proof {
                assert(items@.take(i + 1).drop_last() =~= items@.take(i as int));
                assert(items@.take(i + 1).last() == items@[i as int]);
            }
            if i > 0 {
                s.append(sep);
            }
            let shown = self.display_with(items[i], active);
            s.append(shown.as_str());
            proof {
                if i == 0 {
                    assert(items@.take(1) =~= seq![items@[0]]);
                }
            }
            i = i + 1;
        }
        proof {
            assert(items@.take(items@.len() as int) =~= items@);
        }
        s
    }

    fn display_fields(&self, fields: &Vec<(String, TypeId)>, active: &mut Vec<bool>) -> (s: String)
        requires
            self.wf(),
            old(active)@.len() == self.spec_nodes().len(),
            forall|i: int| 0 <= i < fields@.len() ==> (#[trigger] fields@[i]).1.0 < self.spec_nodes().len(),
        ensures
            final(active)@ == old(active)@,
            s@ == show_fields(self.nodes@, self.names@, fields@, old(active)@),
        decreases count_false(old(active)@), 1nat, fields@.len(),
    {
        let mut s = String::new();
        let mut i: usize = 0;
        while i < fields.len()
            invariant
                self.wf(),
                active@ == old(active)@,
                active@.len() == self.spec_nodes().len(),
                i <= fields@.len(),
                forall|q: int| 0 <= q < fields@.len() ==> (#[trigger] fields@[q]).1.0 < self.spec_nodes().len(),
                s@ == show_fields(self.nodes@, self.names@, fields@.take(i as int), active@),
            decreases fields@.len() - i,
        {
            proof {
                assert(fields@.take(i + 1).drop_last() =~= fields@.take(i as int));
                assert(fields@.take(i + 1).last() == fields@[i as int]);
                reveal_strlit(", ");
                reveal_strlit(": ");
            }
            if i > 0 {
                s.append(", ");
            }
            s.append(fields[i].0.as_str());
            s.append(": ");
            let shown = self.display_with(fields[i].1, active);
            s.append(shown.as_str());
            i = i + 1;
        }
        proof {
            assert(fields@.take(fields@.len() as int) =~= fields@);
        }
        s
    }

    fn display_variants(&self, variants: &Vec<(String, Option<TypeId>)>, active: &mut Vec<bool>) -> (s: String)
        requires
            self.wf(),
            old(active)@.len() == self.spec_nodes().len(),
            forall|i: int| 0 <= i < variants@.len() ==> ((#[trigger] variants@[i]).1 matches Some(t) ==> t.0 < self.spec_nodes().len()),
        ensures
            final(active)@ == old(active)@,
            s@ == show_variants(self.nodes@, self.names@, variants@, old(active)@),
        decreases count_false(old(active)@), 1nat, variants@.len(),
    {
        let mut s = String::new();
        let mut i: usize = 0;
        while i < variants.len()
            invariant
                self.wf(),
                active@ == old(active)@,
                active@.len() == self.spec_nodes().len(),
                i <= variants@.len(),
                forall|q: int| 0 <= q < variants@.len() ==> ((#[trigger] variants@[q]).1 matches Some(t) ==> t.0 < self.spec_nodes().len()),
                s@ == show_variants(self.nodes@, self.names@, variants@.take(i as int), active@),
            decreases variants@.len() - i,
        {
            proof {
                assert(variants@.take(i + 1).drop_last() =~= variants@.take(i as int));
                assert(variants@.take(i + 1).last() == variants@[i as int]);
                reveal_strlit(", ");
                reveal_strlit("(");
                reveal_strlit(")");
            }
            if i > 0 {
                s.append(", ");
            }
            s.append(variants[i].0.as_str());
            match variants[i].1 {
                Some(p) => {
                    s.append("(");
                    let shown = self.display_with(p, active);
                    s.append(shown.as_str());
                    s.append(")");
                },
                None => {},
            }
            i = i + 1;
        }
        proof {
            assert(variants@.take(variants@.len() as int) =~= variants@);
        }
        s
    }
}

proof fn lemma_refs_below_grow(node: TypeNode, n: int, m: int)
    requires
        node_refs_below(node, n),
        n <= m,
    ensures
        node_refs_below(node, m),
{
}

// ---------------------------------------------------------------------------
// Assignability.

/// Visited pairs of (actual, expected) types.
pub type Visited = Seq<(TypeId, TypeId)>;

/// Equal atoms: the same built-in atom, or names with the same text.
pub open spec fn atom_equal(p: Atom, q: Atom) -> bool {
    match (p, q) {
        (Atom::Builtin(x), Atom::Builtin(y)) => x == y,
        (Atom::Named(x), Atom::Named(y)) => x@ == y@,
        _ => false,
    }
}

/// Equal leaf nodes: the same scalar type, or equal atom types.
pub open spec fn leaf_equal(x: TypeNode, y: TypeNode) -> bool {
    match (x, y) {
        (TypeNode::Pending, TypeNode::Pending) => true,
        (TypeNode::Int, TypeNode::Int) => true,
        (TypeNode::Float, TypeNode::Float) => true,
        (TypeNode::String, TypeNode::String) => true,
        (TypeNode::Bytes, TypeNode::Bytes) => true,
        (TypeNode::Atom(p), TypeNode::Atom(q)) => atom_equal(p, q),
        _ => false,
    }
}

/// The id of the first field of `fields` named `name`.
pub open spec fn field_lookup(fields: Seq<(String, TypeId)>, name: Seq<char>) -> Option<TypeId>
    decreases fields.len(),
{
    if fields.len() == 0 {
        None
    } else if fields[0].0@ == name {
        Some(fields[0].1)
    } else {
        field_lookup(fields.drop_first(), name)
    }
}

/// The payload of the first variant of `variants` named `name`.
pub open spec fn variant_lookup(variants: Seq<(String, Option<TypeId>)>, name: Seq<char>) -> Option<Option<TypeId>>
    decreases variants.len(),
{
    if variants.len() == 0 {
        None
    } else if variants[0].0@ == name {
        Some(variants[0].1)
    } else {
        variant_lookup(variants.drop_first(), name)
    }
}

/// Whether values of type `a` may stand where type `e` is expected, and the
/// visited pairs afterwards. A pair met again is taken as assignable, so
/// that recursive types compare structurally. References are followed; Any
/// fits both ways; arrays, tuples, structs, enums and functions compare
/// part by part, in order, stopping at the first mismatch; a union fits when
/// each of its members fits, and is expected when one of its members is.
pub open spec fn assign(nodes: Seq<TypeNode>, a: TypeId, e: TypeId, v: Visited) -> (bool, Visited)
    decreases nodes.len() * nodes.len() - v.len(), 0int, 0int,
{
    let n = nodes.len();
    if a.0 >= n || e.0 >= n {
        (false, v)
    } else if v.contains((a, e)) {
        (true, v)
    } else if v.len() >= n * n {
        (true, v)
    } else {
        let v1 = v.push((a, e));
        match (nodes[a.0 as int], nodes[e.0 as int]) {
            (TypeNode::Ref(x), _) => assign(nodes, x, e, v1),
            (_, TypeNode::Ref(y)) => assign(nodes, a, y, v1),
            (TypeNode::Any, _) => (true, v1),
            (_, TypeNode::Any) => (true, v1),
            (TypeNode::Array(x), TypeNode::Array(y)) => assign(nodes, x, y, v1),
            (TypeNode::Tuple(xs), TypeNode::Tuple(ys)) => if xs@.len() == ys@.len() {
                assign_zip(nodes, xs@, ys@, v1)
            } else {
                (false, v1)
            },
            (TypeNode::Struct(xs), TypeNode::Struct(ys)) => if xs@.len() == ys@.len() {
                assign_fields(nodes, xs@, ys@, v1)
            } else {
                (false, v1)
            },
            (TypeNode::Enum(xs), TypeNode::Enum(ys)) => if xs@.len() == ys@.len() {
                assign_variants(nodes, xs@, ys@, v1)
            } else {
                (false, v1)
            },
            (TypeNode::Union(xs), _) => assign_all(nodes, xs@, e, v1),
            (_, TypeNode::Union(ys)) => assign_any(nodes, a, ys@, v1),
            (
                TypeNode::Function { parameters: ap, result: ar },
                TypeNode::Function { parameters: ep, result: er },
            ) => if ap@.len() == ep@.len() {
                let (ok, v2) = assign_zip(nodes, ap@, ep@, v1);
                if !ok {
                    (false, v2)
                } else if v1.len() <= v2.len() <= n * n {
                    assign(nodes, ar, er, v2)
                } else {
                    (false, v2)
                }
            } else {
                (false, v1)
            },
            (x, y) => (leaf_equal(x, y), v1),
        }
    }
}

/// `Any` fits both ways: once references are followed, a value of type
/// `Any` may stand where any type is expected, and a value of any type may
/// stand where `Any` is expected.
pub proof fn law_any_assignable(nodes: Seq<TypeNode>, a: TypeId, e: TypeId)
    requires
        a.0 < nodes.len(),
        e.0 < nodes.len(),
    ensures
        nodes[a.0 as int] is Any && !(nodes[e.0 as int] is Ref) ==> assign(nodes, a, e, Seq::empty()).0,
        nodes[e.0 as int] is Any && !(nodes[a.0 as int] is Ref) ==> assign(nodes, a, e, Seq::empty()).0,
{
    assert(nodes.len() * nodes.len() >= 1) by (nonlinear_arith)
        requires
            nodes.len() >= 1,
    ;
    assert(!Seq::<(TypeId, TypeId)>::empty().contains((a, e)));
}

/// `Any` fits both ways through references: where every reference of the
/// graph points into it, a value of type `Any` may stand where any type is
/// expected, and a value of any type where `Any` is expected, whatever pairs
/// were visited before.
pub proof fn law_any_through_refs(nodes: Seq<TypeNode>, a: TypeId, e: TypeId, v: Visited)
    requires
        a.0 < nodes.len(),
        e.0 < nodes.len(),
        forall|i: int| 0 <= i < nodes.len() ==> (#[trigger] nodes[i] matches TypeNode::Ref(t) ==> t.0 < nodes.len()),
        nodes[a.0 as int] is Any || nodes[e.0 as int] is Any,
    ensures
        assign(nodes, a, e, v).0,
    decreases nodes.len() * nodes.len() - v.len(),
{
    if !v.contains((a, e)) && v.len() < nodes.len() * nodes.len() {
        let v1 = v.push((a, e));
        match (nodes[a.0 as int], nodes[e.0 as int]) {
            (TypeNode::Ref(x), _) => {
                assert(nodes[a.0 as int] matches TypeNode::Ref(t) ==> t.0 < nodes.len());
                law_any_through_refs(nodes, x, e, v1);
            },
            (_, TypeNode::Ref(y)) => {
                assert(nodes[e.0 as int] matches TypeNode::Ref(t) ==> t.0 < nodes.len());
                law_any_through_refs(nodes, a, y, v1);
            },
            _ => {},
        }
    }
}

/// `a` leads to `z` by following `k` references.
pub open spec fn reaches(nodes: Seq<TypeNode>, a: TypeId, z: TypeId, k: nat) -> bool
    decreases k,
{
    if k == 0 {
        a == z
    } else {
        a.0 < nodes.len() && (nodes[a.0 as int] matches TypeNode::Ref(t) && reaches(nodes, t, z, (k - 1) as nat))
    }
}

/// `Any` fits both ways once references are followed: where the actual or
/// the expected type leads by references to an `Any` node, the two are
/// assignable, whatever pairs were visited before.
pub proof fn law_any_reached_through_refs(nodes: Seq<TypeNode>, a: TypeId, e: TypeId, z: TypeId, k: nat, v: Visited)
    requires
        a.0 < nodes.len(),
        e.0 < nodes.len(),
        z.0 < nodes.len(),
        forall|i: int| 0 <= i < nodes.len() ==> (#[trigger] nodes[i] matches TypeNode::Ref(t) ==> t.0 < nodes.len()),
        nodes[z.0 as int] is Any,
        reaches(nodes, a, z, k) || reaches(nodes, e, z, k),
    ensures
        assign(nodes, a, e, v).0,
    decreases nodes.len() * nodes.len() - v.len(), k,
{
    if !v.contains((a, e)) && v.len() < nodes.len() * nodes.len() {
        let v1 = v.push((a, e));
        match (nodes[a.0 as int], nodes[e.0 as int]) {
            (TypeNode::Ref(x), _) => {
                assert(nodes[a.0 as int] matches TypeNode::Ref(t) ==> t.0 < nodes.len());
                if reaches(nodes, a, z, k) {
                    assert(k > 0);
                    law_any_reached_through_refs(nodes, x, e, z, (k - 1) as nat, v1);
                } else {
                    law_any_reached_through_refs(nodes, x, e, z, k, v1);
                }
            },
            (_, TypeNode::Ref(y)) => {
                assert(nodes[e.0 as int] matches TypeNode::Ref(t) ==> t.0 < nodes.len());
                if reaches(nodes, a, z, k) {
                    assert(k == 0);
                    assert(reaches(nodes, a, z, 0));
                    law_any_reached_through_refs(nodes, a, y, z, 0, v1);
                } else {
                    assert(k > 0);
                    law_any_reached_through_refs(nodes, a, y, z, (k - 1) as nat, v1);
                }
            },
            _ => {
                if reaches(nodes, a, z, k) {
                    assert(k == 0);
                } else {
                    assert(k == 0);
                }
            },
        }
    }
}

/// Comparing never forgets a visited pair and never records more pairs than
/// the graph has.
proof fn lemma_assign_grows(nodes: Seq<TypeNode>, a: TypeId, e: TypeId, v: Visited)
    requires
        v.len() <= nodes.len() * nodes.len(),
    ensures
        v.len() <= assign(nodes, a, e, v).1.len() <= nodes.len() * nodes.len(),
    decreases nodes.len() * nodes.len() - v.len(), 0int, 0int,
{
    let n = nodes.len();
    if a.0 < n && e.0 < n && !v.contains((a, e)) && v.len() < n * n {
        let v1 = v.push((a, e));
        match (nodes[a.0 as int], nodes[e.0 as int]) {
            (TypeNode::Ref(x), _) => lemma_assign_grows(nodes, x, e, v1),
            (_, TypeNode::Ref(y)) => lemma_assign_grows(nodes, a, y, v1),
            (TypeNode::Any, _) => {},
            (_, TypeNode::Any) => {},
            (TypeNode::Array(x), TypeNode::Array(y)) => lemma_assign_grows(nodes, x, y, v1),
            (TypeNode::Tuple(xs), TypeNode::Tuple(ys)) => lemma_zip_grows(nodes, xs@, ys@, v1),
            (TypeNode::Struct(xs), TypeNode::Struct(ys)) => lemma_fields_grow(nodes, xs@, ys@, v1),
            (TypeNode::Enum(xs), TypeNode::Enum(ys)) => lemma_variants_grow(nodes, xs@, ys@, v1),
            (TypeNode::Union(xs), _) => lemma_all_grows(nodes, xs@, e, v1),
            (_, TypeNode::Union(ys)) => lemma_any_grows(nodes, a, ys@, v1),
            (
                TypeNode::Function { parameters: ap, result: ar },
                TypeNode::Function { parameters: ep, result: er },
            ) => {
                lemma_zip_grows(nodes, ap@, ep@, v1);
                let v2 = assign_zip(nodes, ap@, ep@, v1).1;
                if v1.len() <= v2.len() <= n * n {
                    lemma_assign_grows(nodes, ar, er, v2);
                }
            },
            _ => {},
        }
    }
}

proof fn lemma_zip_grows(nodes: Seq<TypeNode>, xs: Seq<TypeId>, ys: Seq<TypeId>, v: Visited)
    requires
        v.len() <= nodes.len() * nodes.len(),
    ensures
        v.len() <= assign_zip(nodes, xs, ys, v).1.len() <= nodes.len() * nodes.len(),
    decreases nodes.len() * nodes.len() - v.len(), 1int, xs.len(),
{
    if xs.len() > 0 && ys.len() > 0 {
        lemma_assign_grows(nodes, xs[0], ys[0], v);
        let (ok, v2) = assign(nodes, xs[0], ys[0], v);
        if ok && v.len() <= v2.len() <= nodes.len() * nodes.len() {
            lemma_zip_grows(nodes, xs.drop_first(), ys.drop_first(), v2);
        }
    }
}

proof fn lemma_fields_grow(nodes: Seq<TypeNode>, actual: Seq<(String, TypeId)>, expected: Seq<(String, TypeId)>, v: Visited)
    requires
        v.len() <= nodes.len() * nodes.len(),
    ensures
        v.len() <= assign_fields(nodes, actual, expected, v).1.len() <= nodes.len() * nodes.len(),
    decreases nodes.len() * nodes.len() - v.len(), 1int, expected.len(),
{
    if expected.len() > 0 {
        if let Some(t) = field_lookup(actual, expected[0].0@) {
            lemma_assign_grows(nodes, t, expected[0].1, v);
            let (ok, v2) = assign(nodes, t, expected[0].1, v);
            if ok && v.len() <= v2.len() <= nodes.len() * nodes.len() {
                lemma_fields_grow(nodes, actual, expected.drop_first(), v2);
            }
        }
    }
}

proof fn lemma_variants_grow(
    nodes: Seq<TypeNode>,
    actual: Seq<(String, Option<TypeId>)>,
    expected: Seq<(String, Option<TypeId>)>,
    v: Visited,
)
    requires
        v.len() <= nodes.len() * nodes.len(),
    ensures
        v.len() <= assign_variants(nodes, actual, expected, v).1.len() <= nodes.len() * nodes.len(),
    decreases nodes.len() * nodes.len() - v.len(), 1int, expected.len(),
{
    if expected.len() > 0 {
        if let Some(pa) = variant_lookup(actual, expected[0].0@) {
            match (pa, expected[0].1) {
                (None, None) => lemma_variants_grow(nodes, actual, expected.drop_first(), v),
                (Some(x), Some(y)) => {
                    lemma_assign_grows(nodes, x, y, v);
                    let (ok, v2) = assign(nodes, x, y, v);
                    if ok && v.len() <= v2.len() <= nodes.len() * nodes.len() {
                        lemma_variants_grow(nodes, actual, expected.drop_first(), v2);
                    }
                },
                _ => {},
            }
        }
    }
}

proof fn lemma_all_grows(nodes: Seq<TypeNode>, xs: Seq<TypeId>, e: TypeId, v: Visited)
    requires
        v.len() <= nodes.len() * nodes.len(),
    ensures
        v.len() <= assign_all(nodes, xs, e, v).1.len() <= nodes.len() * nodes.len(),
    decreases nodes.len() * nodes.len() - v.len(), 1int, xs.len(),
{
    if xs.len() > 0 {
        lemma_assign_grows(nodes, xs[0], e, v);
        let (ok, v2) = assign(nodes, xs[0], e, v);
        if ok && v.len() <= v2.len() <= nodes.len() * nodes.len() {
            lemma_all_grows(nodes, xs.drop_first(), e, v2);
        }
    }
}

proof fn lemma_any_grows(nodes: Seq<TypeNode>, a: TypeId, ys: Seq<TypeId>, v: Visited)
    requires
        v.len() <= nodes.len() * nodes.len(),
    ensures
        v.len() <= assign_any(nodes, a, ys, v).1.len() <= nodes.len() * nodes.len(),
    decreases nodes.len() * nodes.len() - v.len(), 1int, ys.len(),
{
    if ys.len() > 0 {
        lemma_assign_grows(nodes, a, ys[0], v);
        let (ok, v2) = assign(nodes, a, ys[0], v);
        if !ok && v.len() <= v2.len() <= nodes.len() * nodes.len() {
            lemma_any_grows(nodes, a, ys.drop_first(), v2);
        }
    }
}

/// `x` fits `y` by a derivation of depth at most `d`: the same node, a
/// reference on either side followed, a member of an expected union, or
/// every member of an actual union.
spec fn fits(nodes: Seq<TypeNode>, x: TypeId, y: TypeId, d: int) -> bool
    decreases d, 0int,
{
    &&& x.0 < nodes.len()
    &&& y.0 < nodes.len()
    &&& (x == y || (d > 0 && (
        (nodes[x.0 as int] matches TypeNode::Ref(t) && fits(nodes, t, y, d - 1))
        || (nodes[y.0 as int] matches TypeNode::Ref(t) && fits(nodes, x, t, d - 1))
        || (nodes[y.0 as int] matches TypeNode::Union(es) && fits_some(nodes, x, es@, d - 1))
        || (nodes[x.0 as int] matches TypeNode::Union(xs) && fits_every(nodes, xs@, y, d - 1)))))
}

/// `x` fits some member of `es`.
spec fn fits_some(nodes: Seq<TypeNode>, x: TypeId, es: Seq<TypeId>, d: int) -> bool
    decreases d, es.len() + 1,
{
    es.len() > 0 && (fits(nodes, x, es[0], d) || fits_some(nodes, x, es.drop_first(), d))
}

/// Every member of `xs` fits `y`.
spec fn fits_every(nodes: Seq<TypeNode>, xs: Seq<TypeId>, y: TypeId, d: int) -> bool
    decreases d, xs.len() + 1,
{
    xs.len() == 0 || (fits(nodes, xs[0], y, d) && fits_every(nodes, xs.drop_first(), y, d))
}

proof fn lemma_fits_some(nodes: Seq<TypeNode>, x: TypeId, es: Seq<TypeId>, d: int)
    ensures
        fits_some(nodes, x, es, d) <==> exists|j: int| 0 <= j < es.len() && #[trigger] fits(nodes, x, es[j], d),
    decreases es.len(),
{
    if es.len() > 0 {
        assert(fits_some(nodes, x, es, d) == (fits(nodes, x, es[0], d) || fits_some(nodes, x, es.drop_first(), d)));
        lemma_fits_some(nodes, x, es.drop_first(), d);
        if exists|j: int| 0 <= j < es.len() && #[trigger] fits(nodes, x, es[j], d) {
            let j = choose|j: int| 0 <= j < es.len() && #[trigger] fits(nodes, x, es[j], d);
            if j > 0 {
                assert(es.drop_first()[j - 1] == es[j]);
            }
        }
        if fits_some(nodes, x, es.drop_first(), d) {
            let j = choose|j: int| 0 <= j < es.drop_first().len() && #[trigger] fits(nodes, x, es.drop_first()[j], d);
            assert(es.drop_first()[j] == es[j + 1]);
        }
    }
}

proof fn lemma_fits_every(nodes: Seq<TypeNode>, xs: Seq<TypeId>, y: TypeId, d: int)
    ensures
        fits_every(nodes, xs, y, d) <==> forall|i: int| 0 <= i < xs.len() ==> #[trigger] fits(nodes, xs[i], y, d),
    decreases xs.len(),
{
    if xs.len() > 0 {
        assert(fits_every(nodes, xs, y, d) == (fits(nodes, xs[0], y, d) && fits_every(nodes, xs.drop_first(), y, d)));
        lemma_fits_every(nodes, xs.drop_first(), y, d);
        if forall|i: int| 0 <= i < xs.len() ==> #[trigger] fits(nodes, xs[i], y, d) {
            assert forall|i: int| 0 <= i < xs.drop_first().len() implies #[trigger] fits(nodes, xs.drop_first()[i], y, d) by {
                assert(xs.drop_first()[i] == xs[i + 1]);
            }
        }
        if fits_every(nodes, xs, y, d) {
            assert forall|i: int| 0 <= i < xs.len() implies #[trigger] fits(nodes, xs[i], y, d) by {
                if i > 0 {
                    assert(xs.drop_first()[i - 1] == xs[i]);
                }
            }
        }
    }
}

/// Every reference of every node points into the graph, and fields and
/// variants are named in order.
spec fn graph_ok(nodes: Seq<TypeNode>) -> bool {
    forall|i: int|
        0 <= i < nodes.len() ==> node_refs_below(#[trigger] nodes[i], nodes.len() as int) && node_keys_ordered(nodes[i])
}

proof fn lemma_fits_mono(nodes: Seq<TypeNode>, x: TypeId, y: TypeId, d: int)
    requires
        0 <= d,
        fits(nodes, x, y, d),
    ensures
        fits(nodes, x, y, d + 1),
    decreases d,
{
    if x != y {
        assert(d > 0);
        let d1 = d - 1;
        if nodes[x.0 as int] is Ref && fits(nodes, nodes[x.0 as int]->Ref_0, y, d1) {
            lemma_fits_mono(nodes, nodes[x.0 as int]->Ref_0, y, d1);
        } else if nodes[y.0 as int] is Ref && fits(nodes, x, nodes[y.0 as int]->Ref_0, d1) {
            lemma_fits_mono(nodes, x, nodes[y.0 as int]->Ref_0, d1);
        } else if nodes[y.0 as int] is Union && fits_some(nodes, x, nodes[y.0 as int]->Union_0@, d1) {
            let es = nodes[y.0 as int]->Union_0;
            lemma_fits_some(nodes, x, es@, d1);
            let j = choose|j: int| 0 <= j < es@.len() && #[trigger] fits(nodes, x, es@[j], d1);
            lemma_fits_mono(nodes, x, es@[j], d1);
            lemma_fits_some(nodes, x, es@, d);
        } else {
            let xs = nodes[x.0 as int]->Union_0;
            lemma_fits_every(nodes, xs@, y, d1);
            assert forall|i: int| 0 <= i < xs@.len() implies #[trigger] fits(nodes, xs@[i], y, d) by {
                lemma_fits_mono(nodes, xs@[i], y, d1);
            }
            lemma_fits_every(nodes, xs@, y, d);
        }
    }
}

/// Following a reference of the actual side keeps the fit.
proof fn lemma_fits_ref_actual(nodes: Seq<TypeNode>, x: TypeId, y: TypeId, d: int, t: TypeId)
    requires
        0 <= d,
        fits(nodes, x, y, d),
        nodes[x.0 as int] == TypeNode::Ref(t),
        t.0 < nodes.len(),
    ensures
        fits(nodes, t, y, d + 1),
    decreases d,
{
    if x == y {
        assert(fits(nodes, t, t, d));
    } else {
        assert(d > 0);
        let d1 = d - 1;
        if fits(nodes, t, y, d1) {
            lemma_fits_mono(nodes, t, y, d1);
            lemma_fits_mono(nodes, t, y, d);
        } else if nodes[y.0 as int] is Ref && fits(nodes, x, nodes[y.0 as int]->Ref_0, d1) {
            lemma_fits_ref_actual(nodes, x, nodes[y.0 as int]->Ref_0, d1, t);
        } else {
            let es = nodes[y.0 as int]->Union_0;
            lemma_fits_some(nodes, x, es@, d1);
            let j = choose|j: int| 0 <= j < es@.len() && #[trigger] fits(nodes, x, es@[j], d1);
            lemma_fits_ref_actual(nodes, x, es@[j], d1, t);
            lemma_fits_some(nodes, t, es@, d);
        }
    }
}

/// Following a reference of the expected side keeps the fit.
proof fn lemma_fits_ref_expected(nodes: Seq<TypeNode>, x: TypeId, y: TypeId, d: int, t: TypeId)
    requires
        0 <= d,
        fits(nodes, x, y, d),
        nodes[y.0 as int] == TypeNode::Ref(t),
        t.0 < nodes.len(),
    ensures
        fits(nodes, x, t, d + 1),
    decreases d,
{
    if x == y {
        assert(fits(nodes, t, t, d));
    } else {
        assert(d > 0);
        let d1 = d - 1;
        if fits(nodes, x, t, d1) {
            lemma_fits_mono(nodes, x, t, d1);
            lemma_fits_mono(nodes, x, t, d);
        } else if nodes[x.0 as int] is Ref && fits(nodes, nodes[x.0 as int]->Ref_0, y, d1) {
            lemma_fits_ref_expected(nodes, nodes[x.0 as int]->Ref_0, y, d1, t);
        } else {
            let xs = nodes[x.0 as int]->Union_0;
            lemma_fits_every(nodes, xs@, y, d1);
            assert forall|i: int| 0 <= i < xs@.len() implies #[trigger] fits(nodes, xs@[i], t, d) by {
                lemma_fits_ref_expected(nodes, xs@[i], y, d1, t);
            }
            lemma_fits_every(nodes, xs@, t, d);
        }
    }
}

/// Each member of an actual union fits where the union fits.
proof fn lemma_fits_union_actual(nodes: Seq<TypeNode>, x: TypeId, y: TypeId, d: int, xs: Seq<TypeId>, i: int)
    requires
        0 <= d,
        fits(nodes, x, y, d),
        nodes[x.0 as int] matches TypeNode::Union(m) && m@ == xs,
        0 <= i < xs.len(),
        xs[i].0 < nodes.len(),
    ensures
        fits(nodes, xs[i], y, d + 1),
    decreases d,
{
    if x == y {
        assert(fits(nodes, xs[i], xs[i], d));
        lemma_fits_some(nodes, xs[i], xs, d);
    } else {
        assert(d > 0);
        let d1 = d - 1;
        if fits_every(nodes, xs, y, d1) {
            lemma_fits_every(nodes, xs, y, d1);
            lemma_fits_mono(nodes, xs[i], y, d1);
            lemma_fits_mono(nodes, xs[i], y, d);
        } else if nodes[y.0 as int] is Ref && fits(nodes, x, nodes[y.0 as int]->Ref_0, d1) {
            lemma_fits_union_actual(nodes, x, nodes[y.0 as int]->Ref_0, d1, xs, i);
        } else {
            let es = nodes[y.0 as int]->Union_0;
            lemma_fits_some(nodes, x, es@, d1);
            let j = choose|j: int| 0 <= j < es@.len() && #[trigger] fits(nodes, x, es@[j], d1);
            lemma_fits_union_actual(nodes, x, es@[j], d1, xs, i);
            lemma_fits_some(nodes, xs[i], es@, d);
        }
    }
}

/// Lookup by the name of one of the fields of an ordered struct finds that
/// field.
proof fn lemma_field_lookup_own(fields: Seq<(String, TypeId)>, k: int)
    requires
        names_in_order(fields),
        0 <= k < fields.len(),
    ensures
        field_lookup(fields, fields[k].0@) == Some(fields[k].1),
    decreases k,
{
    if k > 0 {
        if fields[0].0@ == fields[k].0@ {
            lemma_bytes_lt_irreflexive(encode_utf8(fields[0].0@));
        }
        assert(fields.drop_first()[k - 1] == fields[k]);
        lemma_field_lookup_own(fields.drop_first(), k - 1);
    }
}

/// Lookup by the name of one of the variants of an ordered enum finds that
/// variant.
proof fn lemma_variant_lookup_own(variants: Seq<(String, Option<TypeId>)>, k: int)
    requires
        names_in_order(variants),
        0 <= k < variants.len(),
    ensures
        variant_lookup(variants, variants[k].0@) == Some(variants[k].1),
    decreases k,
{
    if k > 0 {
        if variants[0].0@ == variants[k].0@ {
            lemma_bytes_lt_irreflexive(encode_utf8(variants[0].0@));
        }
        assert(variants.drop_first()[k - 1] == variants[k]);
        lemma_variant_lookup_own(variants.drop_first(), k - 1);
    }
}

/// A fitting pair is assignable, whatever pairs were visited before.
proof fn lemma_fits_assign(nodes: Seq<TypeNode>, x: TypeId, y: TypeId, d: int, v: Visited)
    requires
        graph_ok(nodes),
        0 <= d,
        fits(nodes, x, y, d),
        v.len() <= nodes.len() * nodes.len(),
    ensures
        assign(nodes, x, y, v).0,
    decreases nodes.len() * nodes.len() - v.len(), 0int, 0int,
{
    let n = nodes.len();
    if !v.contains((x, y)) && v.len() < n * n {
        let v1 = v.push((x, y));
        assert(node_refs_below(nodes[x.0 as int], n as int) && node_keys_ordered(nodes[x.0 as int]));
        assert(node_refs_below(nodes[y.0 as int], n as int));
        match (nodes[x.0 as int], nodes[y.0 as int]) {
            (TypeNode::Ref(t), _) => {
                lemma_fits_ref_actual(nodes, x, y, d, t);
                lemma_fits_assign(nodes, t, y, d + 1, v1);
            },
            (_, TypeNode::Ref(t)) => {
                lemma_fits_ref_expected(nodes, x, y, d, t);
                lemma_fits_assign(nodes, x, t, d + 1, v1);
            },
            (TypeNode::Any, _) => {},
            (_, TypeNode::Any) => {},
            (TypeNode::Array(a), TypeNode::Array(_)) => {
                assert(x == y);
                lemma_fits_assign(nodes, a, a, 0, v1);
            },
            (TypeNode::Tuple(xs), TypeNode::Tuple(_)) => {
                assert(x == y);
                lemma_zip_same(nodes, xs@, v1);
            },
            (TypeNode::Struct(fs), TypeNode::Struct(_)) => {
                assert(x == y);
                assert(fs@.subrange(0, fs@.len() as int) =~= fs@);
                lemma_fields_same(nodes, fs@, 0, v1);
            },
            (TypeNode::Enum(vs), TypeNode::Enum(_)) => {
                assert(x == y);
                assert(vs@.subrange(0, vs@.len() as int) =~= vs@);
                lemma_variants_same(nodes, vs@, 0, v1);
            },
            (TypeNode::Union(xs), _) => {
                assert forall|i: int| 0 <= i < xs@.len() implies #[trigger] fits(nodes, xs@[i], y, d + 1) by {
                    lemma_fits_union_actual(nodes, x, y, d, xs@, i);
                }
                lemma_all_fit(nodes, xs@, y, d + 1, v1);
            },
            (_, TypeNode::Union(es)) => {
                assert(x != y);
                lemma_fits_some(nodes, x, es@, d - 1);
                let j = choose|j: int| 0 <= j < es@.len() && #[trigger] fits(nodes, x, es@[j], d - 1);
                lemma_any_fits(nodes, x, es@, j, d - 1, v1);
            },
            (
                TypeNode::Function { parameters: ap, result: ar },
                TypeNode::Function { parameters: _, result: _ },
            ) => {
                assert(x == y);
                lemma_zip_same(nodes, ap@, v1);
                lemma_zip_grows(nodes, ap@, ap@, v1);
                let v2 = assign_zip(nodes, ap@, ap@, v1).1;
                lemma_fits_assign(nodes, ar, ar, 0, v2);
            },
            _ => {
                assert(x == y);
            },
        }
    }
}

/// Each id of `xs` against itself is assignable.
proof fn lemma_zip_same(nodes: Seq<TypeNode>, xs: Seq<TypeId>, v: Visited)
    requires
        graph_ok(nodes),
        forall|k: int| 0 <= k < xs.len() ==> (#[trigger] xs[k]).0 < nodes.len(),
        v.len() <= nodes.len() * nodes.len(),
    ensures
        assign_zip(nodes, xs, xs, v).0,
    decreases nodes.len() * nodes.len() - v.len(), 1int, xs.len(),
{
    if xs.len() > 0 {
        assert(fits(nodes, xs[0], xs[0], 0));
        lemma_fits_assign(nodes, xs[0], xs[0], 0, v);
        lemma_assign_grows(nodes, xs[0], xs[0], v);
        let v2 = assign(nodes, xs[0], xs[0], v).1;
        assert forall|k: int| 0 <= k < xs.drop_first().len() implies (#[trigger] xs.drop_first()[k]).0 < nodes.len() by {
            assert(xs.drop_first()[k] == xs[k + 1]);
        }
        lemma_zip_same(nodes, xs.drop_first(), v2);
    }
}

/// The fields of an ordered struct, from the `m`-th on, against the struct
/// itself are assignable.
proof fn lemma_fields_same(nodes: Seq<TypeNode>, fs: Seq<(String, TypeId)>, m: int, v: Visited)
    requires
        graph_ok(nodes),
        names_in_order(fs),
        0 <= m <= fs.len(),
        forall|k: int| 0 <= k < fs.len() ==> (#[trigger] fs[k]).1.0 < nodes.len(),
        v.len() <= nodes.len() * nodes.len(),
    ensures
        assign_fields(nodes, fs, fs.subrange(m, fs.len() as int), v).0,
    decreases nodes.len() * nodes.len() - v.len(), 1int, fs.len() - m,
{
    let expected = fs.subrange(m, fs.len() as int);
    if m < fs.len() {
        assert(expected[0] == fs[m]);
        lemma_field_lookup_own(fs, m);
        let t = fs[m].1;
        assert(fits(nodes, t, t, 0));
        lemma_fits_assign(nodes, t, t, 0, v);
        lemma_assign_grows(nodes, t, t, v);
        let v2 = assign(nodes, t, t, v).1;
        assert(expected.drop_first() =~= fs.subrange(m + 1, fs.len() as int));
        lemma_fields_same(nodes, fs, m + 1, v2);
    }
}

/// The variants of an ordered enum, from the `m`-th on, against the enum
/// itself are assignable.
proof fn lemma_variants_same(nodes: Seq<TypeNode>, vs: Seq<(String, Option<TypeId>)>, m: int, v: Visited)
    requires
        graph_ok(nodes),
        names_in_order(vs),
        0 <= m <= vs.len(),
        forall|k: int| 0 <= k < vs.len() ==> ((#[trigger] vs[k]).1 matches Some(t) ==> t.0 < nodes.len()),
        v.len() <= nodes.len() * nodes.len(),
    ensures
        assign_variants(nodes, vs, vs.subrange(m, vs.len() as int), v).0,
    decreases nodes.len() * nodes.len() - v.len(), 1int, vs.len() - m,
{
    let expected = vs.subrange(m, vs.len() as int);
    if m < vs.len() {
        assert(expected[0] == vs[m]);
        lemma_variant_lookup_own(vs, m);
        assert(expected.drop_first() =~= vs.subrange(m + 1, vs.len() as int));
        match vs[m].1 {
            None => {
                lemma_variants_same(nodes, vs, m + 1, v);
            },
            Some(t) => {
                assert(fits(nodes, t, t, 0));
                lemma_fits_assign(nodes, t, t, 0, v);
                lemma_assign_grows(nodes, t, t, v);
                let v2 = assign(nodes, t, t, v).1;
                lemma_variants_same(nodes, vs, m + 1, v2);
            },
        }
    }
}

/// Members that each fit `y` are all assignable to it.
proof fn lemma_all_fit(nodes: Seq<TypeNode>, xs: Seq<TypeId>, y: TypeId, d: int, v: Visited)
    requires
        graph_ok(nodes),
        0 <= d,
        forall|i: int| 0 <= i < xs.len() ==> #[trigger] fits(nodes, xs[i], y, d),
        v.len() <= nodes.len() * nodes.len(),
    ensures
        assign_all(nodes, xs, y, v).0,
    decreases nodes.len() * nodes.len() - v.len(), 1int, xs.len(),
{
    if xs.len() > 0 {
        assert(fits(nodes, xs[0], y, d));
        lemma_fits_assign(nodes, xs[0], y, d, v);
        lemma_assign_grows(nodes, xs[0], y, v);
        let v2 = assign(nodes, xs[0], y, v).1;
        assert forall|i: int| 0 <= i < xs.drop_first().len() implies #[trigger] fits(nodes, xs.drop_first()[i], y, d) by {
            assert(xs.drop_first()[i] == xs[i + 1]);
        }
        lemma_all_fit(nodes, xs.drop_first(), y, d, v2);
    }
}

/// A type that fits one of the members of `es` is assignable to one of
/// them.
proof fn lemma_any_fits(nodes: Seq<TypeNode>, x: TypeId, es: Seq<TypeId>, j: int, d: int, v: Visited)
    requires
        graph_ok(nodes),
        0 <= d,
        0 <= j < es.len(),
        fits(nodes, x, es[j], d),
        v.len() <= nodes.len() * nodes.len(),
    ensures
        assign_any(nodes, x, es, v).0,
    decreases nodes.len() * nodes.len() - v.len(), 1int, es.len(),
{
    lemma_assign_grows(nodes, x, es[0], v);
    let (ok, v2) = assign(nodes, x, es[0], v);
    if !ok {
        if j == 0 {
            lemma_fits_assign(nodes, x, es[0], d, v);
        } else {
            assert(es.drop_first()[j - 1] == es[j]);
            lemma_any_fits(nodes, x, es.drop_first(), j - 1, d, v2);
        }
    }
}

/// Every type is assignable to itself, on any well-formed graph, recursive
/// types and unions included.
pub proof fn law_assignable_reflexive(g: TypeGraph, t: TypeId)
    requires
        g.wf(),
        t.0 < g.spec_nodes().len(),
    ensures
        assign(g.spec_nodes(), t, t, Seq::empty()).0,
{
    let nodes = g.spec_nodes();
    assert(graph_ok(nodes));
    assert(0 <= nodes.len() * nodes.len()) by (nonlinear_arith);
    assert(fits(nodes, t, t, 0));
    lemma_fits_assign(nodes, t, t, 0, Seq::empty());
}

/// The number a pair of ids in a graph of `n` nodes is counted by.
spec fn pair_number(p: (TypeId, TypeId), n: int) -> int {
    p.0.0 as int * n + p.1.0 as int
}

proof fn lemma_pair_number(p: (TypeId, TypeId), q: (TypeId, TypeId), n: int)
    requires
        p.0.0 < n,
        p.1.0 < n,
        q.0.0 < n,
        q.1.0 < n,
    ensures
        0 <= pair_number(p, n) < n * n,
        pair_number(p, n) == pair_number(q, n) ==> p == q,
{
    let (a, b, c, d) = (p.0.0 as int, p.1.0 as int, q.0.0 as int, q.1.0 as int);
    assert(0 <= a * n + b < n * n) by (nonlinear_arith)
        requires
            0 <= a < n,
            0 <= b < n,
    ;
    if a * n + b == c * n + d {
        assert(a == c && b == d) by (nonlinear_arith)
            requires
                0 <= a < n,
                0 <= b < n,
                0 <= c < n,
                0 <= d < n,
                a * n + b == c * n + d,
        ;
        assert(p.0 == q.0 && p.1 == q.1);
    }
}

/// A list of distinct pairs of ids of a graph of `n` nodes holds at most
/// `n * n` pairs, and fewer when some pair is missing from it.
proof fn lemma_visited_bound(v: Visited, n: int, m: (TypeId, TypeId))
    requires
        v.no_duplicates(),
        forall|k: int| 0 <= k < v.len() ==> (#[trigger] v[k]).0.0 < n && v[k].1.0 < n,
        m.0.0 < n,
        m.1.0 < n,
    ensures
        v.len() <= n * n,
        !v.contains(m) ==> v.len() < n * n,
{
    let sv = v.to_set();
    v.unique_seq_to_set();
    let f = |p: (TypeId, TypeId)| pair_number(p, n);
    assert(sv.finite()) by {
        vstd::seq_lib::seq_to_set_is_finite(v);
    }
    assert forall|p: (TypeId, TypeId), q: (TypeId, TypeId)| sv.contains(p) && sv.contains(q) && #[trigger] f(p) == #[trigger] f(q) implies p == q by {
        let i = choose|i: int| 0 <= i < v.len() && v[i] == p;
        let j = choose|j: int| 0 <= j < v.len() && v[j] == q;
        lemma_pair_number(p, q, n);
    }
    let ys = sv.map(f);
    vstd::set_lib::lemma_map_size(sv, ys, f);
    let full = vstd::set_lib::set_int_range(0, n * n);
    let range = full.remove(f(m));
    lemma_pair_number(m, m, n);
    assert(n * n >= 1);
    vstd::set_lib::lemma_int_range(0, n * n);
    assert forall|y: int| ys.contains(y) implies full.contains(y) by {
        let p = choose|p: (TypeId, TypeId)| sv.contains(p) && f(p) == y;
        let i = choose|i: int| 0 <= i < v.len() && v[i] == p;
        lemma_pair_number(p, m, n);
    }
    vstd::set_lib::lemma_len_subset(ys, full);
    if !v.contains(m) {
        assert forall|y: int| ys.contains(y) implies range.contains(y) by {
            let p = choose|p: (TypeId, TypeId)| sv.contains(p) && f(p) == y;
            let i = choose|i: int| 0 <= i < v.len() && v[i] == p;
            lemma_pair_number(p, m, n);
        }
        vstd::set_lib::lemma_len_subset(ys, range);
    }
}

/// A scalar or atom node: comparing two of them compares no further node.
pub open spec fn is_leaf_node(node: TypeNode) -> bool {
    match node {
        TypeNode::Pending | TypeNode::Int | TypeNode::Float | TypeNode::String | TypeNode::Bytes | TypeNode::Atom(_) => true,
        _ => false,
    }
}

/// Every visited pair is the pair of structs `(a, e)` or a pair of equal
/// leaves, each once, all in the graph.
spec fn leaf_visits(nodes: Seq<TypeNode>, a: TypeId, e: TypeId, v: Visited) -> bool {
    &&& v.no_duplicates()
    &&& forall|k: int| 0 <= k < v.len() ==> (#[trigger] v[k]).0.0 < nodes.len() && v[k].1.0 < nodes.len()
    &&& forall|k: int| 0 <= k < v.len() ==> #[trigger] v[k] == (a, e) || (is_leaf_node(nodes[v[k].0.0 as int])
        && is_leaf_node(nodes[v[k].1.0 as int]) && leaf_equal(nodes[v[k].0.0 as int], nodes[v[k].1.0 as int]))
}

/// Fields whose types are all leaves are assignable exactly when every
/// expected field has an actual field of its name with an equal type.
proof fn lemma_leaf_fields(
    nodes: Seq<TypeNode>,
    a: TypeId,
    e: TypeId,
    actual: Seq<(String, TypeId)>,
    expected: Seq<(String, TypeId)>,
    v: Visited,
)
    requires
        !is_leaf_node(nodes[a.0 as int]),
        forall|k: int| 0 <= k < actual.len() ==> (#[trigger] actual[k]).1.0 < nodes.len() && is_leaf_node(nodes[actual[k].1.0 as int]),
        forall|k: int| 0 <= k < expected.len() ==> (#[trigger] expected[k]).1.0 < nodes.len() && is_leaf_node(nodes[expected[k].1.0 as int]),
        leaf_visits(nodes, a, e, v),
    ensures
        assign_fields(nodes, actual, expected, v).0 <==> forall|k: int| 0 <= k < expected.len() ==> (field_lookup(actual, (#[trigger] expected[k]).0@)
            matches Some(t) && leaf_equal(nodes[t.0 as int], nodes[expected[k].1.0 as int])),
    decreases expected.len(),
{
    let n = nodes.len();
    if expected.len() > 0 {
        let rest = expected.drop_first();
        assert forall|k: int| 0 <= k < rest.len() implies (#[trigger] rest[k]).1.0 < nodes.len() && is_leaf_node(nodes[rest[k].1.0 as int]) by {
            assert(rest[k] == expected[k + 1]);
        }
        match field_lookup(actual, expected[0].0@) {
            None => {},
            Some(t) => {
                lemma_field_lookup_in(actual, expected[0].0@);
                let te = expected[0].1;
                assert(t.0 < n && is_leaf_node(nodes[t.0 as int]));
                assert(te.0 < n && is_leaf_node(nodes[te.0 as int]));
                if v.contains((t, te)) {
                    let k = choose|k: int| 0 <= k < v.len() && v[k] == (t, te);
                    assert(v[k] == (a, e) || leaf_equal(nodes[t.0 as int], nodes[te.0 as int]));
                    assert(t != a);
                } else {
                    lemma_visited_bound(v, n as int, (t, te));
                }
                let (ok, v2) = assign(nodes, t, te, v);
                assert(ok == leaf_equal(nodes[t.0 as int], nodes[te.0 as int]));
                if ok {
                    assert(v.len() <= v2.len() <= n * n) by {
                        lemma_visited_bound(v, n as int, (t, te));
                    }
                    if !v.contains((t, te)) {
                        assert(v2 == v.push((t, te)));
                        assert forall|k: int| 0 <= k < v2.len() implies #[trigger] v2[k] == (a, e) || (is_leaf_node(nodes[v2[k].0.0 as int])
                            && is_leaf_node(nodes[v2[k].1.0 as int]) && leaf_equal(nodes[v2[k].0.0 as int], nodes[v2[k].1.0 as int])) by {
                            if k < v.len() {
                                assert(v2[k] == v[k]);
                            }
                        }
                        assert(v2.no_duplicates());
                    }
                    lemma_leaf_fields(nodes, a, e, actual, rest, v2);
                    assert forall|k: int| 0 <= k < expected.len() implies (field_lookup(actual, (#[trigger] expected[k]).0@)
                        matches Some(u) && leaf_equal(nodes[u.0 as int], nodes[expected[k].1.0 as int])) <== assign_fields(
                        nodes,
                        actual,
                        expected,
                        v,
                    ).0 by {
                        if k > 0 {
                            assert(rest[k - 1] == expected[k]);
                        }
                    }
                    if forall|k: int| 0 <= k < expected.len() ==> (field_lookup(actual, (#[trigger] expected[k]).0@)
                        matches Some(u) && leaf_equal(nodes[u.0 as int], nodes[expected[k].1.0 as int])) {
                        assert forall|k: int| 0 <= k < rest.len() implies (field_lookup(actual, (#[trigger] rest[k]).0@)
                            matches Some(u) && leaf_equal(nodes[u.0 as int], nodes[rest[k].1.0 as int])) by {
                            assert(rest[k] == expected[k + 1]);
                        }
                    }
                }
            },
        }
    }
}

/// Two structs whose field types are scalars or atoms are assignable
/// exactly when they have the same number of fields and every expected
/// field has an actual field of its name with an equal type: field types
/// are compared, not only field names.
pub proof fn law_struct_field_types_compared(g: TypeGraph, a: TypeId, e: TypeId)
    requires
        g.wf(),
        a.0 < g.spec_nodes().len(),
        e.0 < g.spec_nodes().len(),
        g.spec_nodes()[a.0 as int] is Struct,
        g.spec_nodes()[e.0 as int] is Struct,
        forall|k: int| 0 <= k < g.spec_nodes()[a.0 as int]->Struct_0@.len() ==> is_leaf_node(
            g.spec_nodes()[(#[trigger] g.spec_nodes()[a.0 as int]->Struct_0@[k]).1.0 as int],
        ),
        forall|k: int| 0 <= k < g.spec_nodes()[e.0 as int]->Struct_0@.len() ==> is_leaf_node(
            g.spec_nodes()[(#[trigger] g.spec_nodes()[e.0 as int]->Struct_0@[k]).1.0 as int],
        ),
    ensures
        ({
            let nodes = g.spec_nodes();
            let xs = nodes[a.0 as int]->Struct_0@;
            let ys = nodes[e.0 as int]->Struct_0@;
            assign(nodes, a, e, Seq::empty()).0 <==> (xs.len() == ys.len() && forall|k: int|
                0 <= k < ys.len() ==> (field_lookup(xs, (#[trigger] ys[k]).0@) matches Some(t) && leaf_equal(
                    nodes[t.0 as int],
                    nodes[ys[k].1.0 as int],
                )))
        }),
{
    let nodes = g.spec_nodes();
    let n = nodes.len();
    let xs = nodes[a.0 as int]->Struct_0@;
    let ys = nodes[e.0 as int]->Struct_0@;
    assert(node_refs_below(nodes[a.0 as int], n as int));
    assert(node_refs_below(nodes[e.0 as int], n as int));
    assert(n * n >= 1) by (nonlinear_arith)
        requires
            n >= 1,
    ;
    let v1 = Seq::<(TypeId, TypeId)>::empty().push((a, e));
    assert(v1.no_duplicates());
    assert(leaf_visits(nodes, a, e, v1));
    assert(!Seq::<(TypeId, TypeId)>::empty().contains((a, e)));
    if xs.len() == ys.len() {
        lemma_leaf_fields(nodes, a, e, xs, ys, v1);
    }
}

/// Arity decides before the parts are compared: tuples of different lengths
/// are never assignable, nor are functions of different parameter counts,
/// nor structs or enums with different numbers of fields or variants; and
/// a struct or enum lacking a field or variant name that the expected one
/// has is not assignable to it.
pub proof fn law_arity_mismatch(nodes: Seq<TypeNode>, a: TypeId, e: TypeId)
    requires
        a.0 < nodes.len(),
        e.0 < nodes.len(),
    ensures
        (nodes[a.0 as int] matches TypeNode::Struct(xs) && nodes[e.0 as int] matches TypeNode::Struct(ys)
            && (xs@.len() != ys@.len() || exists|k: int| 0 <= k < ys@.len() && field_lookup(xs@, (#[trigger] ys@[k]).0@) is None))
            ==> !assign(nodes, a, e, Seq::empty()).0,
        (nodes[a.0 as int] matches TypeNode::Enum(xs) && nodes[e.0 as int] matches TypeNode::Enum(ys)
            && (xs@.len() != ys@.len() || exists|k: int| 0 <= k < ys@.len() && variant_lookup(xs@, (#[trigger] ys@[k]).0@) is None))
            ==> !assign(nodes, a, e, Seq::empty()).0,
        (nodes[a.0 as int] matches TypeNode::Tuple(xs) && nodes[e.0 as int] matches TypeNode::Tuple(ys)
            && xs@.len() != ys@.len()) ==> !assign(nodes, a, e, Seq::empty()).0,
        (nodes[a.0 as int] matches TypeNode::Function { parameters: ap, .. } && nodes[e.0 as int] matches TypeNode::Function {
            parameters: ep,
            ..
        } && ap@.len() != ep@.len()) ==> !assign(nodes, a, e, Seq::empty()).0,
{
    assert(nodes.len() * nodes.len() >= 1) by (nonlinear_arith)
        requires
            nodes.len() >= 1,
    ;
    assert(!Seq::<(TypeId, TypeId)>::empty().contains((a, e)));
    let v1 = Seq::<(TypeId, TypeId)>::empty().push((a, e));
    match (nodes[a.0 as int], nodes[e.0 as int]) {
        (TypeNode::Struct(xs), TypeNode::Struct(ys)) => {
            if xs@.len() == ys@.len() {
                if exists|k: int| 0 <= k < ys@.len() && field_lookup(xs@, (#[trigger] ys@[k]).0@) is None {
                    let k = choose|k: int| 0 <= k < ys@.len() && field_lookup(xs@, (#[trigger] ys@[k]).0@) is None;
                    lemma_fields_missing(nodes, xs@, ys@, v1, k);
                }
            }
        },
        (TypeNode::Enum(xs), TypeNode::Enum(ys)) => {
            if xs@.len() == ys@.len() {
                if exists|k: int| 0 <= k < ys@.len() && variant_lookup(xs@, (#[trigger] ys@[k]).0@) is None {
                    let k = choose|k: int| 0 <= k < ys@.len() && variant_lookup(xs@, (#[trigger] ys@[k]).0@) is None;
                    lemma_variants_missing(nodes, xs@, ys@, v1, k);
                }
            }
        },
        _ => {},
    }
}

/// An expected field that the actual struct lacks fails the comparison.
proof fn lemma_fields_missing(nodes: Seq<TypeNode>, actual: Seq<(String, TypeId)>, expected: Seq<(String, TypeId)>, v: Visited, k: int)
    requires
        0 <= k < expected.len(),
        field_lookup(actual, expected[k].0@) is None,
    ensures
        !assign_fields(nodes, actual, expected, v).0,
    decreases expected.len(),
{
    if k > 0 {
        match field_lookup(actual, expected[0].0@) {
            None => {},
            Some(t) => {
                let (ok, v2) = assign(nodes, t, expected[0].1, v);
                if ok && v.len() <= v2.len() <= nodes.len() * nodes.len() {
                    assert(expected.drop_first()[k - 1] == expected[k]);
                    lemma_fields_missing(nodes, actual, expected.drop_first(), v2, k - 1);
                }
            },
        }
    }
}

/// An expected variant that the actual enum lacks fails the comparison.
proof fn lemma_variants_missing(
    nodes: Seq<TypeNode>,
    actual: Seq<(String, Option<TypeId>)>,
    expected: Seq<(String, Option<TypeId>)>,
    v: Visited,
    k: int,
)
    requires
        0 <= k < expected.len(),
        variant_lookup(actual, expected[k].0@) is None,
    ensures
        !assign_variants(nodes, actual, expected, v).0,
    decreases expected.len(),
{
    if k > 0 {
        assert(expected.drop_first()[k - 1] == expected[k]);
        match variant_lookup(actual, expected[0].0@) {
            None => {},
            Some(pa) => match (pa, expected[0].1) {
                (None, None) => {
                    lemma_variants_missing(nodes, actual, expected.drop_first(), v, k - 1);
                },
                (Some(x), Some(y)) => {
                    let (ok, v2) = assign(nodes, x, y, v);
                    if ok && v.len() <= v2.len() <= nodes.len() * nodes.len() {
                        lemma_variants_missing(nodes, actual, expected.drop_first(), v2, k - 1);
                    }
                },
                _ => {},
            },
        }
    }
}

/// Each `xs[i]` against `ys[i]`, in order, up to the first mismatch.
pub open spec fn assign_zip(nodes: Seq<TypeNode>, xs: Seq<TypeId>, ys: Seq<TypeId>, v: Visited) -> (bool, Visited)
    decreases nodes.len() * nodes.len() - v.len(), 1int, xs.len(),
{
    if xs.len() == 0 || ys.len() == 0 {
        (true, v)
    } else {
        let (ok, v2) = assign(nodes, xs[0], ys[0], v);
        if !ok {
            (false, v2)
        } else if v.len() <= v2.len() <= nodes.len() * nodes.len() {
            assign_zip(nodes, xs.drop_first(), ys.drop_first(), v2)
        } else {
            (false, v2)
        }
    }
}

/// Each expected field, in order, against the actual field of its name,
/// up to the first mismatch or missing field.
pub open spec fn assign_fields(
    nodes: Seq<TypeNode>,
    actual: Seq<(String, TypeId)>,
    expected: Seq<(String, TypeId)>,
    v: Visited,
) -> (bool, Visited)
    decreases nodes.len() * nodes.len() - v.len(), 1int, expected.len(),
{
    if expected.len() == 0 {
        (true, v)
    } else {
        match field_lookup(actual, expected[0].0@) {
            None => (false, v),
            Some(t) => {
                let (ok, v2) = assign(nodes, t, expected[0].1, v);
                if !ok {
                    (false, v2)
                } else if v.len() <= v2.len() <= nodes.len() * nodes.len() {
                    assign_fields(nodes, actual, expected.drop_first(), v2)
                } else {
                    (false, v2)
                }
            },
        }
    }
}

/// Each expected variant, in order, against the actual variant of its
/// name: both without payload, or payloads assignable.
pub open spec fn assign_variants(
    nodes: Seq<TypeNode>,
    actual: Seq<(String, Option<TypeId>)>,
    expected: Seq<(String, Option<TypeId>)>,
    v: Visited,
) -> (bool, Visited)
    decreases nodes.len() * nodes.len() - v.len(), 1int, expected.len(),
{
    if expected.len() == 0 {
        (true, v)
    } else {
        match variant_lookup(actual, expected[0].0@) {
            None => (false, v),
            Some(pa) => match (pa, expected[0].1) {
                (None, None) => assign_variants(nodes, actual, expected.drop_first(), v),
                (Some(x), Some(y)) => {
                    let (ok, v2) = assign(nodes, x, y, v);
                    if !ok {
                        (false, v2)
                    } else if v.len() <= v2.len() <= nodes.len() * nodes.len() {
                        assign_variants(nodes, actual, expected.drop_first(), v2)
                    } else {
                        (false, v2)
                    }
                },
                _ => (false, v),
            },
        }
    }
}

/// Every member of `xs` against `e`, in order, up to the first mismatch.
pub open spec fn assign_all(nodes: Seq<TypeNode>, xs: Seq<TypeId>, e: TypeId, v: Visited) -> (bool, Visited)
    decreases nodes.len() * nodes.len() - v.len(), 1int, xs.len(),
{
    if xs.len() == 0 {
        (true, v)
    } else {
        let (ok, v2) = assign(nodes, xs[0], e, v);
        if !ok {
            (false, v2)
        } else if v.len() <= v2.len() <= nodes.len() * nodes.len() {
            assign_all(nodes, xs.drop_first(), e, v2)
        } else {
            (false, v2)
        }
    }
}

/// `a` against the members of `ys`, in order, up to the first match.
pub open spec fn assign_any(nodes: Seq<TypeNode>, a: TypeId, ys: Seq<TypeId>, v: Visited) -> (bool, Visited)
    decreases nodes.len() * nodes.len() - v.len(), 1int, ys.len(),
{
    if ys.len() == 0 {
        (false, v)
    } else {
        let (ok, v2) = assign(nodes, a, ys[0], v);
        if ok {
            (true, v2)
        } else if v.len() <= v2.len() <= nodes.len() * nodes.len() {
            assign_any(nodes, a, ys.drop_first(), v2)
        } else {
            (false, v2)
        }
    }
}

/// `true` when the two atoms are equal.
pub fn atoms_equal(p: &Atom, q: &Atom) -> (b: bool)
    ensures
        b == atom_equal(*p, *q),
{
    match (p, q) {
        (Atom::Builtin(x), Atom::Builtin(y)) => *x == *y,
        (Atom::Named(x), Atom::Named(y)) => {
            same_text(x, y)
        },
        _ => false,
    }
}

/// `true` when the two strings have the same text.
pub fn same_text(x: &String, y: &String) -> (b: bool)
    ensures
        b == (x@ == y@),
{
    let xs = x.as_str();
    let ys = y.as_str();
    let c = compare_str(xs, ys);
    proof {
        assert(xs.spec_bytes() == encode_utf8(xs@));
        assert(ys.spec_bytes() == encode_utf8(ys@));
        if c == 0 {
            lemma_utf8_injective(xs@, ys@);
        }
    }
    c == 0
}

/// The id of the first field named `name`.
pub fn find_field(fields: &Vec<(String, TypeId)>, name: &String) -> (r: Option<TypeId>)
    ensures
        r == field_lookup(fields@, name@),
{
    let mut i: usize = 0;
    assert(fields@.skip(0) =~= fields@);
    while i < fields.len()
        invariant
            i <= fields@.len(),
            field_lookup(fields@, name@) == field_lookup(fields@.skip(i as int), name@),
        decreases fields@.len() - i,
    {
        proof {
            assert(fields@.skip(i as int).drop_first() =~= fields@.skip(i + 1));
        }
        if same_text(&fields[i].0, name) {
            return Some(fields[i].1);
        }
        i = i + 1;
    }
    None
}

/// The payload of the first variant named `name`.
pub fn find_variant(variants: &Vec<(String, Option<TypeId>)>, name: &String) -> (r: Option<Option<TypeId>>)
    ensures
        r == variant_lookup(variants@, name@),
{
    let mut i: usize = 0;
    assert(variants@.skip(0) =~= variants@);
    while i < variants.len()
        invariant
            i <= variants@.len(),
            variant_lookup(variants@, name@) == variant_lookup(variants@.skip(i as int), name@),
        decreases variants@.len() - i,
    {
        proof {
            assert(variants@.skip(i as int).drop_first() =~= variants@.skip(i + 1));
        }
        if same_text(&variants[i].0, name) {
            return Some(variants[i].1);
        }
        i = i + 1;
    }
    None
}

/// `true` when `(a, e)` is among the visited pairs.
pub fn visited_contains(visited: &Vec<(TypeId, TypeId)>, a: TypeId, e: TypeId) -> (b: bool)
    ensures
        b == visited@.contains((a, e)),
{
    let mut i: usize = 0;
    while i < visited.len()
        invariant
            i <= visited@.len(),
            forall|j: int| 0 <= j < i ==> visited@[j] != (a, e),
        decreases visited@.len() - i,
    {
        if visited[i].0 == a && visited[i].1 == e {
            assert(visited@[i as int] == (a, e));
            return true;
        }
        i = i + 1;
    }
    false
}

impl TypeGraph {
    /// The number of nodes, squared: the number of pairs of types.
    fn pair_count(&self) -> (nn: u64)
        requires
            self.wf(),
        ensures
            nn == self.spec_nodes().len() * self.spec_nodes().len(),
    {
        let n = self.nodes.len() as u64;
        assert(n * n <= 0xffff_ffffu64 * 0xffff_ffffu64) by (nonlinear_arith)
            requires
                n <= 0xffff_ffffu64,
        ;
        n * n
    }

    /// Whether values of type `actual` may stand where type `expected` is
    /// expected, as [`assign`] decides it from no visited pair.
    pub fn is_assignable(&self, actual: TypeId, expected: TypeId) -> (b: bool)
        requires
            self.wf(),
            actual.0 < self.spec_nodes().len(),
            expected.0 < self.spec_nodes().len(),
        ensures
            b == assign(self.spec_nodes(), actual, expected, Seq::empty()).0,
    {
        let mut visited: Vec<(TypeId, TypeId)> = Vec::new();
        self.assignable_with(actual, expected, &mut visited)
    }

    fn assignable_with(&self, a: TypeId, e: TypeId, visited: &mut Vec<(TypeId, TypeId)>) -> (r: bool)
        requires
            self.wf(),
            a.0 < self.nodes@.len(),
            e.0 < self.nodes@.len(),
            old(visited)@.len() <= self.nodes@.len() * self.nodes@.len(),
        ensures
            (r, final(visited)@) == assign(self.nodes@, a, e, old(visited)@),
            old(visited)@.len() <= final(visited)@.len() <= self.nodes@.len() * self.nodes@.len(),
        decreases self.nodes@.len() * self.nodes@.len() - old(visited)@.len(), 0int, 0int,
    {
        let ghost v0 = visited@;
        if visited_contains(visited, a, e) {
            return true;
        }
        let nn = self.pair_count();
        if visited.len() as u64 >= nn {
            return true;
        }
        visited.push((a, e));
        let ghost v1 = visited@;
        let an = &self.nodes[a.index()];
        let en = &self.nodes[e.index()];
        proof {
            assert(node_refs_below(*an, self.nodes@.len() as int));
            assert(node_refs_below(*en, self.nodes@.len() as int));
        }
        if let TypeNode::Ref(x) = an {
            return self.assignable_with(*x, e, visited);
        }
        if let TypeNode::Ref(y) = en {
            return self.assignable_with(a, *y, visited);
        }
        if let TypeNode::Any = an {
            return true;
        }
        if let TypeNode::Any = en {
            return true;
        }
        match an {
            TypeNode::Array(x) => {
                if let TypeNode::Array(y) = en {
                    return self.assignable_with(*x, *y, visited);
                }
            },
            TypeNode::Tuple(xs) => {
                if let TypeNode::Tuple(ys) = en {
                    if xs.len() != ys.len() {
                        return false;
                    }
                    proof {
                        assert(xs@.skip(0) =~= xs@);
                        assert(ys@.skip(0) =~= ys@);
                    }
                    return self.zip_from(xs, ys, 0, visited);
                }
            },
            TypeNode::Struct(xs) => {
                if let TypeNode::Struct(ys) = en {
                    if xs.len() != ys.len() {
                        return false;
                    }
                    proof {
                        assert(ys@.skip(0) =~= ys@);
                    }
                    return self.fields_from(xs, ys, 0, visited);
                }
            },
            TypeNode::Enum(xs) => {
                if let TypeNode::Enum(ys) = en {
                    if xs.len() != ys.len() {
                        return false;
                    }
                    proof {
                        assert(ys@.skip(0) =~= ys@);
                    }
                    return self.variants_from(xs, ys, 0, visited);
                }
            },
            _ => {},
        }
        if let TypeNode::Union(xs) = an {
            proof {
                assert(xs@.skip(0) =~= xs@);
            }
            return self.all_from(xs, e, 0, visited);
        }
        if let TypeNode::Union(ys) = en {
            proof {
                assert(ys@.skip(0) =~= ys@);
            }
            return self.any_from(a, ys, 0, visited);
        }
        if let TypeNode::Function { parameters: ap, result: ar } = an {
            if let TypeNode::Function { parameters: ep, result: er } = en {
                if ap.len() != ep.len() {
                    return false;
                }
                proof {
                    assert(ap@.skip(0) =~= ap@);
                    assert(ep@.skip(0) =~= ep@);
                }
                let ok = self.zip_from(ap, ep, 0, visited);
                if !ok {
                    return false;
                }
                return self.assignable_with(*ar, *er, visited);
            }
        }
        match (an, en) {
            (TypeNode::Pending, TypeNode::Pending) => true,
            (TypeNode::Int, TypeNode::Int) => true,
            (TypeNode::Float, TypeNode::Float) => true,
            (TypeNode::String, TypeNode::String) => true,
            (TypeNode::Bytes, TypeNode::Bytes) => true,
            (TypeNode::Atom(p), TypeNode::Atom(q)) => atoms_equal(p, q),
            _ => false,
        }
    }

    fn zip_from(&self, xs: &Vec<TypeId>, ys: &Vec<TypeId>, i: usize, visited: &mut Vec<(TypeId, TypeId)>) -> (r: bool)
        requires
            self.wf(),
            i <= xs@.len(),
            xs@.len() == ys@.len(),
            forall|k: int| 0 <= k < xs@.len() ==> (#[trigger] xs@[k]).0 < self.nodes@.len(),
            forall|k: int| 0 <= k < ys@.len() ==> (#[trigger] ys@[k]).0 < self.nodes@.len(),
            old(visited)@.len() <= self.nodes@.len() * self.nodes@.len(),
        ensures
            (r, final(visited)@) == assign_zip(self.nodes@, xs@.skip(i as int), ys@.skip(i as int), old(visited)@),
            old(visited)@.len() <= final(visited)@.len() <= self.nodes@.len() * self.nodes@.len(),
        decreases self.nodes@.len() * self.nodes@.len() - old(visited)@.len(), 1int, xs@.len() - i,
    {
        if i >= xs.len() {
            return true;
        }
        proof {
            assert(xs@.skip(i as int)[0] == xs@[i as int]);
            assert(ys@.skip(i as int)[0] == ys@[i as int]);
            assert(xs@.skip(i as int).drop_first() =~= xs@.skip(i + 1));
            assert(ys@.skip(i as int).drop_first() =~= ys@.skip(i + 1));
        }
        let ok = self.assignable_with(xs[i], ys[i], visited);
        if !ok {
            return false;
        }
        self.zip_from(xs, ys, i + 1, visited)
    }

    fn fields_from(
        &self,
        actual: &Vec<(String, TypeId)>,
        expected: &Vec<(String, TypeId)>,
        i: usize,
        visited: &mut Vec<(TypeId, TypeId)>,
    ) -> (r: bool)
        requires
            self.wf(),
            i <= expected@.len(),
            forall|k: int| 0 <= k < actual@.len() ==> (#[trigger] actual@[k]).1.0 < self.nodes@.len(),
            forall|k: int| 0 <= k < expected@.len() ==> (#[trigger] expected@[k]).1.0 < self.nodes@.len(),
            old(visited)@.len() <= self.nodes@.len() * self.nodes@.len(),
        ensures
            (r, final(visited)@) == assign_fields(self.nodes@, actual@, expected@.skip(i as int), old(visited)@),
            old(visited)@.len() <= final(visited)@.len() <= self.nodes@.len() * self.nodes@.len(),
        decreases self.nodes@.len() * self.nodes@.len() - old(visited)@.len(), 1int, expected@.len() - i,
    {
        if i >= expected.len() {
            return true;
        }
        proof {
            assert(expected@.skip(i as int)[0] == expected@[i as int]);
            assert(expected@.skip(i as int).drop_first() =~= expected@.skip(i + 1));
        }
        match find_field(actual, &expected[i].0) {
            None => false,
            Some(t) => {
                proof {
                    lemma_field_lookup_in(actual@, expected@[i as int].0@);
                }
                let ok = self.assignable_with(t, expected[i].1, visited);
                if !ok {
                    return false;
                }
                self.fields_from(actual, expected, i + 1, visited)
            },
        }
    }

    fn variants_from(
        &self,
        actual: &Vec<(String, Option<TypeId>)>,
        expected: &Vec<(String, Option<TypeId>)>,
        i: usize,
        visited: &mut Vec<(TypeId, TypeId)>,
    ) -> (r: bool)
        requires
            self.wf(),
            i <= expected@.len(),
            forall|k: int| 0 <= k < actual@.len() ==> ((#[trigger] actual@[k]).1 matches Some(t) ==> t.0 < self.nodes@.len()),
            forall|k: int| 0 <= k < expected@.len() ==> ((#[trigger] expected@[k]).1 matches Some(t) ==> t.0 < self.nodes@.len()),
            old(visited)@.len() <= self.nodes@.len() * self.nodes@.len(),
        ensures
            (r, final(visited)@) == assign_variants(self.nodes@, actual@, expected@.skip(i as int), old(visited)@),
            old(visited)@.len() <= final(visited)@.len() <= self.nodes@.len() * self.nodes@.len(),
        decreases self.nodes@.len() * self.nodes@.len() - old(visited)@.len(), 1int, expected@.len() - i,
    {
        if i >= expected.len() {
            return true;
        }
        proof {
            assert(expected@.skip(i as int)[0] == expected@[i as int]);
            assert(expected@.skip(i as int).drop_first() =~= expected@.skip(i + 1));
        }
        match find_variant(actual, &expected[i].0) {
            None => false,
            Some(pa) => {
                proof {
                    lemma_variant_lookup_in(actual@, expected@[i as int].0@);
                }
                match (pa, expected[i].1) {
                    (None, None) => self.variants_from(actual, expected, i + 1, visited),
                    (Some(x), Some(y)) => {
                        let ok = self.assignable_with(x, y, visited);
                        if !ok {
                            return false;
                        }
                        self.variants_from(actual, expected, i + 1, visited)
                    },
                    _ => false,
                }
            },
        }
    }

    fn all_from(&self, xs: &Vec<TypeId>, e: TypeId, i: usize, visited: &mut Vec<(TypeId, TypeId)>) -> (r: bool)
        requires
            self.wf(),
            i <= xs@.len(),
            e.0 < self.nodes@.len(),
            forall|k: int| 0 <= k < xs@.len() ==> (#[trigger] xs@[k]).0 < self.nodes@.len(),
            old(visited)@.len() <= self.nodes@.len() * self.nodes@.len(),
        ensures
            (r, final(visited)@) == assign_all(self.nodes@, xs@.skip(i as int), e, old(visited)@),
            old(visited)@.len() <= final(visited)@.len() <= self.nodes@.len() * self.nodes@.len(),
        decreases self.nodes@.len() * self.nodes@.len() - old(visited)@.len(), 1int, xs@.len() - i,
    {
        if i >= xs.len() {
            return true;
        }
        proof {
            assert(xs@.skip(i as int)[0] == xs@[i as int]);
            assert(xs@.skip(i as int).drop_first() =~= xs@.skip(i + 1));
        }
        let ok = self.assignable_with(xs[i], e, visited);
        if !ok {
            return false;
        }
        self.all_from(xs, e, i + 1, visited)
    }

    fn any_from(&self, a: TypeId, ys: &Vec<TypeId>, i: usize, visited: &mut Vec<(TypeId, TypeId)>) -> (r: bool)
        requires
            self.wf(),
            i <= ys@.len(),
            a.0 < self.nodes@.len(),
            forall|k: int| 0 <= k < ys@.len() ==> (#[trigger] ys@[k]).0 < self.nodes@.len(),
            old(visited)@.len() <= self.nodes@.len() * self.nodes@.len(),
        ensures
            (r, final(visited)@) == assign_any(self.nodes@, a, ys@.skip(i as int), old(visited)@),
            old(visited)@.len() <= final(visited)@.len() <= self.nodes@.len() * self.nodes@.len(),
        decreases self.nodes@.len() * self.nodes@.len() - old(visited)@.len(), 1int, ys@.len() - i,
    {
        if i >= ys.len() {
            return false;
        }
        proof {
            assert(ys@.skip(i as int)[0] == ys@[i as int]);
            assert(ys@.skip(i as int).drop_first() =~= ys@.skip(i + 1));
        }
        let ok = self.assignable_with(a, ys[i], visited);
        if ok {
            return true;
        }
        self.any_from(a, ys, i + 1, visited)
    }
}

/// A field found by name is one of the fields.
proof fn lemma_field_lookup_in(fields: Seq<(String, TypeId)>, name: Seq<char>)
    ensures
        field_lookup(fields, name) matches Some(t) ==> exists|k: int| 0 <= k < fields.len() && fields[k].1 == t,
    decreases fields.len(),
{
    if fields.len() > 0 && fields[0].0@ != name {
        lemma_field_lookup_in(fields.drop_first(), name);
        if field_lookup(fields, name) is Some {
            let k = choose|k: int| 0 <= k < fields.drop_first().len() && fields.drop_first()[k].1 == field_lookup(fields, name)->Some_0;
            assert(fields[k + 1] == fields.drop_first()[k]);
        }
    } else if fields.len() > 0 {
        assert(fields[0].1 == fields[0].1);
    }
}

/// A variant found by name is one of the variants.
proof fn lemma_variant_lookup_in(variants: Seq<(String, Option<TypeId>)>, name: Seq<char>)
    ensures
        variant_lookup(variants, name) matches Some(p) ==> exists|k: int| 0 <= k < variants.len() && variants[k].1 == p,
    decreases variants.len(),
{
    if variants.len() > 0 && variants[0].0@ != name {
        lemma_variant_lookup_in(variants.drop_first(), name);
        if variant_lookup(variants, name) is Some {
            let k = choose|k: int| 0 <= k < variants.drop_first().len() && variants.drop_first()[k].1 == variant_lookup(variants, name)->Some_0;
            assert(variants[k + 1] == variants.drop_first()[k]);
        }
    }
}

// ---------------------------------------------------------------------------
// Type descriptors.

/// A type written out as a tree. Struct fields and enum variants are kept
/// sorted by name.
#[derive(Debug)]
pub enum TypeDescriptor {
    Any,
    Int,
    Float,
    String,
    Bytes,
    Atom(Atom),
    Array(Box<TypeDescriptor>),
    Tuple(Vec<TypeDescriptor>),
    Struct(Vec<(String, TypeDescriptor)>),
    Enum(Vec<(String, Option<Box<TypeDescriptor>>)>),
    Union(Vec<TypeDescriptor>),
    Function { parameters: Vec<TypeDescriptor>, result: Box<TypeDescriptor> },
}

/// The display of a descriptor, as for the nodes of a type graph.
pub open spec fn descriptor_name(d: TypeDescriptor) -> Seq<char>
    decreases d,
{
    match d {
        TypeDescriptor::Any => "Any"@,
        TypeDescriptor::Int => "Int"@,
        TypeDescriptor::Float => "Float"@,
        TypeDescriptor::String => "String"@,
        TypeDescriptor::Bytes => "Bytes"@,
        TypeDescriptor::Atom(atom) => seq!['\''] + atom.spec_name(),
        TypeDescriptor::Array(item) => "Array<"@ + descriptor_name(*item) + seq!['>'],
        TypeDescriptor::Tuple(items) => seq!['('] + descriptor_names(items@, comma()) + seq![')'],
        TypeDescriptor::Struct(fields) => seq!['{'] + descriptor_fields(fields@) + seq!['}'],
        TypeDescriptor::Enum(variants) => "enum {"@ + descriptor_variants(variants@) + seq!['}'],
        TypeDescriptor::Union(items) => descriptor_names(items@, " | "@),
        TypeDescriptor::Function { parameters, result } => "fn("@ + descriptor_names(
            parameters@,
            comma(),
        ) + ") -> "@ + descriptor_name(*result),
    }
}

/// The displays of `items`, separated by `sep`.
pub open spec fn descriptor_names(items: Seq<TypeDescriptor>, sep: Seq<char>) -> Seq<char>
    decreases items,
{
    if items.len() == 0 {
        Seq::empty()
    } else if items.len() == 1 {
        descriptor_name(items[0])
    } else {
        descriptor_names(items.subrange(0, items.len() - 1), sep) + sep + descriptor_name(
            items[items.len() - 1],
        )
    }
}

/// `name: type` for each field, separated by `, `.
pub open spec fn descriptor_fields(fields: Seq<(String, TypeDescriptor)>) -> Seq<char>
    decreases fields,
{
    if fields.len() == 0 {
        Seq::empty()
    } else {
        let last = fields[fields.len() - 1];
        let one = last.0@ + seq![':', ' '] + descriptor_name(last.1);
        if fields.len() == 1 {
            one
        } else {
            descriptor_fields(fields.subrange(0, fields.len() - 1)) + comma() + one
        }
    }
}

/// `name` or `name(type)` for each variant, separated by `, `.
pub open spec fn descriptor_variants(variants: Seq<(String, Option<Box<TypeDescriptor>>)>) -> Seq<char>
    decreases variants,
{
    if variants.len() == 0 {
        Seq::empty()
    } else {
        let last = variants[variants.len() - 1];
        let one = match last.1 {
            None => last.0@,
            Some(p) => last.0@ + seq!['('] + descriptor_name(*p) + seq![')'],
        };
        if variants.len() == 1 {
            one
        } else {
            descriptor_variants(variants.subrange(0, variants.len() - 1)) + comma() + one
        }
    }
}

impl TypeDescriptor {
    /// The display of the descriptor, as [`descriptor_name`] describes it.
    pub fn display_name(&self) -> (s: String)
        ensures
            s@ == descriptor_name(*self),
        decreases self, 0int,
    {
        match self {
            TypeDescriptor::Any => {
                proof { reveal_strlit("Any"); }
                String::from_str("Any")
            },
            TypeDescriptor::Int => {
                proof { reveal_strlit("Int"); }
                String::from_str("Int")
            },
            TypeDescriptor::Float => {
                proof { reveal_strlit("Float"); }
                String::from_str("Float")
            },
            TypeDescriptor::String => {
                proof { reveal_strlit("String"); }
                String::from_str("String")
            },
            TypeDescriptor::Bytes => {
                proof { reveal_strlit("Bytes"); }
                String::from_str("Bytes")
            },
            TypeDescriptor::Atom(atom) => {
                proof { reveal_strlit("'"); }
                let mut s = String::from_str("'");
                s.append(atom.name());
                s
            },
            TypeDescriptor::Array(item) => {
                proof { reveal_strlit("Array<"); reveal_strlit(">"); }
                let mut s = String::from_str("Array<");
                let inner = item.display_name();
                s.append(inner.as_str());
                s.append(">");
                s
            },
            TypeDescriptor::Tuple(items) => {
                proof { reveal_strlit("("); reveal_strlit(")"); reveal_strlit(", "); assert(", "@ =~= comma()); }
                let mut s = String::from_str("(");
                let inner = Self::display_names(items, ", ");
                s.append(inner.as_str());
                s.append(")");
                s
            },
            TypeDescriptor::Struct(fields) => {
                proof { reveal_strlit("{"); reveal_strlit("}"); }
                let mut s = String::from_str("{");
                let inner = Self::display_fields(fields);
                s.append(inner.as_str());
                s.append("}");
                s
            },
            TypeDescriptor::Enum(variants) => {
                proof { reveal_strlit("enum {"); reveal_strlit("}"); }
                let mut s = String::from_str("enum {");
                let inner = Self::display_variants(variants);
                s.append(inner.as_str());
                s.append("}");
                s
            },
            TypeDescriptor::Union(items) => {
                proof { reveal_strlit(" | "); }
                Self::display_names(items, " | ")
            },
            TypeDescriptor::Function { parameters, result } => {
                proof { reveal_strlit("fn("); reveal_strlit(") -> "); reveal_strlit(", "); assert(", "@ =~= comma()); }
                let mut s = String::from_str("fn(");
                let inner = Self::display_names(parameters, ", ");
                s.append(inner.as_str());
                s.append(") -> ");
                let r = result.display_name();
                s.append(r.as_str());
                s
            },
        }
    }

    fn display_names(items: &Vec<TypeDescriptor>, sep: &str) -> (s: String)
        ensures
            s@ == descriptor_names(items@, sep@),
        decreases items, 1int,
    {
        let mut s = String::new();
        let mut i: usize = 0;
        while i < items.len()
            invariant
                i <= items@.len(),
                s@ == descriptor_names(items@.subrange(0, i as int), sep@),
            decreases items@.len() - i,
        {
            proof {
                assert(items@.subrange(0, i + 1).subrange(0, i as int) =~= items@.subrange(0, i as int));
                assert(items@.subrange(0, i + 1)[i as int] == items@[i as int]);
                assert(decreases_to!(items => items@));
                assert(decreases_to!(items@ => items@[i as int]));
            }
            if i > 0 {
                s.append(sep);
            }
            let shown = items[i].display_name();
            s.append(shown.as_str());
            i = i + 1;
        }
        proof {
            assert(items@.subrange(0, items@.len() as int) =~= items@);
        }
        s
    }

    fn display_fields(fields: &Vec<(String, TypeDescriptor)>) -> (s: String)
        ensures
            s@ == descriptor_fields(fields@),
        decreases fields, 1int,
    {
        let mut s = String::new();
        let mut i: usize = 0;
        while i < fields.len()
            invariant
                i <= fields@.len(),
                s@ == descriptor_fields(fields@.subrange(0, i as int)),
            decreases fields@.len() - i,
        {
            proof {
                assert(fields@.subrange(0, i + 1).subrange(0, i as int) =~= fields@.subrange(0, i as int));
                assert(fields@.subrange(0, i + 1)[i as int] == fields@[i as int]);
                assert(decreases_to!(fields => fields@));
                assert(decreases_to!(fields@ => fields@[i as int]));
                assert(decreases_to!(fields@[i as int] => fields@[i as int].1));
                reveal_strlit(", ");
                reveal_strlit(": ");
            }
            if i > 0 {
                s.append(", ");
            }
            s.append(fields[i].0.as_str());
            s.append(": ");
            let shown = fields[i].1.display_name();
            s.append(shown.as_str());
            i = i + 1;
        }
        proof {
            assert(fields@.subrange(0, fields@.len() as int) =~= fields@);
        }
        s
    }

    fn display_variants(variants: &Vec<(String, Option<Box<TypeDescriptor>>)>) -> (s: String)
        ensures
            s@ == descriptor_variants(variants@),
        decreases variants, 1int,
    {
        let mut s = String::new();
        let mut i: usize = 0;
        while i < variants.len()
            invariant
                i <= variants@.len(),
                s@ == descriptor_variants(variants@.subrange(0, i as int)),
            decreases variants@.len() - i,
        {
            proof {
                assert(variants@.subrange(0, i + 1).subrange(0, i as int) =~= variants@.subrange(0, i as int));
                assert(variants@.subrange(0, i + 1)[i as int] == variants@[i as int]);
                reveal_strlit(", ");
                reveal_strlit("(");
                reveal_strlit(")");
            }
            if i > 0 {
                s.append(", ");
            }
            s.append(variants[i].0.as_str());
            match &variants[i].1 {
                Some(p) => {
                    proof {
                        assert(decreases_to!(variants => variants@));
                        assert(decreases_to!(variants@ => variants@[i as int]));
                        assert(decreases_to!(variants@[i as int] => variants@[i as int].1));
                    }
                    s.append("(");
                    let shown = p.display_name();
                    s.append(shown.as_str());
                    s.append(")");
                },
                None => {},
            }
            i = i + 1;
        }
        proof {
            assert(variants@.subrange(0, variants@.len() as int) =~= variants@);
        }
        s
    }
}

} // verus!

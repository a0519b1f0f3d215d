//! The semantic model of a workspace: its modules, the definitions and
//! references in them, and the types they were given; and the queries that
//! editors ask of it.

use vstd::prelude::*;
use vstd::string::StringSliceAdditionalSpecFns;
use vstd::utf8::encode_utf8;
use crate::source::{Location, SourceDatabase, SourceId};
use crate::text::{bytes_lt, compare_str};
use crate::types::{
    TypeGraph, TypeId, TypeNode, node_refs_below,
    bound_id, comma, count_false, lemma_before_differs, lemma_bound_id_insert, lemma_bound_id_update,
    lemma_count_false_update, lemma_insert_in_order, names_in_order,
};
use crate::value::lemma_utf8_injective;

verus! {

/// A module of a workspace, by its index.
#[derive(Clone, Copy, Debug, PartialEq, Eq, Structural, Hash, PartialOrd, Ord)]
pub struct WorkspaceModuleId(pub u32);

/// A definition of a workspace, by its index.
#[derive(Clone, Copy, Debug, PartialEq, Eq, Structural, Hash, PartialOrd, Ord)]
pub struct DefinitionId(pub u32);

/// A reference of a workspace, by its index.
#[derive(Clone, Copy, Debug, PartialEq, Eq, Structural, Hash, PartialOrd, Ord)]
pub struct ReferenceId(pub u32);

/// A type of a workspace's type graph, by its index.
#[derive(Clone, Copy, Debug, PartialEq, Eq, Structural, Hash, PartialOrd, Ord)]
pub struct WorkspaceTypeId(pub u32);

impl WorkspaceModuleId {
    pub fn index(self) -> (i: usize)
        ensures
            i == self.0,
    {
        self.0 as usize
    }
}

impl DefinitionId {
    pub fn index(self) -> (i: usize)
        ensures
            i == self.0,
    {
        self.0 as usize
    }
}

impl ReferenceId {
    pub fn index(self) -> (i: usize)
        ensures
            i == self.0,
    {
        self.0 as usize
    }
}

impl WorkspaceTypeId {
    pub fn index(self) -> (i: usize)
        ensures
            i == self.0,
    {
        self.0 as usize
    }
}

#[derive(Clone, Copy, Debug, PartialEq, Eq, Structural)]
pub enum WorkspaceModuleKind {
    Xl,
    Json,
    Core,
}

/// An import of a module: the name it binds, where, and the module.
#[derive(Clone, Debug)]
pub struct WorkspaceImport {
    pub name: String,
    pub location: Location,
    pub target: WorkspaceModuleId,
}

/// A module of a workspace. The path is kept as text.
#[derive(Clone, Debug)]
pub struct WorkspaceModule {
    pub id: WorkspaceModuleId,
    pub name: String,
    pub path: Option<String>,
    pub kind: WorkspaceModuleKind,
    pub source: Option<SourceId>,
    pub imports: Vec<WorkspaceImport>,
    pub result_location: Option<Location>,
    pub result_type: Option<WorkspaceTypeId>,
}

#[derive(Clone, Copy, Debug, PartialEq, Eq, Structural)]
pub enum DefinitionKind {
    Let,
    DefinitionSlot,
    NamedFunction,
    Type,
    Import,
    Native,
    Parameter,
    Pattern,
}

/// A definition: where a name is bound, of which kind and type.
#[derive(Clone, Debug)]
pub struct Definition {
    pub id: DefinitionId,
    pub module: WorkspaceModuleId,
    pub name: String,
    pub kind: DefinitionKind,
    pub location: Location,
    pub additional_locations: Vec<Location>,
    pub ty: Option<WorkspaceTypeId>,
    pub import_target: Option<WorkspaceModuleId>,
}

/// A reference: where a name is used, and the definition it resolves to.
#[derive(Clone, Debug)]
pub struct Reference {
    pub id: ReferenceId,
    pub module: WorkspaceModuleId,
    pub name: String,
    pub location: Location,
    pub definition: Option<DefinitionId>,
    pub external: bool,
}

/// A name a module exports, with its type.
#[derive(Clone, Debug)]
pub struct WorkspaceExport {
    pub name: String,
    pub ty: WorkspaceTypeId,
}

/// The nodes of a workspace's type graph. Struct fields and enum variants
/// are kept sorted by name.
#[derive(Clone, Debug)]
pub enum WorkspaceTypeNode {
    Pending,
    Ref(WorkspaceTypeId),
    Any,
    Int,
    Float,
    String,
    Bytes,
    Atom(String),
    Array(WorkspaceTypeId),
    Tuple(Vec<WorkspaceTypeId>),
    Struct(Vec<(String, WorkspaceTypeId)>),
    Enum(Vec<(String, Option<WorkspaceTypeId>)>),
    Union(Vec<WorkspaceTypeId>),
    Function { parameters: Vec<WorkspaceTypeId>, result: WorkspaceTypeId },
}

/// The first name (in name order) bound to `id`, if any.
pub open spec fn ws_name_of(names: Seq<(String, WorkspaceTypeId)>, id: WorkspaceTypeId) -> Option<Seq<char>>
    decreases names.len(),
{
    if names.len() == 0 {
        None
    } else if names[0].1 == id {
        Some(names[0].0@)
    } else {
        ws_name_of(names.drop_first(), id)
    }
}


/// The display of node `id`: nodes already being displayed (`active`) show
/// as their first name, or `recursive`.
pub open spec fn ws_show(
    nodes: Seq<WorkspaceTypeNode>,
    names: Seq<(String, WorkspaceTypeId)>,
    id: WorkspaceTypeId,
    active: Seq<bool>,
) -> Seq<char>
    decreases count_false(active), 0nat, 0nat,
{
    if id.0 >= nodes.len() || active.len() != nodes.len() {
        Seq::empty()
    } else if active[id.0 as int] {
        match ws_name_of(names, id) {
            Some(n) => n,
            None => "recursive"@,
        }
    } else {
        let a = active.update(id.0 as int, true);
        proof {
            lemma_count_false_update(active, id.0 as int);
        }
        match nodes[id.0 as int] {
            WorkspaceTypeNode::Pending => "<pending>"@,
            WorkspaceTypeNode::Ref(t) => ws_show(nodes, names, t, a),
            WorkspaceTypeNode::Any => "Any"@,
            WorkspaceTypeNode::Int => "Int"@,
            WorkspaceTypeNode::Float => "Float"@,
            WorkspaceTypeNode::String => "String"@,
            WorkspaceTypeNode::Bytes => "Bytes"@,
            WorkspaceTypeNode::Atom(atom) => seq!['\''] + atom@,
            WorkspaceTypeNode::Array(item) => "Array<"@ + ws_show(nodes, names, item, a) + seq!['>'],
            WorkspaceTypeNode::Tuple(items) => seq!['('] + ws_show_list(nodes, names, items@, a, comma())
                + seq![')'],
            WorkspaceTypeNode::Struct(fields) => seq!['{'] + ws_show_fields(nodes, names, fields@, a) + seq![
                '}',
            ],
            WorkspaceTypeNode::Enum(variants) => "enum {"@ + ws_show_variants(nodes, names, variants@, a)
                + seq!['}'],
            WorkspaceTypeNode::Union(items) => ws_show_list(nodes, names, items@, a, " | "@),
            WorkspaceTypeNode::Function { parameters, result } => "fn("@ + ws_show_list(
                nodes,
                names,
                parameters@,
                a,
                comma(),
            ) + ") -> "@ + ws_show(nodes, names, result, a),
        }
    }
}

/// The displays of `items`, separated by `sep`.
pub open spec fn ws_show_list(
    nodes: Seq<WorkspaceTypeNode>,
    names: Seq<(String, WorkspaceTypeId)>,
    items: Seq<WorkspaceTypeId>,
    active: Seq<bool>,
    sep: Seq<char>,
) -> Seq<char>
    decreases count_false(active), 1nat, items.len(),
{
    if items.len() == 0 {
        Seq::empty()
    } else if items.len() == 1 {
        ws_show(nodes, names, items[0], active)
    } else {
        ws_show_list(nodes, names, items.drop_last(), active, sep) + sep + ws_show(
            nodes,
            names,
            items.last(),
            active,
        )
    }
}

/// `name: type` for each field, separated by `, `.
pub open spec fn ws_show_fields(
    nodes: Seq<WorkspaceTypeNode>,
    names: Seq<(String, WorkspaceTypeId)>,
    fields: Seq<(String, WorkspaceTypeId)>,
    active: Seq<bool>,
) -> Seq<char>
    decreases count_false(active), 1nat, fields.len(),
{
    if fields.len() == 0 {
        Seq::empty()
    } else {
        let last = fields.last();
        let one = last.0@ + seq![':', ' '] + ws_show(nodes, names, last.1, active);
        if fields.len() == 1 {
            one
        } else {
            ws_show_fields(nodes, names, fields.drop_last(), active) + comma() + one
        }
    }
}

/// `name` or `name(type)` for each variant, separated by `, `.
pub open spec fn ws_show_variants(
    nodes: Seq<WorkspaceTypeNode>,
    names: Seq<(String, WorkspaceTypeId)>,
    variants: Seq<(String, Option<WorkspaceTypeId>)>,
    active: Seq<bool>,
) -> Seq<char>
    decreases count_false(active), 1nat, variants.len(),
{
    if variants.len() == 0 {
        Seq::empty()
    } else {
        let last = variants.last();
        let one = match last.1 {
            None => last.0@,
            Some(p) => last.0@ + seq!['('] + ws_show(nodes, names, p, active) + seq![')'],
        };
        if variants.len() == 1 {
            one
        } else {
            ws_show_variants(nodes, names, variants.drop_last(), active) + comma() + one
        }
    }
}

/// Every type id a node mentions.
pub open spec fn ws_refs_below(node: WorkspaceTypeNode, n: int) -> bool {
    match node {
        WorkspaceTypeNode::Ref(t) => t.0 < n,
        WorkspaceTypeNode::Array(t) => t.0 < n,
        WorkspaceTypeNode::Tuple(items) => forall|i: int| 0 <= i < items@.len() ==> (#[trigger] items@[i]).0 < n,
        WorkspaceTypeNode::Union(items) => forall|i: int| 0 <= i < items@.len() ==> (#[trigger] items@[i]).0 < n,
        WorkspaceTypeNode::Struct(fields) => forall|i: int| 0 <= i < fields@.len() ==> (#[trigger] fields@[i]).1.0 < n,
        WorkspaceTypeNode::Enum(variants) => forall|i: int|
            0 <= i < variants@.len() ==> ((#[trigger] variants@[i]).1 matches Some(t) ==> t.0 < n),
        WorkspaceTypeNode::Function { parameters, result } => result.0 < n && forall|i: int|
            0 <= i < parameters@.len() ==> (#[trigger] parameters@[i]).0 < n,
        _ => true,
    }
}

/// The type graph of a workspace, with named entries in name order.
#[derive(Clone, Debug)]
pub struct WorkspaceTypeGraph {
    nodes: Vec<WorkspaceTypeNode>,
    names: Vec<(String, WorkspaceTypeId)>,
}

impl WorkspaceTypeGraph {
    pub closed spec fn spec_nodes(self) -> Seq<WorkspaceTypeNode> {
        self.nodes@
    }

    pub closed spec fn spec_names(self) -> Seq<(String, WorkspaceTypeId)> {
        self.names@
    }

    /// Every id in the graph names one of its nodes.
    pub closed spec fn wf(self) -> bool {
        &&& self.nodes@.len() <= u32::MAX
        &&& forall|i: int|
            0 <= i < self.nodes@.len() ==> ws_refs_below(
                #[trigger] self.nodes@[i],
                self.nodes@.len() as int,
            )
        &&& forall|i: int| 0 <= i < self.nodes@.len() ==> ws_keys_ordered(#[trigger] self.nodes@[i])
        &&& forall|i: int|
            0 <= i < self.names@.len() ==> (#[trigger] self.names@[i]).1.0 < self.nodes@.len()
        &&& names_in_order(self.names@)
    }

    /// An empty graph.
    pub fn new() -> (g: WorkspaceTypeGraph)
        ensures
            g.wf(),
            g.spec_nodes().len() == 0,
            g.spec_names().len() == 0,
    {
        WorkspaceTypeGraph { nodes: Vec::new(), names: Vec::new() }
    }

    /// Adds a node whose ids are already in the graph, and returns its id.
    pub fn push(&mut self, node: WorkspaceTypeNode) -> (id: WorkspaceTypeId)
        requires
            old(self).wf(),
            old(self).spec_nodes().len() < u32::MAX,
            ws_refs_below(node, old(self).spec_nodes().len() as int),
            ws_keys_ordered(node),
        ensures
            final(self).wf(),
            id.0 == old(self).spec_nodes().len(),
            final(self).spec_nodes() == old(self).spec_nodes().push(node),
            final(self).spec_names() == old(self).spec_names(),
    {
        let id = WorkspaceTypeId(self.nodes.len() as u32);
        self.nodes.push(node);
        proof {
            assert forall|i: int| 0 <= i < self.nodes@.len() implies ws_refs_below(
                #[trigger] self.nodes@[i],
                self.nodes@.len() as int,
            ) by {
                lemma_ws_refs_below_grow(self.nodes@[i], old(self).nodes@.len() as int, self.nodes@.len() as int);
            }
        }
        id
    }

    /// Binds `name` to `id`, replacing an earlier binding of the name;
    /// names stay in byte order.
    pub fn bind(&mut self, name: &str, id: WorkspaceTypeId)
        requires
            old(self).wf(),
            id.0 < old(self).spec_nodes().len(),
        ensures
            final(self).wf(),
            final(self).spec_nodes() == old(self).spec_nodes(),
            forall|n: Seq<char>| #[trigger] bound_id(final(self).spec_names(), n) == if n == name@ {
                Some(id)
            } else {
                bound_id(old(self).spec_names(), n)
            },
    {
        proof {
            assert(name.spec_bytes() == encode_utf8(name@));
        }
        let mut i: usize = 0;
        while i < self.names.len()
            invariant
                self.wf(),
                self.nodes@ == old(self).nodes@,
                self.names@ == old(self).names@,
                i <= self.names@.len(),
                id.0 < self.nodes@.len(),
                name.spec_bytes() == encode_utf8(name@),
                forall|j: int| 0 <= j < i ==> bytes_lt(encode_utf8((#[trigger] self.names@[j]).0@), encode_utf8(name@)),
            decreases self.names@.len() - i,
        {
            let current = self.names[i].0.as_str();
            let c = compare_str(current, name);
            proof {
                assert(current.spec_bytes() == encode_utf8(current@));
            }
            if c == 0 {
                let entry = (String::from_str(name), id);
                proof {
                    lemma_utf8_injective(current@, name@);
                    assert forall|j: int| 0 <= j < i implies (#[trigger] self.names@[j]).0@ != entry.0@ by {
                        lemma_before_differs(self.names@[j].0@, name@);
                    }
                    lemma_bound_id_update(self.names@, i as int, entry);
                }
                self.names.set(i, entry);
                proof {
                    assert forall|q: int| 0 <= q < self.names@.len() implies (#[trigger] self.names@[q]).1.0 < self.nodes@.len() by {
                        if q != i {
                            assert(self.names@[q] == old(self).names@[q]);
                        }
                    }
                    assert forall|a: int, b: int| 0 <= a < b < self.names@.len() implies bytes_lt(
                        encode_utf8((#[trigger] self.names@[a]).0@),
                        encode_utf8((#[trigger] self.names@[b]).0@),
                    ) by {
                        assert(self.names@[a].0@ == old(self).names@[a].0@);
                        assert(self.names@[b].0@ == old(self).names@[b].0@);
                    }
                }
                return;
            }
            if c > 0 {
                let entry = (String::from_str(name), id);
                proof {
                    assert forall|j: int| 0 <= j < i implies (#[trigger] self.names@[j]).0@ != entry.0@ by {
                        lemma_before_differs(self.names@[j].0@, name@);
                    }
                    lemma_bound_id_insert(self.names@, i as int, entry);
                    lemma_insert_in_order(self.names@, i as int, entry);
                }
                self.names.insert(i, entry);
                proof {
                    assert forall|q: int| 0 <= q < self.names@.len() implies (#[trigger] self.names@[q]).1.0 < self.nodes@.len() by {
                        if q < i {
                            assert(self.names@[q] == old(self).names@[q]);
                        } else if q > i {
                            assert(self.names@[q] == old(self).names@[q - 1]);
                        }
                    }
                }
                return;
            }
            i = i + 1;
        }
        let entry = (String::from_str(name), id);
        proof {
            assert forall|j: int| 0 <= j < self.names@.len() implies (#[trigger] self.names@[j]).0@ != entry.0@ by {
                lemma_before_differs(self.names@[j].0@, name@);
            }
            lemma_bound_id_insert(self.names@, self.names@.len() as int, entry);
            lemma_insert_in_order(self.names@, self.names@.len() as int, entry);
            assert(self.names@.insert(self.names@.len() as int, entry) =~= self.names@.push(entry));
        }
        self.names.push(entry);
        proof {
            assert forall|q: int| 0 <= q < self.names@.len() implies (#[trigger] self.names@[q]).1.0 < self.nodes@.len() by {
                if q < self.names@.len() - 1 {
                    assert(self.names@[q] == old(self).names@[q]);
                }
            }
        }
    }

    /// The node `id`, if the graph has it.
    /// In a well-formed graph, struct fields and enum variants are named in
    /// strictly increasing order.
    pub proof fn lemma_keys_ordered(self)
        requires
            self.wf(),
        ensures
            forall|i: int| 0 <= i < self.spec_nodes().len() ==> ws_keys_ordered(#[trigger] self.spec_nodes()[i]),
    {
    }

    pub fn node(&self, id: WorkspaceTypeId) -> (n: Option<&WorkspaceTypeNode>)
        ensures
            id.0 < self.spec_nodes().len() ==> n is Some && *n->Some_0 == self.spec_nodes()[id.0 as int],
            id.0 >= self.spec_nodes().len() ==> n is None,
    {
        if id.index() < self.nodes.len() {
            Some(&self.nodes[id.index()])
        } else {
            None
        }
    }

    /// The named entries, in name order.
    pub fn names(&self) -> (r: Vec<(String, WorkspaceTypeId)>)
        ensures
            r@.len() == self.spec_names().len(),
            forall|i: int| 0 <= i < r@.len() ==> (#[trigger] r@[i]).0@ == self.spec_names()[i].0@ && r@[i].1 == self.spec_names()[i].1,
    {
        let mut out: Vec<(String, WorkspaceTypeId)> = Vec::new();
        let mut i: usize = 0;
        while i < self.names.len()
            invariant
                i <= self.names@.len(),
                out@.len() == i,
                forall|j: int| 0 <= j < i ==> (#[trigger] out@[j]).0@ == self.names@[j].0@ && out@[j].1 == self.names@[j].1,
            decreases self.names@.len() - i,
        {
            out.push((self.names[i].0.clone(), self.names[i].1));
            i = i + 1;
        }
        out
    }

    /// The nodes with their ids, in id order.
    pub fn nodes(&self) -> (r: Vec<(WorkspaceTypeId, &WorkspaceTypeNode)>)
        requires
            self.wf(),
        ensures
            r@.len() == self.spec_nodes().len(),
            forall|i: int| 0 <= i < r@.len() ==> (#[trigger] r@[i]).0.0 == i && *r@[i].1 == self.spec_nodes()[i],
    {
        let mut out: Vec<(WorkspaceTypeId, &WorkspaceTypeNode)> = Vec::new();
        let mut i: usize = 0;
        while i < self.nodes.len()
            invariant
                self.wf(),
                i <= self.nodes@.len(),
                out@.len() == i,
                forall|j: int| 0 <= j < i ==> (#[trigger] out@[j]).0.0 == j && *out@[j].1 == self.nodes@[j],
            decreases self.nodes@.len() - i,
        {
            out.push((WorkspaceTypeId(i as u32), &self.nodes[i]));
            i = i + 1;
        }
        out
    }

    /// The display of `id`, as `show` describes it: a node reached again
    /// while it is being displayed shows as its first name, or `recursive`.
    pub fn display(&self, id: WorkspaceTypeId) -> (s: Option<String>)
        requires
            self.wf(),
        ensures
            id.0 >= self.spec_nodes().len() ==> s is None,
            id.0 < self.spec_nodes().len() ==> s is Some && s->Some_0@ == ws_show(
                self.spec_nodes(),
                self.spec_names(),
                id,
                Seq::new(self.spec_nodes().len(), |i: int| false),
            ),
    {
        if id.index() >= self.nodes.len() {
            return None;
        }
        let mut active: Vec<bool> = Vec::new();
        let mut i: usize = 0;
        while i < self.nodes.len()
            invariant
                i <= self.nodes@.len(),
                active@ == Seq::new(i as nat, |k: int| false),
            decreases self.nodes@.len() - i,
        {
            active.push(false);
            i = i + 1;
        }
        Some(self.display_with(id, &mut active))
    }

    /// The first name bound to `id`, or `recursive`.
    fn name_or_recursive(&self, id: WorkspaceTypeId) -> (s: String)
        ensures
            s@ == match ws_name_of(self.names@, id) {
                Some(n) => n,
                None => "recursive"@,
            },
    {
        let mut i: usize = 0;
        assert(self.names@.subrange(0, self.names@.len() as int) =~= self.names@);
        while i < self.names.len()
            invariant
                i <= self.names@.len(),
                ws_name_of(self.names@, id) == ws_name_of(self.names@.subrange(i as int, self.names@.len() as int), id),
            decreases self.names@.len() - i,
        {
            proof {
                let t = self.names@.subrange(i as int, self.names@.len() as int);
                assert(t.drop_first() =~= self.names@.subrange(i + 1, self.names@.len() as int));
            }
            if self.names[i].1 == id {
                return self.names[i].0.clone();
            }
            i = i + 1;
        }
        proof {
            reveal_strlit("recursive");
        }
        String::from_str("recursive")
    }

    fn display_with(&self, id: WorkspaceTypeId, active: &mut Vec<bool>) -> (s: String)
        requires
            self.wf(),
            id.0 < self.spec_nodes().len(),
            old(active)@.len() == self.spec_nodes().len(),
        ensures
            final(active)@ == old(active)@,
            s@ == ws_show(self.nodes@, self.names@, id, old(active)@),
        decreases count_false(old(active)@), 0nat, 0nat,
    {
        let k = id.index();
        if active[k] {
            return self.name_or_recursive(id);
        }
        proof {
            lemma_count_false_update(active@, k as int);
        }
        active.set(k, true);
        let ghost a = active@;
        assert(a == old(active)@.update(k as int, true));
        let ghost expected = ws_show(self.nodes@, self.names@, id, old(active)@);
        let shown = match &self.nodes[k] {
            WorkspaceTypeNode::Pending => {
                proof { reveal_strlit("<pending>"); }
                let r = String::from_str("<pending>");
                assert(r@ == expected);
                r
            },
            WorkspaceTypeNode::Ref(t) => {
                let r = self.display_with(*t, active);
                assert(r@ == expected);
                r
            },
            WorkspaceTypeNode::Any => {
                proof { reveal_strlit("Any"); }
                let r = String::from_str("Any");
                assert(r@ == expected);
                r
            },
            WorkspaceTypeNode::Int => {
                proof { reveal_strlit("Int"); }
                let r = String::from_str("Int");
                assert(r@ == expected);
                r
            },
            WorkspaceTypeNode::Float => {
                proof { reveal_strlit("Float"); }
                let r = String::from_str("Float");
                assert(r@ == expected);
                r
            },
            WorkspaceTypeNode::String => {
                proof { reveal_strlit("String"); }
                let r = String::from_str("String");
                assert(r@ == expected);
                r
            },
            WorkspaceTypeNode::Bytes => {
                proof { reveal_strlit("Bytes"); }
                let r = String::from_str("Bytes");
                assert(r@ == expected);
                r
            },
            WorkspaceTypeNode::Atom(atom) => {
                proof { reveal_strlit("'"); }
                let mut s = String::from_str("'");
                s.append(atom.as_str());
                assert(s@ == expected);
                s
            },
            WorkspaceTypeNode::Array(item) => {
                proof { reveal_strlit("Array<"); reveal_strlit(">"); }
                let mut s = String::from_str("Array<");
                let inner = self.display_with(*item, active);
                s.append(inner.as_str());
                s.append(">");
                assert(s@ == expected);
                s
            },
            WorkspaceTypeNode::Tuple(items) => {
                proof { reveal_strlit("("); reveal_strlit(")"); reveal_strlit(", "); assert(", "@ =~= comma()); }
                let mut s = String::from_str("(");
                let inner = self.display_list(items, active, ", ");
                s.append(inner.as_str());
                s.append(")");
                assert(s@ == expected);
                s
            },
            WorkspaceTypeNode::Struct(fields) => {
                proof { reveal_strlit("{"); reveal_strlit("}"); }
                let mut s = String::from_str("{");
                let inner = self.display_fields(fields, active);
                s.append(inner.as_str());
                s.append("}");
                assert(s@ == expected);
                s
            },
            WorkspaceTypeNode::Enum(variants) => {
                proof { reveal_strlit("enum {"); reveal_strlit("}"); }
                let mut s = String::from_str("enum {");
                let inner = self.display_variants(variants, active);
                s.append(inner.as_str());
                s.append("}");
                assert(s@ == expected);
                s
            },
            WorkspaceTypeNode::Union(items) => {
                proof { reveal_strlit(" | "); }
                let r = self.display_list(items, active, " | ");
                assert(r@ == expected);
                r
            },
            WorkspaceTypeNode::Function { parameters, result } => {
                proof { reveal_strlit("fn("); reveal_strlit(") -> "); reveal_strlit(", "); assert(", "@ =~= comma()); }
                let mut s = String::from_str("fn(");
                let inner = self.display_list(parameters, active, ", ");
                s.append(inner.as_str());
                s.append(") -> ");
                let r = self.display_with(*result, active);
                s.append(r.as_str());
                assert(s@ == expected);
                s
            },
        };
        proof {
            assert(active@ == a);
        }
        active.set(k, false);
        proof {
            assert(active@ =~= old(active)@);
        }
        shown
    }

    fn display_list(&self, items: &Vec<WorkspaceTypeId>, active: &mut Vec<bool>, sep: &str) -> (s: String)
        requires
            self.wf(),
            old(active)@.len() == self.spec_nodes().len(),
            forall|i: int| 0 <= i < items@.len() ==> (#[trigger] items@[i]).0 < self.spec_nodes().len(),
        ensures
            final(active)@ == old(active)@,
            s@ == ws_show_list(self.nodes@, self.names@, items@, old(active)@, sep@),
        decreases count_false(old(active)@), 1nat, items@.len(),
    {
        let mut s = String::new();
        let mut i: usize = 0;
        while i < items.len()
            invariant
                self.wf(),
                active@ == old(active)@,
                active@.len() == self.spec_nodes().len(),
                i <= items@.len(),
                forall|q: int| 0 <= q < items@.len() ==> (#[trigger] items@[q]).0 < self.spec_nodes().len(),
                s@ == ws_show_list(self.nodes@, self.names@, items@.take(i as int), active@, sep@),
            decreases items@.len() - i,
        {
            proof {
                assert(items@.take(i + 1).drop_last() =~= items@.take(i as int));
                assert(items@.take(i + 1).last() == items@[i as int]);
            }
            if i > 0 {
                s.append(sep);
            }
            let shown = self.display_with(items[i], active);
            s.append(shown.as_str());
            proof {
                if i == 0 {
                    assert(items@.take(1) =~= seq![items@[0]]);
                }
            }
            i = i + 1;
        }
        proof {
            assert(items@.take(items@.len() as int) =~= items@);
        }
        s
    }

    fn display_fields(&self, fields: &Vec<(String, WorkspaceTypeId)>, active: &mut Vec<bool>) -> (s: String)
        requires
            self.wf(),
            old(active)@.len() == self.spec_nodes().len(),
            forall|i: int| 0 <= i < fields@.len() ==> (#[trigger] fields@[i]).1.0 < self.spec_nodes().len(),
        ensures
            final(active)@ == old(active)@,
            s@ == ws_show_fields(self.nodes@, self.names@, fields@, old(active)@),
        decreases count_false(old(active)@), 1nat, fields@.len(),
    {
        let mut s = String::new();
        let mut i: usize = 0;
        while i < fields.len()
            invariant
                self.wf(),
                active@ == old(active)@,
                active@.len() == self.spec_nodes().len(),
                i <= fields@.len(),
                forall|q: int| 0 <= q < fields@.len() ==> (#[trigger] fields@[q]).1.0 < self.spec_nodes().len(),
                s@ == ws_show_fields(self.nodes@, self.names@, fields@.take(i as int), active@),
            decreases fields@.len() - i,
        {
            proof {
                assert(fields@.take(i + 1).drop_last() =~= fields@.take(i as int));
                assert(fields@.take(i + 1).last() == fields@[i as int]);
                reveal_strlit(", ");
                reveal_strlit(": ");
            }
            if i > 0 {
                s.append(", ");
            }
            s.append(fields[i].0.as_str());
            s.append(": ");
            let shown = self.display_with(fields[i].1, active);
            s.append(shown.as_str());
            i = i + 1;
        }
        proof {
            assert(fields@.take(fields@.len() as int) =~= fields@);
        }
        s
    }

    fn display_variants(&self, variants: &Vec<(String, Option<WorkspaceTypeId>)>, active: &mut Vec<bool>) -> (s: String)
        requires
            self.wf(),
            old(active)@.len() == self.spec_nodes().len(),
            forall|i: int| 0 <= i < variants@.len() ==> ((#[trigger] variants@[i]).1 matches Some(t) ==> t.0 < self.spec_nodes().len()),
        ensures
            final(active)@ == old(active)@,
            s@ == ws_show_variants(self.nodes@, self.names@, variants@, old(active)@),
        decreases count_false(old(active)@), 1nat, variants@.len(),
    {
        let mut s = String::new();
        let mut i: usize = 0;
        while i < variants.len()
            invariant
                self.wf(),
                active@ == old(active)@,
                active@.len() == self.spec_nodes().len(),
                i <= variants@.len(),
                forall|q: int| 0 <= q < variants@.len() ==> ((#[trigger] variants@[q]).1 matches Some(t) ==> t.0 < self.spec_nodes().len()),
                s@ == ws_show_variants(self.nodes@, self.names@, variants@.take(i as int), active@),
            decreases variants@.len() - i,
        {
            proof {
                assert(variants@.take(i + 1).drop_last() =~= variants@.take(i as int));
                assert(variants@.take(i + 1).last() == variants@[i as int]);
                reveal_strlit(", ");
                reveal_strlit("(");
                reveal_strlit(")");
            }
            if i > 0 {
                s.append(", ");
            }
            s.append(variants[i].0.as_str());
            match variants[i].1 {
                Some(p) => {
                    s.append("(");
                    let shown = self.display_with(p, active);
                    s.append(shown.as_str());
                    s.append(")");
                },
                None => {},
            }
            i = i + 1;
        }
        proof {
            assert(variants@.take(variants@.len() as int) =~= variants@);
        }
        s
    }
}

/// The number of source nodes not yet merged.
pub open spec fn count_none<T>(s: Seq<Option<T>>) -> nat
    decreases s.len(),
{
    if s.len() == 0 {
        0
    } else {
        count_none(s.drop_last()) + if s.last() is None {
            1nat
        } else {
            0nat
        }
    }
}

proof fn lemma_count_none_fill<T>(s: Seq<Option<T>>, i: int, x: T)
    requires
        0 <= i < s.len(),
        s[i] is None,
    ensures
        count_none(s.update(i, Some(x))) + 1 == count_none(s),
    decreases s.len(),
{
    let t = s.update(i, Some(x));
    if i == s.len() - 1 {
        assert(t.drop_last() =~= s.drop_last());
    } else {
        assert(t.drop_last() =~= s.drop_last().update(i, Some(x)));
        lemma_count_none_fill(s.drop_last(), i, x);
    }
}

proof fn lemma_count_none_bound<T>(s: Seq<Option<T>>)
    ensures
        count_none(s) <= s.len(),
    decreases s.len(),
{
    if s.len() > 0 {
        lemma_count_none_bound(s.drop_last());
    }
}

proof fn lemma_count_none_zero<T>(s: Seq<Option<T>>, i: int)
    requires
        count_none(s) == 0,
        0 <= i < s.len(),
    ensures
        s[i] is Some,
    decreases s.len(),
{
    if i < s.len() - 1 {
        lemma_count_none_zero(s.drop_last(), i);
    }
}

/// `m` sends `t` somewhere.
pub open spec fn id_mapped(m: Seq<Option<WorkspaceTypeId>>, t: TypeId) -> bool {
    t.0 < m.len() && m[t.0 as int] is Some
}

pub open spec fn mapped_id(m: Seq<Option<WorkspaceTypeId>>, t: TypeId) -> WorkspaceTypeId {
    m[t.0 as int]->Some_0
}

pub open spec fn mapped_ids(m: Seq<Option<WorkspaceTypeId>>, ts: Seq<TypeId>) -> Seq<WorkspaceTypeId> {
    ts.map_values(|t: TypeId| mapped_id(m, t))
}

/// Every id the source node mentions is sent somewhere.
pub open spec fn children_mapped(node: TypeNode, m: Seq<Option<WorkspaceTypeId>>) -> bool {
    match node {
        TypeNode::Ref(t) => id_mapped(m, t),
        TypeNode::Array(t) => id_mapped(m, t),
        TypeNode::Tuple(items) => forall|i: int| 0 <= i < items@.len() ==> id_mapped(m, #[trigger] items@[i]),
        TypeNode::Union(items) => forall|i: int| 0 <= i < items@.len() ==> id_mapped(m, #[trigger] items@[i]),
        TypeNode::Struct(fields) => forall|i: int|
            0 <= i < fields@.len() ==> id_mapped(m, (#[trigger] fields@[i]).1),
        TypeNode::Enum(variants) => forall|i: int|
            0 <= i < variants@.len() ==> ((#[trigger] variants@[i]).1 matches Some(t) ==> id_mapped(m, t)),
        TypeNode::Function { parameters, result } => id_mapped(m, result) && forall|i: int|
            0 <= i < parameters@.len() ==> id_mapped(m, #[trigger] parameters@[i]),
        _ => true,
    }
}

/// `dst` is the source node `src` with every id sent through `m` and an atom
/// kept by its name.
pub open spec fn node_merged(src: TypeNode, dst: WorkspaceTypeNode, m: Seq<Option<WorkspaceTypeId>>) -> bool {
    match src {
        TypeNode::Pending => dst is Pending,
        TypeNode::Ref(t) => dst == WorkspaceTypeNode::Ref(mapped_id(m, t)),
        TypeNode::Any => dst is Any,
        TypeNode::Int => dst is Int,
        TypeNode::Float => dst is Float,
        TypeNode::String => dst is String,
        TypeNode::Bytes => dst is Bytes,
        TypeNode::Atom(a) => dst matches WorkspaceTypeNode::Atom(name) && name@ == a.spec_name(),
        TypeNode::Array(t) => dst == WorkspaceTypeNode::Array(mapped_id(m, t)),
        TypeNode::Tuple(items) => dst matches WorkspaceTypeNode::Tuple(out) && out@ == mapped_ids(m, items@),
        TypeNode::Union(items) => dst matches WorkspaceTypeNode::Union(out) && out@ == mapped_ids(m, items@),
        TypeNode::Struct(fields) => dst matches WorkspaceTypeNode::Struct(out) && out@.len()
            == fields@.len() && forall|i: int|
            0 <= i < fields@.len() ==> (#[trigger] out@[i]).0@ == fields@[i].0@ && out@[i].1 == mapped_id(
                m,
                fields@[i].1,
            ),
        TypeNode::Enum(variants) => dst matches WorkspaceTypeNode::Enum(out) && out@.len()
            == variants@.len() && forall|i: int|
            0 <= i < variants@.len() ==> (#[trigger] out@[i]).0@ == variants@[i].0@ && out@[i].1 == match variants@[i].1 {
                Some(t) => Some(mapped_id(m, t)),
                None => None,
            },
        TypeNode::Function { parameters, result } => dst matches WorkspaceTypeNode::Function {
            parameters: ps,
            result: r,
        } && ps@ == mapped_ids(m, parameters@) && r == mapped_id(m, result),
    }
}

/// `n` keeps every entry of `m`.
pub open spec fn mapping_extends(m: Seq<Option<WorkspaceTypeId>>, n: Seq<Option<WorkspaceTypeId>>) -> bool {
    &&& m.len() == n.len()
    &&& forall|i: int| 0 <= i < m.len() && (#[trigger] m[i]) is Some ==> n[i] == m[i]
}

proof fn lemma_count_none_extends(m: Seq<Option<WorkspaceTypeId>>, n: Seq<Option<WorkspaceTypeId>>)
    requires
        mapping_extends(m, n),
    ensures
        count_none(n) <= count_none(m),
    decreases m.len(),
{
    if m.len() > 0 {
        assert(mapping_extends(m.drop_last(), n.drop_last()));
        lemma_count_none_extends(m.drop_last(), n.drop_last());
        assert(m.last() == m[m.len() - 1]);
    }
}

proof fn lemma_merged_stable(
    src: TypeNode,
    dst: WorkspaceTypeNode,
    m: Seq<Option<WorkspaceTypeId>>,
    n: Seq<Option<WorkspaceTypeId>>,
)
    requires
        mapping_extends(m, n),
        children_mapped(src, m),
        node_merged(src, dst, m),
    ensures
        children_mapped(src, n),
        node_merged(src, dst, n),
{
    match src {
        TypeNode::Ref(t) => {
            assert(m[t.0 as int] is Some);
        },
        TypeNode::Array(t) => {
            assert(m[t.0 as int] is Some);
        },
        TypeNode::Tuple(items) => {
            assert forall|i: int| 0 <= i < items@.len() implies id_mapped(n, #[trigger] items@[i]) && mapped_id(
                n,
                items@[i],
            ) == mapped_id(m, items@[i]) by {
                assert(id_mapped(m, items@[i]));
                assert(m[items@[i].0 as int] is Some);
            }
            assert(mapped_ids(n, items@) =~= mapped_ids(m, items@));
        },
        TypeNode::Union(items) => {
            assert forall|i: int| 0 <= i < items@.len() implies id_mapped(n, #[trigger] items@[i]) && mapped_id(
                n,
                items@[i],
            ) == mapped_id(m, items@[i]) by {
                assert(id_mapped(m, items@[i]));
                assert(m[items@[i].0 as int] is Some);
            }
            assert(mapped_ids(n, items@) =~= mapped_ids(m, items@));
        },
        TypeNode::Struct(fields) => {
            assert forall|i: int| 0 <= i < fields@.len() implies id_mapped(n, (#[trigger] fields@[i]).1)
                && mapped_id(n, fields@[i].1) == mapped_id(m, fields@[i].1) by {
                assert(id_mapped(m, fields@[i].1));
                assert(m[fields@[i].1.0 as int] is Some);
            }
        },
        TypeNode::Enum(variants) => {
            assert forall|i: int| 0 <= i < variants@.len() && (#[trigger] variants@[i]).1 is Some implies id_mapped(
                n,
                variants@[i].1->Some_0,
            ) && mapped_id(n, variants@[i].1->Some_0) == mapped_id(m, variants@[i].1->Some_0) by {
                assert(id_mapped(m, variants@[i].1->Some_0));
                assert(m[variants@[i].1->Some_0.0 as int] is Some);
            }
        },
        TypeNode::Function { parameters, result } => {
            assert(m[result.0 as int] is Some);
            assert forall|i: int| 0 <= i < parameters@.len() implies id_mapped(n, #[trigger] parameters@[i])
                && mapped_id(n, parameters@[i]) == mapped_id(m, parameters@[i]) by {
                assert(id_mapped(m, parameters@[i]));
                assert(m[parameters@[i].0 as int] is Some);
            }
            assert(mapped_ids(n, parameters@) =~= mapped_ids(m, parameters@));
        },
        _ => {},
    }
}

/// Where the merge began in the target: its length less the nodes merged.
pub open spec fn merge_base(target: WorkspaceTypeGraph, m: Seq<Option<WorkspaceTypeId>>) -> int {
    target.spec_nodes().len() + count_none(m) - m.len()
}

/// Source node `i` has been merged: its ids are sent, and its target node
/// says what it says.
pub open spec fn merged_at(
    source: TypeGraph,
    target: WorkspaceTypeGraph,
    m: Seq<Option<WorkspaceTypeId>>,
    i: int,
) -> bool {
    &&& children_mapped(source.spec_nodes()[i], m)
    &&& node_merged(source.spec_nodes()[i], target.spec_nodes()[m[i]->Some_0.0 as int], m)
}

pub open spec fn merge_inv(source: TypeGraph, target: WorkspaceTypeGraph, m: Seq<Option<WorkspaceTypeId>>) -> bool {
    &&& source.wf()
    &&& target.wf()
    &&& m.len() == source.spec_nodes().len()
    &&& 0 <= merge_base(target, m)
    &&& merge_base(target, m) + m.len() <= u32::MAX
    &&& forall|i: int|
        0 <= i < m.len() && (#[trigger] m[i]) is Some ==> merge_base(target, m) <= m[i]->Some_0.0
            < target.spec_nodes().len()
    &&& forall|i: int, j: int|
        0 <= i < m.len() && 0 <= j < m.len() && i != j && (#[trigger] m[i]) is Some && (#[trigger] m[j]) is Some
            ==> m[i] != m[j]
    &&& forall|i: int|
        0 <= i < m.len() && (#[trigger] m[i]) is Some ==> target.spec_nodes()[m[i]->Some_0.0 as int] is Pending
            || merged_at(source, target, m, i)
}

/// A step of the merge keeps the base, the earlier target nodes and names,
/// every entry of the mapping, and every merged node; what it adds is merged.
pub open spec fn merge_step(
    source: TypeGraph,
    t0: WorkspaceTypeGraph,
    m0: Seq<Option<WorkspaceTypeId>>,
    t1: WorkspaceTypeGraph,
    m1: Seq<Option<WorkspaceTypeId>>,
) -> bool {
    &&& merge_inv(source, t1, m1)
    &&& mapping_extends(m0, m1)
    &&& merge_base(t1, m1) == merge_base(t0, m0)
    &&& t1.spec_nodes().len() >= t0.spec_nodes().len()
    &&& forall|k: int| 0 <= k < t0.spec_nodes().len() ==> #[trigger] t1.spec_nodes()[k] == t0.spec_nodes()[k]
    &&& t1.spec_names() == t0.spec_names()
    &&& forall|i: int|
        0 <= i < m1.len() && (#[trigger] m1[i]) is Some && (m0[i] is None || merged_at(source, t0, m0, i))
            ==> merged_at(source, t1, m1, i)
}

proof fn lemma_merge_step_trans(
    source: TypeGraph,
    t0: WorkspaceTypeGraph,
    m0: Seq<Option<WorkspaceTypeId>>,
    t1: WorkspaceTypeGraph,
    m1: Seq<Option<WorkspaceTypeId>>,
    t2: WorkspaceTypeGraph,
    m2: Seq<Option<WorkspaceTypeId>>,
)
    requires
        merge_inv(source, t0, m0),
        merge_step(source, t0, m0, t1, m1),
        merge_step(source, t1, m1, t2, m2),
    ensures
        merge_step(source, t0, m0, t2, m2),
{
    assert forall|i: int| 0 <= i < m2.len() && (#[trigger] m2[i]) is Some && (m0[i] is None || merged_at(
        source,
        t0,
        m0,
        i,
    )) implies merged_at(source, t2, m2, i) by {
        if m1[i] is Some {
            if m0[i] is Some {
                assert(m1[i] == m0[i]);
            }
            assert(merged_at(source, t1, m1, i));
        }
    }
    assert forall|i: int| 0 <= i < m0.len() && (#[trigger] m0[i]) is Some implies m2[i] == m0[i] by {
        assert(m1[i] == m0[i]);
    }
}

impl WorkspaceTypeGraph {
    proof fn lemma_merge_node_stable(
        source: TypeGraph,
        t0: WorkspaceTypeGraph,
        m0: Seq<Option<WorkspaceTypeId>>,
        t1: WorkspaceTypeGraph,
        m1: Seq<Option<WorkspaceTypeId>>,
        i: int,
    )
        requires
            0 <= i < m0.len(),
            m0[i] is Some,
            m0[i]->Some_0.0 < t0.spec_nodes().len(),
            t1.spec_nodes()[m0[i]->Some_0.0 as int] == t0.spec_nodes()[m0[i]->Some_0.0 as int],
            mapping_extends(m0, m1),
            merged_at(source, t0, m0, i),
        ensures
            merged_at(source, t1, m1, i),
    {
        assert(m1[i] == m0[i]);
        lemma_merged_stable(
            source.spec_nodes()[i],
            t0.spec_nodes()[m0[i]->Some_0.0 as int],
            m0,
            m1,
        );
    }
}

proof fn lemma_mapped_ids_stable(m: Seq<Option<WorkspaceTypeId>>, n: Seq<Option<WorkspaceTypeId>>, ids: Seq<TypeId>)
    requires
        mapping_extends(m, n),
        forall|i: int| 0 <= i < ids.len() ==> id_mapped(m, #[trigger] ids[i]),
    ensures
        forall|i: int| 0 <= i < ids.len() ==> id_mapped(n, #[trigger] ids[i]),
        mapped_ids(n, ids) == mapped_ids(m, ids),
{
    assert forall|i: int| 0 <= i < ids.len() implies id_mapped(n, #[trigger] ids[i]) && mapped_id(n, ids[i])
        == mapped_id(m, ids[i]) by {
        assert(m[ids[i].0 as int] is Some);
    }
    assert(mapped_ids(n, ids) =~= mapped_ids(m, ids));
}

fn merge_ids(
    ids: &Vec<TypeId>,
    source: &TypeGraph,
    target: &mut WorkspaceTypeGraph,
    mapped: &mut Vec<Option<WorkspaceTypeId>>,
) -> (r: Vec<WorkspaceTypeId>)
    requires
        merge_inv(*source, *old(target), old(mapped)@),
        forall|i: int| 0 <= i < ids@.len() ==> (#[trigger] ids@[i]).0 < source.spec_nodes().len(),
    ensures
        merge_step(*source, *old(target), old(mapped)@, *final(target), final(mapped)@),
        forall|i: int| 0 <= i < ids@.len() ==> id_mapped(final(mapped)@, #[trigger] ids@[i]),
        r@ == mapped_ids(final(mapped)@, ids@),
    decreases count_none(old(mapped)@), 1nat,
{
    let mut out: Vec<WorkspaceTypeId> = Vec::new();
    let mut i: usize = 0;
    while i < ids.len()
        invariant
            merge_inv(*source, *old(target), old(mapped)@),
            merge_step(*source, *old(target), old(mapped)@, *target, mapped@),
            count_none(mapped@) <= count_none(old(mapped)@),
            forall|j: int| 0 <= j < ids@.len() ==> (#[trigger] ids@[j]).0 < source.spec_nodes().len(),
            i <= ids@.len(),
            forall|j: int| 0 <= j < i ==> id_mapped(mapped@, #[trigger] ids@[j]),
            out@ == mapped_ids(mapped@, ids@.take(i as int)),
        decreases ids@.len() - i,
    {
        let ghost t0 = *target;
        let ghost m0 = mapped@;
        let w = merge_type_node(ids[i], source, target, mapped);
        proof {
            lemma_merge_step_trans(*source, *old(target), old(mapped)@, t0, m0, *target, mapped@);
            lemma_count_none_extends(old(mapped)@, mapped@);
            lemma_mapped_ids_stable(m0, mapped@, ids@.take(i as int));
            assert forall|j: int| 0 <= j < i + 1 implies id_mapped(mapped@, #[trigger] ids@[j]) by {
                if j < i {
                    assert(ids@.take(i as int)[j] == ids@[j]);
                }
            }
        }
        out.push(w);
        proof {
            assert(out@ =~= mapped_ids(mapped@, ids@.take(i as int + 1)));
        }
        i = i + 1;
    }
    proof {
        assert(ids@.take(i as int) =~= ids@);
    }
    out
}

fn merge_fields(
    fields: &Vec<(String, TypeId)>,
    source: &TypeGraph,
    target: &mut WorkspaceTypeGraph,
    mapped: &mut Vec<Option<WorkspaceTypeId>>,
) -> (r: Vec<(String, WorkspaceTypeId)>)
    requires
        merge_inv(*source, *old(target), old(mapped)@),
        forall|i: int| 0 <= i < fields@.len() ==> (#[trigger] fields@[i]).1.0 < source.spec_nodes().len(),
    ensures
        merge_step(*source, *old(target), old(mapped)@, *final(target), final(mapped)@),
        r@.len() == fields@.len(),
        forall|i: int| 0 <= i < fields@.len() ==> id_mapped(final(mapped)@, (#[trigger] fields@[i]).1)
            && r@[i].0@ == fields@[i].0@ && r@[i].1 == mapped_id(final(mapped)@, fields@[i].1),
    decreases count_none(old(mapped)@), 1nat,
{
    let mut out: Vec<(String, WorkspaceTypeId)> = Vec::new();
    let mut i: usize = 0;
    while i < fields.len()
        invariant
            merge_inv(*source, *old(target), old(mapped)@),
            merge_step(*source, *old(target), old(mapped)@, *target, mapped@),
            count_none(mapped@) <= count_none(old(mapped)@),
            forall|j: int| 0 <= j < fields@.len() ==> (#[trigger] fields@[j]).1.0 < source.spec_nodes().len(),
            i <= fields@.len(),
            out@.len() == i,
            forall|j: int| 0 <= j < i ==> id_mapped(mapped@, (#[trigger] fields@[j]).1) && out@[j].0@
                == fields@[j].0@ && out@[j].1 == mapped_id(mapped@, fields@[j].1),
        decreases fields@.len() - i,
    {
        let ghost t0 = *target;
        let ghost m0 = mapped@;
        let w = merge_type_node(fields[i].1, source, target, mapped);
        proof {
            lemma_merge_step_trans(*source, *old(target), old(mapped)@, t0, m0, *target, mapped@);
            lemma_count_none_extends(old(mapped)@, mapped@);
            assert forall|j: int| 0 <= j < i implies id_mapped(mapped@, (#[trigger] fields@[j]).1)
                && mapped_id(mapped@, fields@[j].1) == mapped_id(m0, fields@[j].1) by {
                assert(m0[fields@[j].1.0 as int] is Some);
            }
        }
        out.push((fields[i].0.clone(), w));
        i = i + 1;
    }
    out
}

fn merge_variants(
    variants: &Vec<(String, Option<TypeId>)>,
    source: &TypeGraph,
    target: &mut WorkspaceTypeGraph,
    mapped: &mut Vec<Option<WorkspaceTypeId>>,
) -> (r: Vec<(String, Option<WorkspaceTypeId>)>)
    requires
        merge_inv(*source, *old(target), old(mapped)@),
        forall|i: int| 0 <= i < variants@.len() ==> ((#[trigger] variants@[i]).1 matches Some(t) ==> t.0
            < source.spec_nodes().len()),
    ensures
        merge_step(*source, *old(target), old(mapped)@, *final(target), final(mapped)@),
        r@.len() == variants@.len(),
        forall|i: int| 0 <= i < variants@.len() ==> ((#[trigger] variants@[i]).1 matches Some(t) ==> id_mapped(
            final(mapped)@,
            t,
        )) && r@[i].0@ == variants@[i].0@ && r@[i].1 == match variants@[i].1 {
            Some(t) => Some(mapped_id(final(mapped)@, t)),
            None => None,
        },
    decreases count_none(old(mapped)@), 1nat,
{
    let mut out: Vec<(String, Option<WorkspaceTypeId>)> = Vec::new();
    let mut i: usize = 0;
    while i < variants.len()
        invariant
            merge_inv(*source, *old(target), old(mapped)@),
            merge_step(*source, *old(target), old(mapped)@, *target, mapped@),
            count_none(mapped@) <= count_none(old(mapped)@),
            forall|j: int| 0 <= j < variants@.len() ==> ((#[trigger] variants@[j]).1 matches Some(t) ==> t.0
                < source.spec_nodes().len()),
            i <= variants@.len(),
            out@.len() == i,
            forall|j: int| 0 <= j < i ==> ((#[trigger] variants@[j]).1 matches Some(t) ==> id_mapped(mapped@, t))
                && out@[j].0@ == variants@[j].0@ && out@[j].1 == match variants@[j].1 {
                Some(t) => Some(mapped_id(mapped@, t)),
                None => None,
            },
        decreases variants@.len() - i,
    {
        let payload = match variants[i].1 {
            Some(child) => {
                let ghost t0 = *target;
                let ghost m0 = mapped@;
                let w = merge_type_node(child, source, target, mapped);
                proof {
                    lemma_merge_step_trans(*source, *old(target), old(mapped)@, t0, m0, *target, mapped@);
                    lemma_count_none_extends(old(mapped)@, mapped@);
                    assert forall|j: int| 0 <= j < i && (#[trigger] variants@[j]).1 is Some implies id_mapped(
                        mapped@,
                        variants@[j].1->Some_0,
                    ) && mapped_id(mapped@, variants@[j].1->Some_0) == mapped_id(m0, variants@[j].1->Some_0) by {
                        assert(m0[variants@[j].1->Some_0.0 as int] is Some);
                    }
                }
                Some(w)
            },
            None => None,
        };
        out.push((variants[i].0.clone(), payload));
        i = i + 1;
    }
    out
}

/// Merges source node `id`, and what it refers to, into `target`, once:
/// `mapped` records where each source node went.
fn merge_type_node(
    id: TypeId,
    source: &TypeGraph,
    target: &mut WorkspaceTypeGraph,
    mapped: &mut Vec<Option<WorkspaceTypeId>>,
) -> (out: WorkspaceTypeId)
    requires
        merge_inv(*source, *old(target), old(mapped)@),
        id.0 < source.spec_nodes().len(),
    ensures
        merge_step(*source, *old(target), old(mapped)@, *final(target), final(mapped)@),
        final(mapped)@[id.0 as int] == Some(out),
    decreases count_none(old(mapped)@), 0nat,
{
    if let Some(out) = mapped[id.index()] {
        return out;
    }
    proof {
        source.lemma_wf();
        lemma_count_none_fill(mapped@, id.0 as int, WorkspaceTypeId(0));
        lemma_count_none_bound(mapped@);
    }
    let output = WorkspaceTypeId(target.nodes.len() as u32);
    target.push(WorkspaceTypeNode::Pending);
    proof {
        lemma_count_none_fill(mapped@, id.0 as int, output);
    }
    mapped.set(id.index(), Some(output));
    let ghost reg_t = *target;
    let ghost reg_m = mapped@;
    proof {
        let t0 = *old(target);
        let m0 = old(mapped)@;
        assert forall|i: int| 0 <= i < reg_m.len() && (#[trigger] reg_m[i]) is Some implies merge_base(reg_t, reg_m)
            <= reg_m[i]->Some_0.0 < reg_t.spec_nodes().len() by {
            if i != id.0 {
                assert(m0[i] is Some);
            }
        }
        assert forall|i: int, j: int|
            0 <= i < reg_m.len() && 0 <= j < reg_m.len() && i != j && (#[trigger] reg_m[i]) is Some && (
            #[trigger] reg_m[j]) is Some implies reg_m[i] != reg_m[j] by {
            if i != id.0 && j != id.0 {
                assert(m0[i] is Some && m0[j] is Some);
            } else if i == id.0 {
                assert(m0[j] is Some);
            } else {
                assert(m0[i] is Some);
            }
        }
        assert(mapping_extends(m0, reg_m));
        assert forall|i: int| 0 <= i < reg_m.len() && (#[trigger] reg_m[i]) is Some implies reg_t.spec_nodes()[reg_m[i]->Some_0.0 as int] is Pending
            || merged_at(*source, reg_t, reg_m, i) by {
            if i != id.0 {
                assert(m0[i] is Some);
                if !(t0.spec_nodes()[m0[i]->Some_0.0 as int] is Pending) {
                    assert(merged_at(*source, t0, m0, i));
                    WorkspaceTypeGraph::lemma_merge_node_stable(*source, t0, m0, reg_t, reg_m, i);
                }
            }
        }
        assert(merge_inv(*source, reg_t, reg_m));
        assert(merge_step(*source, reg_t, reg_m, reg_t, reg_m));
    }
    let node = match source.node(id) {
        TypeNode::Pending => WorkspaceTypeNode::Pending,
        TypeNode::Ref(child) => WorkspaceTypeNode::Ref(merge_type_node(*child, source, target, mapped)),
        TypeNode::Any => WorkspaceTypeNode::Any,
        TypeNode::Int => WorkspaceTypeNode::Int,
        TypeNode::Float => WorkspaceTypeNode::Float,
        TypeNode::String => WorkspaceTypeNode::String,
        TypeNode::Bytes => WorkspaceTypeNode::Bytes,
        TypeNode::Atom(atom) => WorkspaceTypeNode::Atom(String::from_str(atom.name())),
        TypeNode::Array(child) => WorkspaceTypeNode::Array(merge_type_node(*child, source, target, mapped)),
        TypeNode::Tuple(children) => WorkspaceTypeNode::Tuple(merge_ids(children, source, target, mapped)),
        TypeNode::Struct(fields) => WorkspaceTypeNode::Struct(merge_fields(fields, source, target, mapped)),
        TypeNode::Enum(variants) => WorkspaceTypeNode::Enum(merge_variants(variants, source, target, mapped)),
        TypeNode::Union(children) => WorkspaceTypeNode::Union(merge_ids(children, source, target, mapped)),
        TypeNode::Function { parameters, result } => {
            let ps = merge_ids(parameters, source, target, mapped);
            let ghost t1 = *target;
            let ghost m1 = mapped@;
            let r = merge_type_node(*result, source, target, mapped);
            proof {
                lemma_merge_step_trans(*source, reg_t, reg_m, t1, m1, *target, mapped@);
                lemma_mapped_ids_stable(m1, mapped@, parameters@);
            }
            WorkspaceTypeNode::Function { parameters: ps, result: r }
        },
    };
    let ghost done_t = *target;
    let ghost done_m = mapped@;
    proof {
        let src = source.spec_nodes()[id.0 as int];
        assert(merge_step(*source, reg_t, reg_m, done_t, done_m));
        assert(children_mapped(src, done_m));
        assert(node_merged(src, node, done_m));
        assert(done_m[id.0 as int] == Some(output));
        assert forall|i: int| 0 <= i < done_m.len() && (#[trigger] done_m[i]) is Some implies done_m[i]->Some_0.0
            < done_t.spec_nodes().len() by {}
        assert(ws_refs_below(node, done_t.spec_nodes().len() as int)) by {
            match src {
                TypeNode::Ref(t) => {
                    assert(done_m[t.0 as int] is Some);
                },
                TypeNode::Array(t) => {
                    assert(done_m[t.0 as int] is Some);
                },
                TypeNode::Tuple(items) => {
                    assert forall|i: int| 0 <= i < items@.len() implies (#[trigger] mapped_ids(done_m, items@)[i]).0
                        < done_t.spec_nodes().len() by {
                        assert(done_m[items@[i].0 as int] is Some);
                    }
                },
                TypeNode::Union(items) => {
                    assert forall|i: int| 0 <= i < items@.len() implies (#[trigger] mapped_ids(done_m, items@)[i]).0
                        < done_t.spec_nodes().len() by {
                        assert(done_m[items@[i].0 as int] is Some);
                    }
                },
                TypeNode::Struct(fields) => {
                    assert forall|i: int| 0 <= i < fields@.len() implies mapped_id(done_m, (#[trigger] fields@[i]).1).0
                        < done_t.spec_nodes().len() by {
                        assert(done_m[fields@[i].1.0 as int] is Some);
                    }
                },
                TypeNode::Enum(variants) => {
                    assert forall|i: int| 0 <= i < variants@.len() && (#[trigger] variants@[i]).1 is Some implies mapped_id(
                        done_m,
                        variants@[i].1->Some_0,
                    ).0 < done_t.spec_nodes().len() by {
                        assert(done_m[variants@[i].1->Some_0.0 as int] is Some);
                    }
                },
                TypeNode::Function { parameters, result } => {
                    assert(done_m[result.0 as int] is Some);
                    assert forall|i: int| 0 <= i < parameters@.len() implies (#[trigger] mapped_ids(
                        done_m,
                        parameters@,
                    )[i]).0 < done_t.spec_nodes().len() by {
                        assert(done_m[parameters@[i].0 as int] is Some);
                    }
                },
                _ => {},
            }
        }
    }
    target.nodes.set(output.index(), node);
    proof {
        let t0 = *old(target);
        let m0 = old(mapped)@;
        let t = *target;
        let m = mapped@;
        assert forall|i: int| 0 <= i < t.nodes@.len() implies ws_refs_below(
            #[trigger] t.nodes@[i],
            t.nodes@.len() as int,
        ) by {
            if i != output.0 {
                assert(t.nodes@[i] == done_t.nodes@[i]);
            }
        }
        assert(t.wf());
        assert forall|i: int| 0 <= i < m.len() && (#[trigger] m[i]) is Some implies t.spec_nodes()[m[i]->Some_0.0 as int] is Pending
            || merged_at(*source, t, m, i) by {
            if i != id.0 {
                assert(m[i] != m[id.0 as int]);
                assert(t.spec_nodes()[m[i]->Some_0.0 as int] == done_t.spec_nodes()[m[i]->Some_0.0 as int]);
            }
        }
        assert(merge_inv(*source, t, m));
        assert forall|i: int| 0 <= i < m0.len() && (#[trigger] m0[i]) is Some implies m[i] == m0[i] by {
            assert(reg_m[i] == m0[i]);
        }
        assert forall|k: int| 0 <= k < t0.spec_nodes().len() implies #[trigger] t.spec_nodes()[k] == t0.spec_nodes()[k] by {
            assert(reg_t.spec_nodes()[k] == t0.spec_nodes()[k]);
            assert(done_t.spec_nodes()[k] == reg_t.spec_nodes()[k]);
        }
        assert forall|i: int| 0 <= i < m.len() && (#[trigger] m[i]) is Some && (m0[i] is None || merged_at(
            *source,
            t0,
            m0,
            i,
        )) implies merged_at(*source, t, m, i) by {
            if i != id.0 {
                if m0[i] is Some {
                    WorkspaceTypeGraph::lemma_merge_node_stable(*source, t0, m0, reg_t, reg_m, i);
                }
                assert(merged_at(*source, done_t, done_m, i));
                assert(m[i] != m[id.0 as int]);
            }
        }
    }
    output
}

/// `module::name`: a name of `module` as the workspace knows it.
pub open spec fn qualified(module: Seq<char>, name: Seq<char>) -> Seq<char> {
    module + "::"@ + name
}

pub open spec fn all_mapped(r: Seq<WorkspaceTypeId>) -> Seq<Option<WorkspaceTypeId>> {
    r.map_values(|w: WorkspaceTypeId| Some(w))
}

proof fn lemma_qualified_injective(module: Seq<char>, a: Seq<char>, b: Seq<char>)
    requires
        qualified(module, a) == qualified(module, b),
    ensures
        a == b,
{
    let p = module + "::"@;
    assert(qualified(module, a).subrange(p.len() as int, qualified(module, a).len() as int) =~= a);
    assert(qualified(module, b).subrange(p.len() as int, qualified(module, b).len() as int) =~= b);
}

/// Merges the type graph of `module` into the workspace graph: each source
/// node once, into a new node of its own whose ids go where their nodes
/// went, and each name `name` of the module bound as `module::name`. Gives,
/// by source id, where each source node went.
pub fn merge_type_graph(module: &str, source: &TypeGraph, target: &mut WorkspaceTypeGraph) -> (r: Vec<
    WorkspaceTypeId,
>)
    requires
        source.wf(),
        old(target).wf(),
        old(target).spec_nodes().len() + source.spec_nodes().len() <= u32::MAX,
    ensures
        final(target).wf(),
        r@.len() == source.spec_nodes().len(),
        final(target).spec_nodes().len() == old(target).spec_nodes().len() + source.spec_nodes().len(),
        forall|k: int| 0 <= k < old(target).spec_nodes().len() ==> #[trigger] final(target).spec_nodes()[k]
            == old(target).spec_nodes()[k],
        forall|i: int| 0 <= i < r@.len() ==> old(target).spec_nodes().len() <= (#[trigger] r@[i]).0
            < final(target).spec_nodes().len(),
        forall|i: int, j: int| 0 <= i < r@.len() && 0 <= j < r@.len() && i != j ==> #[trigger] r@[i]
            != #[trigger] r@[j],
        forall|i: int| 0 <= i < r@.len() ==> node_merged(
            source.spec_nodes()[i],
            final(target).spec_nodes()[(#[trigger] r@[i]).0 as int],
            all_mapped(r@),
        ),
        forall|j: int| 0 <= j < source.spec_names().len() ==> bound_id(
            final(target).spec_names(),
            qualified(module@, (#[trigger] source.spec_names()[j]).0@),
        ) == Some(r@[source.spec_names()[j].1.0 as int]),
        forall|n: Seq<char>| (forall|j: int| 0 <= j < source.spec_names().len() ==> n != qualified(
            module@,
            (#[trigger] source.spec_names()[j]).0@,
        )) ==> #[trigger] bound_id(final(target).spec_names(), n) == bound_id(old(target).spec_names(), n),
{
    proof {
        source.lemma_wf();
    }
    let count = source.nodes().len();
    let mut mapped: Vec<Option<WorkspaceTypeId>> = Vec::new();
    let mut i: usize = 0;
    while i < count
        invariant
            count == source.spec_nodes().len(),
            i <= count,
            mapped@.len() == i,
            count_none(mapped@) == i,
            forall|j: int| 0 <= j < i ==> mapped@[j] is None,
        decreases count - i,
    {
        let ghost before = mapped@;
        mapped.push(None);
        proof {
            assert(mapped@.drop_last() =~= before);
        }
        i = i + 1;
    }
    let ghost t0 = *target;
    proof {
        assert(merge_base(*target, mapped@) == t0.spec_nodes().len());
        assert(merge_inv(*source, *target, mapped@));
    }
    let mut i: usize = 0;
    while i < count
        invariant
            count == source.spec_nodes().len(),
            t0 == *old(target),
            merge_inv(*source, *target, mapped@),
            merge_base(*target, mapped@) == t0.spec_nodes().len(),
            i <= count,
            forall|j: int| 0 <= j < i ==> mapped@[j] is Some,
            forall|j: int| 0 <= j < mapped@.len() && (#[trigger] mapped@[j]) is Some ==> merged_at(*source, *target, mapped@, j),
            target.spec_nodes().len() >= t0.spec_nodes().len(),
            forall|k: int| 0 <= k < t0.spec_nodes().len() ==> #[trigger] target.spec_nodes()[k] == t0.spec_nodes()[k],
            target.spec_names() == t0.spec_names(),
        decreases count - i,
    {
        let ghost t1 = *target;
        let ghost m1 = mapped@;
        merge_type_node(TypeId(i as u32), source, target, &mut mapped);
        proof {
            assert forall|j: int| 0 <= j < mapped@.len() && (#[trigger] mapped@[j]) is Some implies merged_at(
                *source,
                *target,
                mapped@,
                j,
            ) by {
                if m1[j] is Some {
                    assert(merged_at(*source, t1, m1, j));
                }
            }
            assert forall|j: int| 0 <= j < i + 1 implies mapped@[j] is Some by {
                if j < i {
                    assert(m1[j] is Some);
                }
            }
            assert forall|k: int| 0 <= k < t0.spec_nodes().len() implies #[trigger] target.spec_nodes()[k] == t0.spec_nodes()[k] by {
                assert(t1.spec_nodes()[k] == t0.spec_nodes()[k]);
            }
        }
        i = i + 1;
    }
    let mut result: Vec<WorkspaceTypeId> = Vec::new();
    let mut k: usize = 0;
    while k < count
        invariant
            count == mapped@.len(),
            forall|j: int| 0 <= j < count ==> mapped@[j] is Some,
            k <= count,
            result@.len() == k,
            forall|j: int| 0 <= j < k ==> Some(#[trigger] result@[j]) == mapped@[j],
        decreases count - k,
    {
        let w = match mapped[k] {
            Some(w) => w,
            None => {
                proof {
                    assert(mapped@[k as int] is Some);
                }
                WorkspaceTypeId(0)
            },
        };
        result.push(w);
        k = k + 1;
    }
    let ghost merged_t = *target;
    proof {
        assert(mapped@ =~= all_mapped(result@));
        assert(count_none(mapped@) == 0) by {
            lemma_count_none_all_some(mapped@);
        }
    }
    let names = source.names();
    let mut j: usize = 0;
    while j < names.len()
        invariant
            t0 == *old(target),
            names@.len() == source.spec_names().len(),
            forall|q: int| 0 <= q < names@.len() ==> (#[trigger] names@[q]).0@ == source.spec_names()[q].0@
                && names@[q].1 == source.spec_names()[q].1,
            forall|q: int| 0 <= q < source.spec_names().len() ==> (#[trigger] source.spec_names()[q]).1.0 < count,
            names_in_order(source.spec_names()),
            result@.len() == count,
            forall|q: int| 0 <= q < count ==> (#[trigger] result@[q]).0 < merged_t.spec_nodes().len(),
            target.wf(),
            target.spec_nodes() == merged_t.spec_nodes(),
            j <= names@.len(),
            forall|q: int| 0 <= q < j ==> bound_id(
                target.spec_names(),
                qualified(module@, (#[trigger] source.spec_names()[q]).0@),
            ) == Some(result@[source.spec_names()[q].1.0 as int]),
            forall|n: Seq<char>| (forall|q: int| 0 <= q < j ==> n != qualified(
                module@,
                (#[trigger] source.spec_names()[q]).0@,
            )) ==> #[trigger] bound_id(target.spec_names(), n) == bound_id(t0.spec_names(), n),
        decreases names@.len() - j,
    {
        let mut q = String::from_str(module);
        q.append("::");
        q.append(names[j].0.as_str());
        let ghost before = target.spec_names();
        let ghost qj = qualified(module@, source.spec_names()[j as int].0@);
        proof {
            assert(q@ == qj);
        }
        target.bind(q.as_str(), result[names[j].1.index()]);
        proof {
            assert forall|p: int| 0 <= p < j + 1 implies bound_id(
                target.spec_names(),
                qualified(module@, (#[trigger] source.spec_names()[p]).0@),
            ) == Some(result@[source.spec_names()[p].1.0 as int]) by {
                if p < j {
                    if qualified(module@, source.spec_names()[p].0@) == qj {
                        lemma_qualified_injective(module@, source.spec_names()[p].0@, source.spec_names()[j as int].0@);
                        lemma_before_differs(source.spec_names()[p].0@, source.spec_names()[j as int].0@);
                    }
                }
            }
            assert forall|n: Seq<char>| (forall|p: int| 0 <= p < j + 1 ==> n != qualified(
                module@,
                (#[trigger] source.spec_names()[p]).0@,
            )) implies #[trigger] bound_id(target.spec_names(), n) == bound_id(t0.spec_names(), n) by {
                assert(n != qj);
                assert(bound_id(target.spec_names(), n) == bound_id(before, n));
                assert forall|p: int| 0 <= p < j implies n != qualified(module@, (#[trigger] source.spec_names()[p]).0@) by {
                    assert(p < j + 1);
                }
            }
        }
        j = j + 1;
    }
    result
}

proof fn lemma_count_none_all_some<T>(s: Seq<Option<T>>)
    requires
        forall|i: int| 0 <= i < s.len() ==> s[i] is Some,
    ensures
        count_none(s) == 0,
    decreases s.len(),
{
    if s.len() > 0 {
        lemma_count_none_all_some(s.drop_last());
    }
}

/// Lexicographic order on sort keys.
pub open spec fn key_lt(a: (u32, u32, u32, u32), b: (u32, u32, u32, u32)) -> bool {
    a.0 < b.0 || (a.0 == b.0 && (a.1 < b.1 || (a.1 == b.1 && (a.2 < b.2 || (a.2 == b.2 && a.3 < b.3)))))
}

/// Position `i` comes before position `j` when `keys` are sorted stably: by
/// key, and by position among equal keys.
pub open spec fn sorts_before(keys: Seq<(u32, u32, u32, u32)>, i: int, j: int) -> bool {
    key_lt(keys[i], keys[j]) || (keys[i] == keys[j] && i < j)
}

/// `order` lists every position of `keys` once, sorted stably by key.
pub open spec fn stable_order(keys: Seq<(u32, u32, u32, u32)>, order: Seq<usize>) -> bool {
    &&& order.len() == keys.len()
    &&& forall|k: int| 0 <= k < order.len() ==> (#[trigger] order[k]) < keys.len()
    &&& forall|j: int| 0 <= j < keys.len() ==> #[trigger] order.contains(j as usize)
    &&& forall|a: int, b: int| 0 <= a < b < order.len() ==> sorts_before(keys, #[trigger] order[a] as int, #[trigger] order[b] as int)
}

fn key_less(a: (u32, u32, u32, u32), b: (u32, u32, u32, u32)) -> (r: bool)
    ensures
        r == key_lt(a, b),
{
    a.0 < b.0 || (a.0 == b.0 && (a.1 < b.1 || (a.1 == b.1 && (a.2 < b.2 || (a.2 == b.2 && a.3 < b.3)))))
}

/// The stable sorting order of `keys`, by insertion.
pub(crate) fn stable_order_of(keys: &Vec<(u32, u32, u32, u32)>) -> (order: Vec<usize>)
    ensures
        stable_order(keys@, order@),
{
    let mut order: Vec<usize> = Vec::new();
    let mut i: usize = 0;
    while i < keys.len()
        invariant
            i <= keys@.len(),
            order@.len() == i,
            forall|k: int| 0 <= k < order@.len() ==> (#[trigger] order@[k]) < i,
            forall|j: int| 0 <= j < i ==> #[trigger] order@.contains(j as usize),
            forall|a: int, b: int| 0 <= a < b < order@.len() ==> sorts_before(keys@, #[trigger] order@[a] as int, #[trigger] order@[b] as int),
        decreases keys@.len() - i,
    {
        let mut p: usize = 0;
        while p < order.len() && !key_less(keys[i], keys[order[p]])
            invariant
                i < keys@.len(),
                p <= order@.len(),
                order@.len() == i,
                forall|k: int| 0 <= k < order@.len() ==> (#[trigger] order@[k]) < i,
                forall|q: int| 0 <= q < p ==> !key_lt(keys@[i as int], keys@[(#[trigger] order@[q]) as int]),
            decreases order@.len() - p,
        {
            p = p + 1;
        }
        let ghost before = order@;
        order.insert(p, i);
        proof {
            assert forall|k: int| 0 <= k < order@.len() implies (#[trigger] order@[k]) < i + 1 by {
                if k < p {
                    assert(order@[k] == before[k]);
                } else if k > p {
                    assert(order@[k] == before[k - 1]);
                }
            }
            assert forall|j: int| 0 <= j < i + 1 implies #[trigger] order@.contains(j as usize) by {
                if j < i {
                    assert(before.contains(j as usize));
                    let k = choose|k: int| 0 <= k < before.len() && before[k] == j as usize;
                    if k < p {
                        assert(order@[k] == before[k]);
                    } else {
                        assert(order@[k + 1] == before[k]);
                    }
                } else {
                    assert(order@[p as int] == i);
                }
            }
            assert forall|a: int, b: int| 0 <= a < b < order@.len() implies sorts_before(keys@, #[trigger] order@[a] as int, #[trigger] order@[b] as int) by {
                if b < p {
                    assert(order@[a] == before[a] && order@[b] == before[b]);
                } else if b == p {
                    assert(order@[a] == before[a]);
                    assert(!key_lt(keys@[i as int], keys@[before[a] as int]));
                } else if a < p {
                    assert(order@[a] == before[a] && order@[b] == before[b - 1]);
                } else if a == p {
                    assert(order@[b] == before[b - 1]);
                    if p < before.len() {
                        assert(key_lt(keys@[i as int], keys@[before[p as int] as int]));
                        if b - 1 > p {
                            assert(sorts_before(keys@, before[p as int] as int, before[b - 1] as int));
                        }
                    }
                } else {
                    assert(order@[a] == before[a - 1] && order@[b] == before[b - 1]);
                }
            }
        }
        i = i + 1;
    }
    order
}

/// The items of `v` in the order `order` lists their positions.
pub(crate) fn take_in_order<T>(v: Vec<T>, Ghost(keys): Ghost<Seq<(u32, u32, u32, u32)>>, order: &Vec<usize>) -> (r: Vec<T>)
    requires
        keys.len() == v@.len(),
        stable_order(keys, order@),
    ensures
        r@.len() == v@.len(),
        forall|k: int| 0 <= k < r@.len() ==> #[trigger] r@[k] == v@[order@[k] as int],
{
    let ghost vs = v@;
    let n = v.len();
    let mut slots = into_slots(v);
    let mut out: Vec<T> = Vec::new();
    let mut k: usize = 0;
    while k < n
        invariant
            n == vs.len(),
            keys.len() == n,
            stable_order(keys, order@),
            slots@.len() == n,
            k <= n,
            forall|a: int| k <= a < n ==> #[trigger] slots@[order@[a] as int] == Some(vs[order@[a] as int]),
            out@.len() == k,
            forall|a: int| 0 <= a < k ==> #[trigger] out@[a] == vs[order@[a] as int],
        decreases n - k,
    {
        let index = order[k];
        proof {
            assert(order@[k as int] < n);
            assert forall|a: int| k < a < n implies order@[a] != order@[k as int] by {
                assert(sorts_before(keys, order@[k as int] as int, order@[a] as int));
            }
        }
        let x = slots[index].take().unwrap();
        proof {
            assert forall|a: int| k + 1 <= a < n implies #[trigger] slots@[order@[a] as int] == Some(vs[order@[a] as int]) by {
                assert(sorts_before(keys, order@[k as int] as int, order@[a] as int));
            }
        }
        out.push(x);
        k = k + 1;
    }
    out
}

/// The items of `v`, each in a slot of its own, in order.
fn into_slots<T>(v: Vec<T>) -> (s: Vec<Option<T>>)
    ensures
        s@.len() == v@.len(),
        forall|i: int| 0 <= i < v@.len() ==> #[trigger] s@[i] == Some(v@[i]),
{
    let ghost original = v@;
    let mut v = v;
    let mut reversed: Vec<T> = Vec::new();
    while v.len() > 0
        invariant
            v@ == original.take(v@.len() as int),
            reversed@.len() + v@.len() == original.len(),
            forall|j: int| 0 <= j < reversed@.len() ==> #[trigger] reversed@[j] == original[original.len() - 1 - j],
        decreases v@.len(),
    {
        let x = v.pop().unwrap();
        reversed.push(x);
        proof {
            assert(v@ =~= original.take(v@.len() as int));
        }
    }
    let mut s: Vec<Option<T>> = Vec::new();
    while reversed.len() > 0
        invariant
            reversed@.len() + s@.len() == original.len(),
            forall|j: int| 0 <= j < reversed@.len() ==> #[trigger] reversed@[j] == original[original.len() - 1 - j],
            forall|j: int| 0 <= j < s@.len() ==> #[trigger] s@[j] == Some(original[j]),
        decreases reversed@.len(),
    {
        let x = reversed.pop().unwrap();
        s.push(Some(x));
    }
    s
}

/// Definitions and references sort by module, source, start and end.
pub open spec fn def_key(d: Definition) -> (u32, u32, u32, u32) {
    (d.module.0, d.location.source.0, d.location.range.start, d.location.range.end)
}

pub open spec fn ref_key(r: Reference) -> (u32, u32, u32, u32) {
    (r.module.0, r.location.source.0, r.location.range.start, r.location.range.end)
}

pub open spec fn def_keys(ds: Seq<Definition>) -> Seq<(u32, u32, u32, u32)> {
    ds.map_values(|d: Definition| def_key(d))
}

pub open spec fn ref_keys(rs: Seq<Reference>) -> Seq<(u32, u32, u32, u32)> {
    rs.map_values(|r: Reference| ref_key(r))
}

/// The ids the definitions had, in their new order.
pub open spec fn ids_in_order(ds: Seq<Definition>, order: Seq<usize>) -> Seq<DefinitionId> {
    order.map_values(|i: usize| ds[i as int].id)
}

/// The new id of old id `x`: the last new position whose definition had id
/// `x`, or 0 when none had.
pub open spec fn renumbered(old_ids: Seq<DefinitionId>, x: DefinitionId) -> DefinitionId
    decreases old_ids.len(),
{
    if old_ids.len() == 0 {
        DefinitionId(0)
    } else if old_ids.last() == x {
        DefinitionId((old_ids.len() - 1) as u32)
    } else {
        renumbered(old_ids.drop_last(), x)
    }
}

/// `ds2` and `rs2` are `ds` and `rs` sorted stably by key along `od` and
/// `or`, renumbered by position, with each reference sent to the new id of
/// its definition.
pub open spec fn normalized(
    ds: Seq<Definition>,
    rs: Seq<Reference>,
    ds2: Seq<Definition>,
    rs2: Seq<Reference>,
    od: Seq<usize>,
    or: Seq<usize>,
) -> bool {
    &&& stable_order(def_keys(ds), od)
    &&& stable_order(ref_keys(rs), or)
    &&& ds2.len() == ds.len()
    &&& forall|k: int| 0 <= k < ds2.len() ==> #[trigger] ds2[k] == (Definition {
        id: DefinitionId(k as u32),
        ..ds[od[k] as int]
    })
    &&& rs2.len() == rs.len()
    &&& forall|k: int| 0 <= k < rs2.len() ==> #[trigger] rs2[k] == (Reference {
        id: ReferenceId(k as u32),
        definition: match rs[or[k] as int].definition {
            Some(x) => Some(renumbered(ids_in_order(ds, od), x)),
            None => None,
        },
        ..rs[or[k] as int]
    })
}

/// Sorts definitions and references by module, source and position, keeping
/// the given order among equal keys; renumbers both by their new positions,
/// and sends each reference to the new id of its definition.
pub fn normalize_order(definitions: &mut Vec<Definition>, references: &mut Vec<Reference>)
    requires
        old(definitions)@.len() <= u32::MAX,
        old(references)@.len() <= u32::MAX,
        forall|i: int| 0 <= i < old(definitions)@.len() ==> (#[trigger] old(definitions)@[i]).id.0 < old(
            definitions,
        )@.len(),
        forall|i: int| 0 <= i < old(references)@.len() ==> ((#[trigger] old(references)@[i]).definition matches Some(
            d,
        ) ==> d.0 < old(definitions)@.len()),
    ensures
        exists|od: Seq<usize>, or: Seq<usize>| #[trigger] normalized(
            old(definitions)@,
            old(references)@,
            final(definitions)@,
            final(references)@,
            od,
            or,
        ),
        forall|k: int| 0 <= k < final(definitions)@.len() ==> (#[trigger] final(definitions)@[k]).id == DefinitionId(k as u32),
        forall|a: int, b: int| 0 <= a < b < final(definitions)@.len() ==> !key_lt(
            def_key(#[trigger] final(definitions)@[b]),
            def_key(#[trigger] final(definitions)@[a]),
        ),
        forall|k: int| 0 <= k < final(references)@.len() ==> (#[trigger] final(references)@[k]).id == ReferenceId(k as u32),
        forall|a: int, b: int| 0 <= a < b < final(references)@.len() ==> !key_lt(
            ref_key(#[trigger] final(references)@[b]),
            ref_key(#[trigger] final(references)@[a]),
        ),
{
    let ghost ds = old(definitions)@;
    let ghost rs = old(references)@;
    let n = definitions.len();
    let mut keys: Vec<(u32, u32, u32, u32)> = Vec::new();
    let mut i: usize = 0;
    while i < n
        invariant
            n == definitions@.len(),
            definitions@ == ds,
            i <= n,
            keys@ == def_keys(ds).take(i as int),
        decreases n - i,
    {
        let d = &definitions[i];
        keys.push((d.module.0, d.location.source.0, d.location.range.start, d.location.range.end));
        proof {
            assert(keys@ =~= def_keys(ds).take(i as int + 1));
        }
        i = i + 1;
    }
    proof {
        assert(keys@ =~= def_keys(ds));
    }
    let order = stable_order_of(&keys);
    let m = references.len();
    let mut rkeys: Vec<(u32, u32, u32, u32)> = Vec::new();
    let mut j: usize = 0;
    while j < m
        invariant
            m == references@.len(),
            references@ == rs,
            j <= m,
            rkeys@ == ref_keys(rs).take(j as int),
        decreases m - j,
    {
        let r = &references[j];
        rkeys.push((r.module.0, r.location.source.0, r.location.range.start, r.location.range.end));
        proof {
            assert(rkeys@ =~= ref_keys(rs).take(j as int + 1));
        }
        j = j + 1;
    }
    proof {
        assert(rkeys@ =~= ref_keys(rs));
    }
    let rorder = stable_order_of(&rkeys);
    let mut taken: Vec<Definition> = Vec::new();
    std::mem::swap(definitions, &mut taken);
    let mut slots = into_slots(taken);
    let mut remapped: Vec<DefinitionId> = Vec::new();
    let mut q: usize = 0;
    while q < n
        invariant
            q <= n,
            remapped@.len() == q,
            forall|x: int| 0 <= x < q ==> #[trigger] remapped@[x] == DefinitionId(0),
        decreases n - q,
    {
        remapped.push(DefinitionId(0));
        q = q + 1;
    }
    let ghost old_ids = ids_in_order(ds, order@);
    let mut k: usize = 0;
    while k < n
        invariant
            n == ds.len(),
            n <= u32::MAX,
            stable_order(def_keys(ds), order@),
            forall|i: int| 0 <= i < n ==> (#[trigger] ds[i]).id.0 < n,
            slots@.len() == n,
            forall|a: int| k <= a < n ==> #[trigger] slots@[order@[a] as int] == Some(ds[order@[a] as int]),
            old_ids == ids_in_order(ds, order@),
            k <= n,
            definitions@.len() == k,
            forall|a: int| 0 <= a < k ==> #[trigger] definitions@[a] == (Definition {
                id: DefinitionId(a as u32),
                ..ds[order@[a] as int]
            }),
            remapped@.len() == n,
            forall|x: int| 0 <= x < n ==> #[trigger] remapped@[x] == renumbered(old_ids.take(k as int), DefinitionId(x as u32)),
        decreases n - k,
    {
        let index = order[k];
        proof {
            assert(order@[k as int] < n);
            assert forall|a: int| k < a < n implies order@[a] != order@[k as int] by {
                assert(sorts_before(def_keys(ds), order@[k as int] as int, order@[a] as int));
            }
        }
        let mut d = slots[index].take().unwrap();
        proof {
            assert forall|a: int| k + 1 <= a < n implies #[trigger] slots@[order@[a] as int] == Some(ds[order@[a] as int]) by {
                assert(sorts_before(def_keys(ds), order@[k as int] as int, order@[a] as int));
            }
        }
        let old = d.id;
        d.id = DefinitionId(k as u32);
        remapped.set(old.index(), DefinitionId(k as u32));
        definitions.push(d);
        proof {
            assert(old == old_ids[k as int]);
            assert forall|x: int| 0 <= x < n implies #[trigger] remapped@[x] == renumbered(old_ids.take(k as int + 1), DefinitionId(x as u32)) by {
                assert(old_ids.take(k as int + 1).drop_last() =~= old_ids.take(k as int));
                assert(old_ids.take(k as int + 1).last() == old);
            }
        }
        k = k + 1;
    }
    proof {
        assert(old_ids.take(n as int) =~= old_ids);
    }
    let mut rtaken: Vec<Reference> = Vec::new();
    std::mem::swap(references, &mut rtaken);
    let mut rslots = into_slots(rtaken);
    let mut e: usize = 0;
    while e < m
        invariant
            m == rs.len(),
            rslots@.len() == m,
            e <= m,
            forall|a: int| 0 <= a < rs.len() ==> ((#[trigger] rs[a]).definition matches Some(d) ==> d.0 < n),
            remapped@.len() == n,
            forall|x: int| 0 <= x < n ==> #[trigger] remapped@[x] == renumbered(old_ids, DefinitionId(x as u32)),
            forall|a: int| 0 <= a < e ==> #[trigger] rslots@[a] == Some(Reference {
                definition: match rs[a].definition {
                    Some(x) => Some(renumbered(old_ids, x)),
                    None => None,
                },
                ..rs[a]
            }),
            forall|a: int| e <= a < m ==> #[trigger] rslots@[a] == Some(rs[a]),
        decreases m - e,
    {
        let mut r = rslots[e].take().unwrap();
        r.definition = match r.definition {
            Some(id) => Some(remapped[id.index()]),
            None => None,
        };
        rslots.set(e, Some(r));
        e = e + 1;
    }
    let mut c: usize = 0;
    while c < m
        invariant
            m == rs.len(),
            m <= u32::MAX,
            stable_order(ref_keys(rs), rorder@),
            rslots@.len() == m,
            forall|a: int| c <= a < m ==> #[trigger] rslots@[rorder@[a] as int] == Some(Reference {
                definition: match rs[rorder@[a] as int].definition {
                    Some(x) => Some(renumbered(old_ids, x)),
                    None => None,
                },
                ..rs[rorder@[a] as int]
            }),
            c <= m,
            references@.len() == c,
            forall|a: int| 0 <= a < c ==> #[trigger] references@[a] == (Reference {
                id: ReferenceId(a as u32),
                definition: match rs[rorder@[a] as int].definition {
                    Some(x) => Some(renumbered(old_ids, x)),
                    None => None,
                },
                ..rs[rorder@[a] as int]
            }),
        decreases m - c,
    {
        let index = rorder[c];
        proof {
            assert(rorder@[c as int] < m);
        }
        let mut r = rslots[index].take().unwrap();
        proof {
            assert forall|a: int| c + 1 <= a < m implies #[trigger] rslots@[rorder@[a] as int] == Some(Reference {
                definition: match rs[rorder@[a] as int].definition {
                    Some(x) => Some(renumbered(old_ids, x)),
                    None => None,
                },
                ..rs[rorder@[a] as int]
            }) by {
                assert(sorts_before(ref_keys(rs), rorder@[c as int] as int, rorder@[a] as int));
            }
        }
        r.id = ReferenceId(c as u32);
        references.push(r);
        c = c + 1;
    }
    proof {
        let ds2 = definitions@;
        let rs2 = references@;
        assert(normalized(ds, rs, ds2, rs2, order@, rorder@));
        assert forall|a: int, b: int| 0 <= a < b < ds2.len() implies !key_lt(
            def_key(#[trigger] ds2[b]),
            def_key(#[trigger] ds2[a]),
        ) by {
            assert(sorts_before(def_keys(ds), order@[a] as int, order@[b] as int));
        }
        assert forall|a: int, b: int| 0 <= a < b < rs2.len() implies !key_lt(
            ref_key(#[trigger] rs2[b]),
            ref_key(#[trigger] rs2[a]),
        ) by {
            assert(sorts_before(ref_keys(rs), rorder@[a] as int, rorder@[b] as int));
        }
    }
}

proof fn lemma_renumbered_last(ids: Seq<DefinitionId>, x: DefinitionId, p: int)
    requires
        0 <= p < ids.len(),
        ids[p] == x,
        forall|q: int| p < q < ids.len() ==> #[trigger] ids[q] != x,
    ensures
        renumbered(ids, x) == DefinitionId(p as u32),
    decreases ids.len(),
{
    if p < ids.len() - 1 {
        assert(ids.last() != x);
        assert forall|q: int| p < q < ids.drop_last().len() implies #[trigger] ids.drop_last()[q] != x by {
            assert(ids.drop_last()[q] == ids[q]);
        }
        lemma_renumbered_last(ids.drop_last(), x, p);
    }
}

/// With definitions numbered by position, normalizing keeps what each
/// reference resolves to: its new id names the same definition, renumbered.
pub proof fn lemma_normalize_keeps_resolution(
    ds: Seq<Definition>,
    rs: Seq<Reference>,
    ds2: Seq<Definition>,
    rs2: Seq<Reference>,
    od: Seq<usize>,
    or: Seq<usize>,
    k: int,
)
    requires
        normalized(ds, rs, ds2, rs2, od, or),
        ds.len() <= u32::MAX,
        forall|i: int| 0 <= i < ds.len() ==> (#[trigger] ds[i]).id == DefinitionId(i as u32),
        0 <= k < rs2.len(),
        rs[or[k] as int].definition is Some,
        rs[or[k] as int].definition->Some_0.0 < ds.len(),
    ensures
        rs2[k].definition is Some,
        rs2[k].definition->Some_0.0 < ds2.len(),
        ds2[rs2[k].definition->Some_0.0 as int] == (Definition {
            id: rs2[k].definition->Some_0,
            ..ds[rs[or[k] as int].definition->Some_0.0 as int]
        }),
{
    let x = rs[or[k] as int].definition->Some_0;
    let j = x.0 as int;
    assert(od.contains(j as usize));
    let p = choose|p: int| 0 <= p < od.len() && od[p] == j as usize;
    let ids = ids_in_order(ds, od);
    assert(ids[p] == ds[j].id);
    assert forall|q: int| p < q < ids.len() implies #[trigger] ids[q] != x by {
        assert(sorts_before(def_keys(ds), od[p] as int, od[q] as int));
        assert(ids[q] == ds[od[q] as int].id);
    }
    lemma_renumbered_last(ids, x, p);
    assert(rs2[k] == (Reference {
        id: ReferenceId(k as u32),
        definition: Some(renumbered(ids, x)),
        ..rs[or[k] as int]
    }));
}

proof fn lemma_ws_refs_below_grow(node: WorkspaceTypeNode, n: int, m: int)
    requires
        ws_refs_below(node, n),
        n <= m,
    ensures
        ws_refs_below(node, m),
{
}


// ---------------------------------------------------------------------------
// Queries.

/// `point` starts inside `range` (an empty range contains its own start).
pub open spec fn spec_contains(range: Location, point: Location) -> bool {
    &&& range.source == point.source
    &&& range.range.start <= point.range.start
    &&& (point.range.start < range.range.end || (range.range.start == range.range.end
        && point.range.start == range.range.start))
}

pub fn contains(range: Location, point: Location) -> (b: bool)
    ensures
        b == spec_contains(range, point),
{
    range.source == point.source && range.range.start <= point.range.start && (point.range.start
        < range.range.end || (range.range.start == range.range.end && point.range.start
        == range.range.start))
}

/// The width of a location in bytes.
pub open spec fn width(l: Location) -> int {
    l.range.end - l.range.start
}

impl Definition {
    /// `location` starts inside the definition's location or one of its
    /// additional locations.
    pub open spec fn covers(self, location: Location) -> bool {
        spec_contains(self.location, location) || exists|i: int|
            0 <= i < self.additional_locations@.len() && spec_contains(
                #[trigger] self.additional_locations@[i],
                location,
            )
    }

    pub fn contains(&self, location: Location) -> (b: bool)
        ensures
            b == self.covers(location),
    {
        if contains(self.location, location) {
            return true;
        }
        let mut i: usize = 0;
        while i < self.additional_locations.len()
            invariant
                i <= self.additional_locations@.len(),
                forall|j: int| 0 <= j < i ==> !spec_contains(#[trigger] self.additional_locations@[j], location),
            decreases self.additional_locations@.len() - i,
        {
            if contains(self.additional_locations[i], location) {
                return true;
            }
            i = i + 1;
        }
        false
    }
}

/// `k` is the narrowest definition covering `location`, the first among
/// equally narrow ones.
pub open spec fn best_definition(defs: Seq<Definition>, location: Location, k: int) -> bool {
    &&& 0 <= k < defs.len()
    &&& defs[k].covers(location)
    &&& forall|j: int|
        0 <= j < defs.len() && (#[trigger] defs[j]).covers(location) ==> width(defs[k].location)
            <= width(defs[j].location)
    &&& forall|j: int|
        0 <= j < k && (#[trigger] defs[j]).covers(location) ==> width(defs[k].location) < width(
            defs[j].location,
        )
}

/// `k` is the narrowest reference containing `location`, the first among
/// equally narrow ones.
pub open spec fn best_reference(refs: Seq<Reference>, location: Location, k: int) -> bool {
    &&& 0 <= k < refs.len()
    &&& spec_contains(refs[k].location, location)
    &&& forall|j: int|
        0 <= j < refs.len() && spec_contains((#[trigger] refs[j]).location, location) ==> width(
            refs[k].location,
        ) <= width(refs[j].location)
    &&& forall|j: int|
        0 <= j < k && spec_contains((#[trigger] refs[j]).location, location) ==> width(
            refs[k].location,
        ) < width(refs[j].location)
}

/// The narrowest definition covering `location`, if any.
pub open spec fn definition_index_at(defs: Seq<Definition>, location: Location) -> Option<int> {
    if exists|j: int| 0 <= j < defs.len() && (#[trigger] defs[j]).covers(location) {
        Some(choose|k: int| best_definition(defs, location, k))
    } else {
        None
    }
}

/// The narrowest reference containing `location`, if any.
pub open spec fn reference_index_at(refs: Seq<Reference>, location: Location) -> Option<int> {
    if exists|j: int| 0 <= j < refs.len() && spec_contains((#[trigger] refs[j]).location, location) {
        Some(choose|k: int| best_reference(refs, location, k))
    } else {
        None
    }
}

/// Where some definition covers `location`, a narrowest one does, and it is
/// the one [`definition_index_at`] picks.
pub proof fn law_narrowest_definition_exists(defs: Seq<Definition>, location: Location)
    requires
        exists|j: int| 0 <= j < defs.len() && (#[trigger] defs[j]).covers(location),
    ensures
        exists|k: int| best_definition(defs, location, k),
        definition_index_at(defs, location) matches Some(k) && best_definition(defs, location, k),
{
    let k = narrowest_in_prefix(defs, location, defs.len() as int);
    assert(defs.take(defs.len() as int) =~= defs);
    assert(best_definition(defs, location, k));
}

/// The narrowest covering definition among the first `n`, first of equally
/// narrow ones, where one of them covers `location`.
proof fn narrowest_in_prefix(defs: Seq<Definition>, location: Location, n: int) -> (k: int)
    requires
        0 <= n <= defs.len(),
        exists|j: int| 0 <= j < defs.len() && (#[trigger] defs[j]).covers(location),
    ensures
        (exists|j: int| 0 <= j < n && (#[trigger] defs[j]).covers(location)) ==> {
            &&& 0 <= k < n
            &&& defs[k].covers(location)
            &&& forall|j: int| 0 <= j < n && (#[trigger] defs[j]).covers(location) ==> width(defs[k].location) <= width(defs[j].location)
            &&& forall|j: int| 0 <= j < k && (#[trigger] defs[j]).covers(location) ==> width(defs[k].location) < width(defs[j].location)
        },
        n == defs.len() ==> best_definition(defs, location, k),
    decreases n,
{
    if n == 0 {
        let w = choose|j: int| 0 <= j < defs.len() && (#[trigger] defs[j]).covers(location);
        if defs.len() == 0 {
            assert(false);
        }
        0
    } else {
        let k0 = narrowest_in_prefix(defs, location, n - 1);
        let last = n - 1;
        let found = exists|j: int| 0 <= j < n - 1 && (#[trigger] defs[j]).covers(location);
        let k = if !found {
            last
        } else if defs[last].covers(location) && width(defs[last].location) < width(defs[k0].location) {
            last
        } else {
            k0
        };
        if n == defs.len() {
            let w = choose|j: int| 0 <= j < defs.len() && (#[trigger] defs[j]).covers(location);
            assert(w < n);
        }
        k
    }
}

pub proof fn lemma_best_definition_unique(defs: Seq<Definition>, location: Location, a: int, b: int)
    requires
        best_definition(defs, location, a),
        best_definition(defs, location, b),
    ensures
        a == b,
{
    if a < b {
        assert(width(defs[b].location) < width(defs[a].location));
    } else if b < a {
        assert(width(defs[a].location) < width(defs[b].location));
    }
}

pub proof fn lemma_best_reference_unique(refs: Seq<Reference>, location: Location, a: int, b: int)
    requires
        best_reference(refs, location, a),
        best_reference(refs, location, b),
    ensures
        a == b,
{
    if a < b {
        assert(width(refs[b].location) < width(refs[a].location));
    } else if b < a {
        assert(width(refs[a].location) < width(refs[b].location));
    }
}

/// The references that resolve to `definition`, in order.
pub open spec fn references_to(refs: Seq<Reference>, definition: DefinitionId) -> Seq<Reference>
    decreases refs.len(),
{
    if refs.len() == 0 {
        Seq::empty()
    } else {
        let rest = references_to(refs.drop_last(), definition);
        if refs.last().definition == Some(definition) {
            rest.push(refs.last())
        } else {
            rest
        }
    }
}

/// The references to a definition are exactly the references whose
/// definition it is, kept in their order.
pub proof fn law_references_to_filter(refs: Seq<Reference>, definition: DefinitionId)
    ensures
        references_to(refs, definition) == refs.filter(|r: Reference| r.definition == Some(definition)),
    decreases refs.len(),
{
    reveal(Seq::filter);
    if refs.len() > 0 {
        law_references_to_filter(refs.drop_last(), definition);
    }
}

/// The result location of `m` contains `location`.
pub open spec fn result_at(m: WorkspaceModule, location: Location) -> bool {
    match m.result_location {
        Some(r) => spec_contains(r, location),
        None => false,
    }
}

/// The first module whose result location contains `location`.
pub open spec fn result_module_at(modules: Seq<WorkspaceModule>, location: Location) -> Option<int> {
    if exists|j: int| 0 <= j < modules.len() && result_at(#[trigger] modules[j], location) {
        Some(
            choose|k: int|
                0 <= k < modules.len() && result_at(#[trigger] modules[k], location) && forall|j: int|
                    0 <= j < k ==> !result_at(#[trigger] modules[j], location),
        )
    } else {
        None
    }
}

/// The fields of a struct node and the variants of an enum node are named
/// in strictly increasing byte order, as the keys of an ordered map.
pub open spec fn ws_keys_ordered(node: WorkspaceTypeNode) -> bool {
    match node {
        WorkspaceTypeNode::Struct(fields) => names_in_order(fields@),
        WorkspaceTypeNode::Enum(variants) => names_in_order(variants@),
        _ => true,
    }
}

/// The parts of a snapshot fit together: modules, definitions and references
/// are numbered by position; modules are sorted by name, definitions and
/// references by module, source and position; and every id they hold names
/// a module, a definition or a type of the snapshot.
pub open spec fn snapshot_parts(
    modules: Seq<WorkspaceModule>,
    definitions: Seq<Definition>,
    references: Seq<Reference>,
    type_count: int,
) -> bool {
    &&& modules.len() <= u32::MAX + 1
    &&& definitions.len() <= u32::MAX + 1
    &&& references.len() <= u32::MAX + 1
    &&& forall|i: int| 0 <= i < modules.len() ==> (#[trigger] modules[i]).id == WorkspaceModuleId(i as u32)
    &&& forall|i: int, j: int|
        0 <= i < j < modules.len() ==> !bytes_lt(encode_utf8((#[trigger] modules[j]).name@), encode_utf8(
            (#[trigger] modules[i]).name@,
        ))
    &&& forall|i: int, k: int|
        0 <= i < modules.len() && 0 <= k < modules[i].imports@.len() ==> (#[trigger] modules[i].imports@[k]).target.0
            < modules.len()
    &&& forall|i: int|
        0 <= i < modules.len() ==> ((#[trigger] modules[i]).result_type matches Some(t) ==> t.0 < type_count)
    &&& forall|i: int| 0 <= i < definitions.len() ==> (#[trigger] definitions[i]).id == DefinitionId(i as u32)
    &&& forall|i: int| 0 <= i < definitions.len() ==> (#[trigger] definitions[i]).module.0 < modules.len()
    &&& forall|i: int|
        0 <= i < definitions.len() ==> ((#[trigger] definitions[i]).ty matches Some(t) ==> t.0 < type_count)
    &&& forall|i: int|
        0 <= i < definitions.len() ==> ((#[trigger] definitions[i]).import_target matches Some(m) ==> m.0
            < modules.len())
    &&& forall|a: int, b: int|
        0 <= a < b < definitions.len() ==> !key_lt(def_key(#[trigger] definitions[b]), def_key(
            #[trigger] definitions[a],
        ))
    &&& forall|i: int| 0 <= i < references.len() ==> (#[trigger] references[i]).id == ReferenceId(i as u32)
    &&& forall|i: int| 0 <= i < references.len() ==> (#[trigger] references[i]).module.0 < modules.len()
    &&& forall|i: int|
        0 <= i < references.len() ==> ((#[trigger] references[i]).definition matches Some(d) ==> d.0
            < definitions.len())
    &&& forall|a: int, b: int|
        0 <= a < b < references.len() ==> !key_lt(ref_key(#[trigger] references[b]), ref_key(
            #[trigger] references[a],
        ))
}

/// The semantic model of a workspace.
#[derive(Clone, Debug)]
pub struct WorkspaceSnapshot {
    sources: SourceDatabase,
    modules: Vec<WorkspaceModule>,
    definitions: Vec<Definition>,
    references: Vec<Reference>,
    types: WorkspaceTypeGraph,
}

impl WorkspaceSnapshot {
    pub closed spec fn spec_modules(self) -> Seq<WorkspaceModule> {
        self.modules@
    }

    pub closed spec fn spec_definitions(self) -> Seq<Definition> {
        self.definitions@
    }

    pub closed spec fn spec_references(self) -> Seq<Reference> {
        self.references@
    }

    pub closed spec fn spec_types(self) -> WorkspaceTypeGraph {
        self.types
    }

    pub closed spec fn spec_sources(self) -> SourceDatabase {
        self.sources
    }

    /// The type graph is well formed, the parts fit together, and no
    /// location is reversed.
    pub open spec fn wf(self) -> bool {
        &&& self.spec_types().wf()
        &&& snapshot_parts(
            self.spec_modules(),
            self.spec_definitions(),
            self.spec_references(),
            self.spec_types().spec_nodes().len() as int,
        )
        &&& forall|i: int|
            0 <= i < self.spec_definitions().len() ==> (#[trigger] self.spec_definitions()[i]).location.range.start
                <= self.spec_definitions()[i].location.range.end
        &&& forall|i: int|
            0 <= i < self.spec_references().len() ==> (#[trigger] self.spec_references()[i]).location.range.start
                <= self.spec_references()[i].location.range.end
    }

    /// A snapshot of the given parts.
    pub fn new(
        sources: SourceDatabase,
        modules: Vec<WorkspaceModule>,
        definitions: Vec<Definition>,
        references: Vec<Reference>,
        types: WorkspaceTypeGraph,
    ) -> (s: WorkspaceSnapshot)
        requires
            types.wf(),
            snapshot_parts(modules@, definitions@, references@, types.spec_nodes().len() as int),
            forall|i: int| 0 <= i < definitions@.len() ==> (#[trigger] definitions@[i]).location.range.start <= definitions@[i].location.range.end,
            forall|i: int| 0 <= i < references@.len() ==> (#[trigger] references@[i]).location.range.start <= references@[i].location.range.end,
        ensures
            s.wf(),
            s.spec_modules() == modules@,
            s.spec_definitions() == definitions@,
            s.spec_references() == references@,
            s.spec_types() == types,
            s.spec_sources() == sources,
    {
        WorkspaceSnapshot { sources, modules, definitions, references, types }
    }

    pub fn sources(&self) -> (r: &SourceDatabase)
        ensures
            *r == self.spec_sources(),
    {
        &self.sources
    }

    pub fn modules(&self) -> (r: &[WorkspaceModule])
        ensures
            r@ == self.spec_modules(),
    {
        self.modules.as_slice()
    }

    /// The module `id`, if there is one.
    pub fn module(&self, id: WorkspaceModuleId) -> (r: Option<&WorkspaceModule>)
        ensures
            id.0 < self.spec_modules().len() ==> r is Some && *r->Some_0 == self.spec_modules()[id.0 as int],
            id.0 >= self.spec_modules().len() ==> r is None,
    {
        if id.index() < self.modules.len() {
            Some(&self.modules[id.index()])
        } else {
            None
        }
    }

    /// The first module whose path is `path`.
    pub fn module_by_path(&self, path: &str) -> (r: Option<&WorkspaceModule>)
        ensures
            r is None <==> forall|i: int| 0 <= i < self.spec_modules().len() ==> !((#[trigger] self.spec_modules()[i]).path matches Some(p) && p@ == path@),
            r is Some ==> exists|k: int| 0 <= k < self.spec_modules().len() && *r->Some_0 == self.spec_modules()[k] && (self.spec_modules()[k].path matches Some(p) && p@ == path@) && forall|i: int| 0 <= i < k ==> !((#[trigger] self.spec_modules()[i]).path matches Some(p) && p@ == path@),
    {
        let mut i: usize = 0;
        while i < self.modules.len()
            invariant
                i <= self.modules@.len(),
                forall|j: int| 0 <= j < i ==> !((#[trigger] self.modules@[j]).path matches Some(p) && p@ == path@),
            decreases self.modules@.len() - i,
        {
            match &self.modules[i].path {
                Some(p) => {
                    let candidate = p.as_str();
                    let c = compare_str(candidate, path);
                    proof {
                        assert(candidate.spec_bytes() == encode_utf8(candidate@));
                        assert(path.spec_bytes() == encode_utf8(path@));
                        if c == 0 {
                            lemma_utf8_injective(candidate@, path@);
                        }
                    }
                    if c == 0 {
                        assert(self.spec_modules()[i as int] == self.modules@[i as int]);
                        return Some(&self.modules[i]);
                    }
                },
                None => {},
            }
            i = i + 1;
        }
        None
    }

    pub fn definitions(&self) -> (r: &[Definition])
        ensures
            r@ == self.spec_definitions(),
    {
        self.definitions.as_slice()
    }

    /// The definition `id`, if there is one.
    pub fn definition(&self, id: DefinitionId) -> (r: Option<&Definition>)
        ensures
            id.0 < self.spec_definitions().len() ==> r is Some && *r->Some_0 == self.spec_definitions()[id.0 as int],
            id.0 >= self.spec_definitions().len() ==> r is None,
    {
        if id.index() < self.definitions.len() {
            Some(&self.definitions[id.index()])
        } else {
            None
        }
    }

    fn definition_index(&self, location: Location) -> (r: Option<usize>)
        requires
            self.wf(),
        ensures
            r is Some <==> definition_index_at(self.spec_definitions(), location) is Some,
            r is Some ==> definition_index_at(self.spec_definitions(), location) == Some(r->Some_0 as int),
            r is Some ==> r->Some_0 < self.spec_definitions().len(),
    {
        let ghost defs = self.definitions@;
        let mut best: Option<usize> = None;
        let mut i: usize = 0;
        while i < self.definitions.len()
            invariant
                self.wf(),
                defs == self.definitions@,
                i <= defs.len(),
                best is None ==> forall|j: int| 0 <= j < i ==> !(#[trigger] defs[j]).covers(location),
                best matches Some(k) ==> k < i && defs[k as int].covers(location) && (forall|j: int|
                    0 <= j < i && (#[trigger] defs[j]).covers(location) ==> width(defs[k as int].location) <= width(defs[j].location))
                    && (forall|j: int| 0 <= j < k && (#[trigger] defs[j]).covers(location) ==> width(defs[k as int].location) < width(defs[j].location)),
            decreases defs.len() - i,
        {
            let d = &self.definitions[i];
            if d.contains(location) {
                let w = d.location.range.end - d.location.range.start;
                match best {
                    None => {
                        best = Some(i);
                    },
                    Some(k) => {
                        let b = &self.definitions[k];
                        let bw = b.location.range.end - b.location.range.start;
                        if w < bw {
                            best = Some(i);
                        }
                    },
                }
            }
            i = i + 1;
        }
        proof {
            match best {
                Some(k) => {
                    assert(best_definition(defs, location, k as int));
                    assert(exists|j: int| 0 <= j < defs.len() && (#[trigger] defs[j]).covers(location));
                    let c = choose|c: int| best_definition(defs, location, c);
                    lemma_best_definition_unique(defs, location, c, k as int);
                },
                None => {},
            }
        }
        best
    }

    /// The narrowest definition covering `location`, the first of equally
    /// narrow ones.
    pub fn definition_at(&self, location: Location) -> (r: Option<&Definition>)
        requires
            self.wf(),
        ensures
            match definition_index_at(self.spec_definitions(), location) {
                Some(k) => r is Some && *r->Some_0 == self.spec_definitions()[k],
                None => r is None,
            },
    {
        match self.definition_index(location) {
            Some(k) => Some(&self.definitions[k]),
            None => None,
        }
    }

    pub fn references(&self) -> (r: &[Reference])
        ensures
            r@ == self.spec_references(),
    {
        self.references.as_slice()
    }

    /// The reference `id`, if there is one.
    pub fn reference(&self, id: ReferenceId) -> (r: Option<&Reference>)
        ensures
            id.0 < self.spec_references().len() ==> r is Some && *r->Some_0 == self.spec_references()[id.0 as int],
            id.0 >= self.spec_references().len() ==> r is None,
    {
        if id.index() < self.references.len() {
            Some(&self.references[id.index()])
        } else {
            None
        }
    }

    fn reference_index(&self, location: Location) -> (r: Option<usize>)
        requires
            self.wf(),
        ensures
            r is Some <==> reference_index_at(self.spec_references(), location) is Some,
            r is Some ==> reference_index_at(self.spec_references(), location) == Some(r->Some_0 as int),
            r is Some ==> r->Some_0 < self.spec_references().len(),
    {
        let ghost refs = self.references@;
        let mut best: Option<usize> = None;
        let mut i: usize = 0;
        while i < self.references.len()
            invariant
                self.wf(),
                refs == self.references@,
                i <= refs.len(),
                best is None ==> forall|j: int| 0 <= j < i ==> !spec_contains((#[trigger] refs[j]).location, location),
                best matches Some(k) ==> k < i && spec_contains(refs[k as int].location, location) && (forall|j: int|
                    0 <= j < i && spec_contains((#[trigger] refs[j]).location, location) ==> width(refs[k as int].location) <= width(refs[j].location))
                    && (forall|j: int| 0 <= j < k && spec_contains((#[trigger] refs[j]).location, location) ==> width(refs[k as int].location) < width(refs[j].location)),
            decreases refs.len() - i,
        {
            let r = &self.references[i];
            if contains(r.location, location) {
                let w = r.location.range.end - r.location.range.start;
                match best {
                    None => {
                        best = Some(i);
                    },
                    Some(k) => {
                        let b = &self.references[k];
                        let bw = b.location.range.end - b.location.range.start;
                        if w < bw {
                            best = Some(i);
                        }
                    },
                }
            }
            i = i + 1;
        }
        proof {
            match best {
                Some(k) => {
                    assert(best_reference(refs, location, k as int));
                    assert(exists|j: int| 0 <= j < refs.len() && spec_contains((#[trigger] refs[j]).location, location));
                    let c = choose|c: int| best_reference(refs, location, c);
                    lemma_best_reference_unique(refs, location, c, k as int);
                },
                None => {},
            }
        }
        best
    }

    /// The narrowest reference containing `location`, the first of equally
    /// narrow ones.
    pub fn reference_at(&self, location: Location) -> (r: Option<&Reference>)
        requires
            self.wf(),
        ensures
            match reference_index_at(self.spec_references(), location) {
                Some(k) => r is Some && *r->Some_0 == self.spec_references()[k],
                None => r is None,
            },
    {
        match self.reference_index(location) {
            Some(k) => Some(&self.references[k]),
            None => None,
        }
    }

    /// The references that resolve to `definition`, in order.
    pub fn references_of(&self, definition: DefinitionId) -> (r: Vec<&Reference>)
        ensures
            r@.len() == references_to(self.spec_references(), definition).len(),
            forall|i: int| 0 <= i < r@.len() ==> *(#[trigger] r@[i]) == references_to(self.spec_references(), definition)[i],
    {
        let ghost refs = self.references@;
        let mut out: Vec<&Reference> = Vec::new();
        let mut i: usize = 0;
        while i < self.references.len()
            invariant
                refs == self.references@,
                i <= refs.len(),
                out@.len() == references_to(refs.take(i as int), definition).len(),
                forall|q: int| 0 <= q < out@.len() ==> *(#[trigger] out@[q]) == references_to(refs.take(i as int), definition)[q],
            decreases refs.len() - i,
        {
            proof {
                assert(refs.take(i + 1).drop_last() =~= refs.take(i as int));
                assert(refs.take(i + 1).last() == refs[i as int]);
            }
            if self.references[i].definition == Some(definition) {
                out.push(&self.references[i]);
            }
            i = i + 1;
        }
        proof {
            assert(refs.take(refs.len() as int) =~= refs);
        }
        out
    }

    fn result_module(&self, location: Location) -> (r: Option<usize>)
        ensures
            r is Some <==> result_module_at(self.spec_modules(), location) is Some,
            r is Some ==> result_module_at(self.spec_modules(), location) == Some(r->Some_0 as int),
            r is Some ==> r->Some_0 < self.spec_modules().len(),
    {
        let ghost ms = self.modules@;
        let mut i: usize = 0;
        while i < self.modules.len()
            invariant
                ms == self.modules@,
                i <= ms.len(),
                forall|j: int| 0 <= j < i ==> !result_at(#[trigger] ms[j], location),
            decreases ms.len() - i,
        {
            match self.modules[i].result_location {
                Some(range) => {
                    if contains(range, location) {
                        proof {
                            let k = i as int;
                            assert(result_at(ms[k], location));
                            let c = choose|c: int|
                                0 <= c < ms.len() && result_at(#[trigger] ms[c], location) && forall|j: int|
                                    0 <= j < c ==> !result_at(#[trigger] ms[j], location);
                            if c > k {
                                assert(!result_at(ms[k], location));
                            }
                        }
                        return Some(i);
                    }
                },
                None => {},
            }
            i = i + 1;
        }
        None
    }

    /// The type at `location`: that of the definition of the narrowest
    /// reference there; else that of the narrowest definition there; else
    /// the result type of the first module whose result is there.
    pub fn type_at(&self, location: Location) -> (r: Option<WorkspaceTypeId>)
        requires
            self.wf(),
        ensures
            r == self.spec_type_at(location),
    {
        match self.reference_index(location) {
            Some(k) => {
                return match self.references[k].definition {
                    Some(d) => match self.definition(d) {
                        Some(definition) => definition.ty,
                        None => None,
                    },
                    None => None,
                };
            },
            None => {},
        }
        match self.definition_index(location) {
            Some(k) => {
                return self.definitions[k].ty;
            },
            None => {},
        }
        match self.result_module(location) {
            Some(k) => self.modules[k].result_type,
            None => None,
        }
    }

    /// What [`type_at`](Self::type_at) returns.
    pub open spec fn spec_type_at(self, location: Location) -> Option<WorkspaceTypeId> {
        match reference_index_at(self.spec_references(), location) {
            Some(k) => match self.spec_references()[k].definition {
                Some(d) => if d.0 < self.spec_definitions().len() {
                    self.spec_definitions()[d.0 as int].ty
                } else {
                    None
                },
                None => None,
            },
            None => match definition_index_at(self.spec_definitions(), location) {
                Some(k) => self.spec_definitions()[k].ty,
                None => match result_module_at(self.spec_modules(), location) {
                    Some(k) => self.spec_modules()[k].result_type,
                    None => None,
                },
            },
        }
    }

    pub fn types(&self) -> (r: &WorkspaceTypeGraph)
        ensures
            *r == self.spec_types(),
    {
        &self.types
    }

    /// The fields of the struct type of `module`'s result, in name order;
    /// nothing when the module, its result type or a struct type is missing.
    pub fn exports_of(&self, module: WorkspaceModuleId) -> (r: Vec<WorkspaceExport>)
        ensures
            match self.spec_export_fields(module) {
                Some(fields) => r@.len() == fields.len() && forall|i: int| 0 <= i < r@.len() ==> (#[trigger] r@[i]).name@ == fields[i].0@ && r@[i].ty == fields[i].1,
                None => r@.len() == 0,
            },
            self.wf() ==> forall|i: int, j: int|
                0 <= i < j < r@.len() ==> bytes_lt(encode_utf8((#[trigger] r@[i]).name@), encode_utf8((#[trigger] r@[j]).name@)),
    {
        proof {
            if self.wf() {
                self.spec_types().lemma_keys_ordered();
            }
        }
        let result = match self.module(module) {
            Some(m) => match m.result_type {
                Some(t) => t,
                None => return Vec::new(),
            },
            None => return Vec::new(),
        };
        match self.types.node(result) {
            Some(WorkspaceTypeNode::Struct(fields)) => {
                let mut out: Vec<WorkspaceExport> = Vec::new();
                let mut i: usize = 0;
                while i < fields.len()
                    invariant
                        i <= fields@.len(),
                        out@.len() == i,
                        forall|q: int| 0 <= q < i ==> (#[trigger] out@[q]).name@ == fields@[q].0@ && out@[q].ty == fields@[q].1,
                        self.wf() ==> names_in_order(fields@),
                    decreases fields@.len() - i,
                {
                    out.push(WorkspaceExport { name: fields[i].0.clone(), ty: fields[i].1 });
                    i = i + 1;
                }
                proof {
                    if self.wf() {
                        assert forall|a: int, b: int| 0 <= a < b < out@.len() implies bytes_lt(
                            encode_utf8((#[trigger] out@[a]).name@),
                            encode_utf8((#[trigger] out@[b]).name@),
                        ) by {
                            assert(bytes_lt(encode_utf8(fields@[a].0@), encode_utf8(fields@[b].0@)));
                        }
                    }
                }
                out
            },
            _ => Vec::new(),
        }
    }

    /// The fields whose names [`exports_of`](Self::exports_of) lists.
    pub open spec fn spec_export_fields(self, module: WorkspaceModuleId) -> Option<Seq<(String, WorkspaceTypeId)>> {
        if module.0 < self.spec_modules().len() {
            match self.spec_modules()[module.0 as int].result_type {
                Some(t) => if t.0 < self.spec_types().spec_nodes().len() {
                    match self.spec_types().spec_nodes()[t.0 as int] {
                        WorkspaceTypeNode::Struct(fields) => Some(fields@),
                        _ => None,
                    }
                } else {
                    None
                },
                None => None,
            }
        } else {
            None
        }
    }
}

} // verus!

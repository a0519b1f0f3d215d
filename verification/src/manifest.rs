//! The dependency manifest of a workspace, read from its parsed JSON tree:
//! the dependencies it names with their paths, and the format overrides.

use vstd::prelude::*;
use vstd::string::StringSliceAdditionalSpecFns;
use vstd::utf8::decode_utf8;
use crate::json::{decode_from, decode_string};
use crate::module_id::{debug_quoted, debug_text, ModuleFormat, ResolveModuleError};
use crate::parser::char_starts_at;
use crate::syntax::json::parser::{CstData, Rule};
use crate::syntax::tree::{child_walk, subtree_end, NodeKind, NodeRef};
use crate::text::{eq_bytes, starts_char, str_slice};

verus! {

/// What a dependency manifest asks for, in written order.
#[derive(Debug)]
pub struct Manifest {
    /// Each dependency's name and its path, relative to the workspace root.
    pub dependencies: Vec<(String, String)>,
    /// Each format override: a module URI and its format.
    pub formats: Vec<(String, ModuleFormat)>,
}

/// The members of a JSON object, keys decoded, in written order.
pub type Members = Vec<(String, NodeRef)>;

/// Whether two texts are equal.
fn same_text(a: &str, b: &str) -> (r: bool)
    ensures
        r == (a@ == b@),
{
    proof {
        vstd::utf8::encode_utf8_decode_utf8(a@);
        vstd::utf8::encode_utf8_decode_utf8(b@);
    }
    eq_bytes(a.as_bytes(), b.as_bytes())
}

/// Whether some member is named `key`.
fn has_key(members: &Members, key: &str) -> (r: bool)
    ensures
        r == exists|j: int| 0 <= j < members@.len() && (#[trigger] members_view(members@)[j]).0 == key@,
{
    let mut j: usize = 0;
    while j < members.len()
        invariant
            j <= members@.len(),
            forall|q: int| 0 <= q < j ==> (#[trigger] members_view(members@)[q]).0 != key@,
        decreases members@.len() - j,
    {
        if same_text(members[j].0.as_str(), key) {
            assert(members_view(members@)[j as int].0 == key@);
            return true;
        }
        j = j + 1;
    }
    false
}

/// The first member named `name` among `ms`.
pub open spec fn member_of(ms: Seq<(Seq<char>, NodeRef)>, name: Seq<char>) -> Option<NodeRef>
    decreases ms.len(),
{
    if ms.len() == 0 {
        None
    } else if ms[0].0 == name {
        Some(ms[0].1)
    } else {
        member_of(ms.drop_first(), name)
    }
}

/// The view of decoded members.
pub open spec fn members_view(ms: Seq<(String, NodeRef)>) -> Seq<(Seq<char>, NodeRef)> {
    ms.map_values(|m: (String, NodeRef)| (m.0@, m.1))
}

/// How reading a manifest fails: a message about its content, or a format
/// name that names no format.
pub enum ManifestFailure {
    Manifest(Seq<char>),
    UnknownFormat(Seq<char>),
}

/// The failure an error reports.
pub open spec fn failure_of(e: ResolveModuleError) -> Option<ManifestFailure> {
    match e {
        ResolveModuleError::Manifest(m) => Some(ManifestFailure::Manifest(m@)),
        ResolveModuleError::UnknownFormat(x) => Some(ManifestFailure::UnknownFormat(x@)),
        _ => None,
    }
}

/// The view of listed dependencies.
pub open spec fn pairs_view(ps: Seq<(String, String)>) -> Seq<(Seq<char>, Seq<char>)> {
    ps.map_values(|p: (String, String)| (p.0@, p.1@))
}

/// The view of listed format overrides.
pub open spec fn formats_view(ps: Seq<(String, ModuleFormat)>) -> Seq<(Seq<char>, ModuleFormat)> {
    ps.map_values(|p: (String, ModuleFormat)| (p.0@, p.1))
}

/// `"invalid <shown>: "`, the start of a message about the manifest's JSON.
pub open spec fn invalid_prefix(shown: Seq<char>) -> Seq<char> {
    "invalid "@ + shown + ": "@
}

/// Reads the values of a parsed manifest; `shown` names the manifest in
/// messages.
pub struct ManifestReader<'a> {
    pub cst: &'a CstData,
    pub source: &'a str,
    pub shown: &'a str,
}

impl<'a> ManifestReader<'a> {
    /// The tree's spans lie in the source.
    pub open spec fn wf(self) -> bool {
        &&& self.cst.nodes@.len() > 0
        &&& forall|q: int|
            0 <= q < self.cst.nodes@.len() ==> (#[trigger] self.cst.nodes@[q]).start
                <= self.cst.nodes@[q].end <= self.source.spec_bytes().len()
    }

    /// The children of `n`, in order.
    pub open spec fn kids(self, n: NodeRef) -> Seq<NodeRef> {
        child_walk(self.cst.nodes@, n.0 + 1, subtree_end(self.cst.nodes@, n.0 as int))
    }

    /// The rule of an interior node.
    pub open spec fn rule_of(self, n: NodeRef) -> Option<Rule> {
        match self.cst.nodes@[n.0 as int].kind {
            NodeKind::Rule(r) => Some(r),
            NodeKind::Token(_) => None,
        }
    }

    /// The interior nodes among `cs`, in order.
    pub open spec fn rules_in(self, cs: Seq<NodeRef>) -> Seq<NodeRef>
        decreases cs.len(),
    {
        if cs.len() == 0 {
            Seq::empty()
        } else {
            self.rules_in(cs.drop_last()) + if self.rule_of(cs.last()) is Some {
                seq![cs.last()]
            } else {
                Seq::empty()
            }
        }
    }

    /// The source text of `n`, or nothing where its span does not fall on
    /// character boundaries.
    pub open spec fn text_of(self, n: NodeRef) -> Seq<char> {
        let b = self.source.spec_bytes();
        let x = self.cst.nodes@[n.0 as int];
        if starts_char(b, x.start as int) && starts_char(b, x.end as int) {
            decode_utf8(b.subrange(x.start as int, x.end as int))
        } else {
            Seq::empty()
        }
    }

    /// The value of the document: the root's first interior child.
    pub open spec fn spec_value(self) -> Option<NodeRef> {
        let rs = self.rules_in(self.kids(NodeRef(0)));
        if rs.len() > 0 {
            Some(rs[0])
        } else {
            None
        }
    }

    /// The decoded text of a string node; nothing for another node or an
    /// empty text; the message of a bad escape.
    pub open spec fn spec_string(self, n: Option<NodeRef>) -> Result<Option<Seq<char>>, Seq<char>> {
        match n {
            None => Ok(None),
            Some(n) => if self.rule_of(n) != Some(Rule::String) || self.text_of(n).len() == 0 {
                Ok(None)
            } else {
                match decode_from(self.text_of(n), 1) {
                    Ok(cs) => Ok(Some(cs)),
                    Err(m) => Err(invalid_prefix(self.shown@) + m),
                }
            },
        }
    }

    /// The members of an object among the children `cs`: each member of
    /// two interior parts whose key is a string, a key written twice being
    /// an error.
    pub open spec fn spec_members(self, cs: Seq<NodeRef>) -> Result<Seq<(Seq<char>, NodeRef)>, Seq<char>>
        decreases cs.len(),
    {
        if cs.len() == 0 {
            Ok(Seq::empty())
        } else {
            match self.spec_members(cs.drop_last()) {
                Err(e) => Err(e),
                Ok(acc) => {
                    let m = cs.last();
                    let parts = self.rules_in(self.kids(m));
                    if self.rule_of(m) != Some(Rule::Member) || parts.len() != 2 {
                        Ok(acc)
                    } else {
                        match self.spec_string(Some(parts[0])) {
                            Err(e) => Err(e),
                            Ok(None) => Err(invalid_prefix(self.shown@) + "JSON object key must be a string"@),
                            Ok(Some(k)) => if exists|j: int| 0 <= j < acc.len() && (#[trigger] acc[j]).0 == k {
                                Err(invalid_prefix(self.shown@) + "duplicate JSON object key "@ + debug_text(k))
                            } else {
                                Ok(acc.push((k, parts[1])))
                            },
                        }
                    }
                },
            }
        }
    }

    /// The members of an object node; nothing for another node.
    pub open spec fn spec_object(self, n: Option<NodeRef>) -> Result<Option<Seq<(Seq<char>, NodeRef)>>, Seq<char>> {
        match n {
            None => Ok(None),
            Some(n) => if self.rule_of(n) != Some(Rule::Object) {
                Ok(None)
            } else {
                match self.spec_members(self.kids(n)) {
                    Ok(ms) => Ok(Some(ms)),
                    Err(e) => Err(e),
                }
            },
        }
    }

    /// An error among the first members stays the error of all of them.
    proof fn lemma_members_err(self, cs: Seq<NodeRef>, i: int)
        requires
            0 <= i <= cs.len(),
            self.spec_members(cs.subrange(0, i)) is Err,
        ensures
            self.spec_members(cs) == self.spec_members(cs.subrange(0, i)),
        decreases cs.len(),
    {
        if i < cs.len() {
            assert(cs.drop_last().subrange(0, i) =~= cs.subrange(0, i));
            self.lemma_members_err(cs.drop_last(), i);
        } else {
            assert(cs.subrange(0, i) =~= cs);
        }
    }

    /// The dependencies listed by the members `ds` of the `dependencies`
    /// object: each an object with a string `path`.
    pub open spec fn spec_dependencies(self, ds: Seq<(Seq<char>, NodeRef)>) -> Result<Seq<(Seq<char>, Seq<char>)>, Seq<char>>
        decreases ds.len(),
    {
        if ds.len() == 0 {
            Ok(Seq::empty())
        } else {
            match self.spec_dependencies(ds.drop_last()) {
                Err(e) => Err(e),
                Ok(acc) => {
                    let (name, node) = ds.last();
                    match self.spec_object(Some(node)) {
                        Err(e) => Err(e),
                        Ok(None) => Err("dependency "@ + debug_text(name) + " must be an object"@),
                        Ok(Some(sm)) => match member_of(sm, "path"@) {
                            None => Err("dependency "@ + debug_text(name) + " must have a String path"@),
                            Some(pn) => match self.spec_string(Some(pn)) {
                                Err(e) => Err(e),
                                Ok(None) => Err("dependency "@ + debug_text(name) + " must have a String path"@),
                                Ok(Some(path)) => Ok(acc.push((name, path))),
                            },
                        },
                    }
                },
            }
        }
    }

    /// The format overrides listed by the members `fs` of the `formats`
    /// object: each a string naming a format.
    pub open spec fn spec_formats(self, fs: Seq<(Seq<char>, NodeRef)>) -> Result<Seq<(Seq<char>, ModuleFormat)>, ManifestFailure>
        decreases fs.len(),
    {
        if fs.len() == 0 {
            Ok(Seq::empty())
        } else {
            match self.spec_formats(fs.drop_last()) {
                Err(e) => Err(e),
                Ok(acc) => {
                    let (module, node) = fs.last();
                    match self.spec_string(Some(node)) {
                        Err(e) => Err(ManifestFailure::Manifest(e)),
                        Ok(None) => Err(ManifestFailure::Manifest("format override "@ + debug_text(module) + " must be a String"@)),
                        Ok(Some(name)) => match ModuleFormat::spec_parse(vstd::utf8::encode_utf8(name)) {
                            Some(f) => Ok(acc.push((module, f))),
                            None => Err(ManifestFailure::UnknownFormat(name)),
                        },
                    }
                },
            }
        }
    }

    /// The members of the field `field` of the top object, which must be an
    /// object where present; `message` reports it when it is not one.
    pub open spec fn spec_section(self, top: Seq<(Seq<char>, NodeRef)>, field: Seq<char>, message: Seq<char>) -> Result<Seq<(Seq<char>, NodeRef)>, Seq<char>> {
        match member_of(top, field) {
            None => Ok(Seq::empty()),
            Some(d) => match self.spec_object(Some(d)) {
                Err(e) => Err(e),
                Ok(None) => Err(message),
                Ok(Some(ds)) => Ok(ds),
            },
        }
    }

    /// What the manifest asks for: its dependencies and format overrides,
    /// or how it fails.
    pub open spec fn spec_manifest(self) -> Result<(Seq<(Seq<char>, Seq<char>)>, Seq<(Seq<char>, ModuleFormat)>), ManifestFailure> {
        match self.spec_object(self.spec_value()) {
            Err(e) => Err(ManifestFailure::Manifest(e)),
            Ok(None) => Err(ManifestFailure::Manifest("dependency manifest must be a JSON object"@)),
            Ok(Some(top)) => match self.spec_section(top, "dependencies"@, "manifest field \"dependencies\" must be an object"@) {
                Err(e) => Err(ManifestFailure::Manifest(e)),
                Ok(ds) => match self.spec_dependencies(ds) {
                    Err(e) => Err(ManifestFailure::Manifest(e)),
                    Ok(deps) => match self.spec_section(top, "formats"@, "manifest field \"formats\" must be an object"@) {
                        Err(e) => Err(ManifestFailure::Manifest(e)),
                        Ok(fs) => match self.spec_formats(fs) {
                            Err(e) => Err(e),
                            Ok(formats) => Ok((deps, formats)),
                        },
                    },
                },
            },
        }
    }

    /// The root's first interior child.
    pub fn value(&self) -> (r: Option<NodeRef>)
        requires
            self.wf(),
        ensures
            r == self.spec_value(),
            r matches Some(n) ==> n.0 < self.cst.nodes@.len(),
    {
        let cs = self.cst.children(NodeRef::root());
        let mut i: usize = 0;
        proof {
            assert(cs@.subrange(0, 0) =~= Seq::<NodeRef>::empty());
        }
        while i < cs.len()
            invariant
                i <= cs@.len(),
                cs@ == self.kids(NodeRef(0)),
                self.rules_in(cs@.subrange(0, i as int)).len() == 0,
                forall|k: int| 0 <= k < cs@.len() ==> (#[trigger] cs@[k]).0 < self.cst.nodes@.len(),
            decreases cs@.len() - i,
        {
            proof {
                assert(cs@.subrange(0, i + 1).drop_last() =~= cs@.subrange(0, i as int));
            }
            if self.cst.rule(cs[i]).is_some() {
                proof {
                    self.lemma_rules_prefix(cs@, i as int + 1);
                }
                return Some(cs[i]);
            }
            i = i + 1;
        }
        proof {
            assert(cs@.subrange(0, i as int) =~= cs@);
        }
        None
    }

    /// Where no earlier one is interior, the first interior node of `cs` is
    /// the one that ends the prefix `cs[..n]`.
    proof fn lemma_rules_prefix(self, cs: Seq<NodeRef>, n: int)
        requires
            0 < n <= cs.len(),
            self.rules_in(cs.subrange(0, n - 1)).len() == 0,
            self.rule_of(cs[n - 1]) is Some,
        ensures
            self.rules_in(cs).len() > 0,
            self.rules_in(cs)[0] == cs[n - 1],
        decreases cs.len(),
    {
        if cs.len() == n {
            assert(cs.drop_last() =~= cs.subrange(0, n - 1));
        } else {
            assert(cs.drop_last().subrange(0, n - 1) =~= cs.subrange(0, n - 1));
            self.lemma_rules_prefix(cs.drop_last(), n);
        }
    }

    /// The interior children of `n`, in order.
    pub fn rule_children(&self, n: NodeRef) -> (rs: Vec<NodeRef>)
        requires
            n.0 < self.cst.nodes@.len(),
        ensures
            rs@ == self.rules_in(self.kids(n)),
            forall|k: int| 0 <= k < rs@.len() ==> (#[trigger] rs@[k]).0 < self.cst.nodes@.len(),
    {
        let cs = self.cst.children(n);
        let mut out: Vec<NodeRef> = Vec::new();
        let mut i: usize = 0;
        proof {
            assert(cs@.subrange(0, 0) =~= Seq::<NodeRef>::empty());
        }
        while i < cs.len()
            invariant
                i <= cs@.len(),
                cs@ == self.kids(n),
                out@ == self.rules_in(cs@.subrange(0, i as int)),
                forall|k: int| 0 <= k < cs@.len() ==> (#[trigger] cs@[k]).0 < self.cst.nodes@.len(),
                forall|k: int| 0 <= k < out@.len() ==> (#[trigger] out@[k]).0 < self.cst.nodes@.len(),
            decreases cs@.len() - i,
        {
            proof {
                assert(cs@.subrange(0, i + 1).drop_last() =~= cs@.subrange(0, i as int));
            }
            if self.cst.rule(cs[i]).is_some() {
                out.push(cs[i]);
            }
            proof {
                assert(out@ =~= self.rules_in(cs@.subrange(0, i + 1)));
            }
            i = i + 1;
        }
        proof {
            assert(cs@.subrange(0, i as int) =~= cs@);
        }
        out
    }

    /// The source text of `n`.
    fn text(&self, n: NodeRef) -> (t: &'a str)
        requires
            self.wf(),
            n.0 < self.cst.nodes@.len(),
        ensures
            t@ == self.text_of(n),
    {
        let x = &self.cst.nodes[n.0];
        let src: &'a str = self.source;
        let b = src.as_bytes();
        if char_starts_at(b, x.start) && char_starts_at(b, x.end) {
            let t = str_slice(src, x.start, x.end);
            proof {
                vstd::utf8::encode_utf8_decode_utf8(t@);
            }
            t
        } else {
            proof {
                reveal_strlit("");
            }
            ""
        }
    }

    /// `"invalid <shown>: "` followed by `rest`.
    fn invalid(&self, rest: &str) -> (s: String)
        ensures
            s@ == invalid_prefix(self.shown@) + rest@,
    {
        let mut s = String::from_str("invalid ");
        s.append(self.shown);
        s.append(": ");
        s.append(rest);
        proof {
            reveal_strlit("invalid ");
            reveal_strlit(": ");
        }
        s
    }

    /// The decoded text of a string node.
    pub fn string(&self, n: Option<NodeRef>) -> (r: Result<Option<String>, String>)
        requires
            self.wf(),
            n matches Some(x) ==> x.0 < self.cst.nodes@.len(),
        ensures
            match self.spec_string(n) {
                Ok(None) => r matches Ok(None),
                Ok(Some(cs)) => r matches Ok(Some(v)) && v@ == cs,
                Err(m) => r matches Err(v) && v@ == m,
            },
    {
        let n = match n {
            Some(n) => n,
            None => return Ok(None),
        };
        if self.cst.rule(n) != Some(Rule::String) {
            return Ok(None);
        }
        let text = self.text(n);
        if text.unicode_len() == 0 {
            return Ok(None);
        }
        match decode_string(text) {
            Ok(v) => Ok(Some(v)),
            Err(m) => Err(self.invalid(m.as_str())),
        }
    }

    /// The members of an object node, keys decoded, in written order; a
    /// key written twice is an error.
    pub fn object(&self, n: Option<NodeRef>) -> (r: Result<Option<Members>, String>)
        requires
            self.wf(),
            n matches Some(x) ==> x.0 < self.cst.nodes@.len(),
        ensures
            match self.spec_object(n) {
                Ok(None) => r matches Ok(None),
                Ok(Some(ms)) => r matches Ok(Some(v)) && members_view(v@) == ms,
                Err(m) => r matches Err(v) && v@ == m,
            },
            r matches Ok(Some(v)) ==> forall|k: int| 0 <= k < v@.len() ==> (#[trigger] v@[k]).1.0 < self.cst.nodes@.len(),
    {
        let node = match n {
            Some(x) => x,
            None => return Ok(None),
        };
        if self.cst.rule(node) != Some(Rule::Object) {
            return Ok(None);
        }
        let cs = self.cst.children(node);
        let mut members: Members = Vec::new();
        let mut i: usize = 0;
        proof {
            assert(cs@.subrange(0, 0) =~= Seq::<NodeRef>::empty());
            assert(members_view(members@) =~= Seq::<(Seq<char>, NodeRef)>::empty());
        }
        while i < cs.len()
            invariant
                self.wf(),
                n == Some(node),
                node.0 < self.cst.nodes@.len(),
                self.rule_of(node) == Some(Rule::Object),
                i <= cs@.len(),
                cs@ == self.kids(node),
                self.spec_members(cs@.subrange(0, i as int)) == Ok::<Seq<(Seq<char>, NodeRef)>, Seq<char>>(
                    members_view(members@),
                ),
                forall|k: int| 0 <= k < cs@.len() ==> (#[trigger] cs@[k]).0 < self.cst.nodes@.len(),
                forall|k: int| 0 <= k < members@.len() ==> (#[trigger] members@[k]).1.0 < self.cst.nodes@.len(),
            decreases cs@.len() - i,
        {
            let m = cs[i];
            let ghost acc = members_view(members@);
            proof {
                assert(cs@.subrange(0, i + 1).drop_last() =~= cs@.subrange(0, i as int));
                assert(cs@.subrange(0, i + 1).last() == m);
            }
            if self.cst.rule(m) == Some(Rule::Member) {
                let parts = self.rule_children(m);
                if parts.len() == 2 {
                    let key = match self.string(Some(parts[0])) {
                        Ok(Some(k)) => k,
                        Ok(None) => {
                            let e = self.invalid("JSON object key must be a string");
                            proof {
                                reveal_strlit("JSON object key must be a string");
                                assert(self.spec_members(cs@.subrange(0, i + 1)) == Err::<Seq<(Seq<char>, NodeRef)>, Seq<char>>(e@));
                                self.lemma_members_err(cs@, i + 1);
                            }
                            return Err(e);
                        },
                        Err(e) => {
                            proof {
                                assert(self.spec_members(cs@.subrange(0, i + 1)) == Err::<Seq<(Seq<char>, NodeRef)>, Seq<char>>(e@));
                                self.lemma_members_err(cs@, i + 1);
                            }
                            return Err(e);
                        },
                    };
                    if has_key(&members, key.as_str()) {
                        let mut message = String::from_str("duplicate JSON object key ");
                        let quoted = debug_quoted(key.as_str());
                        message.append(quoted.as_str());
                        proof {
                            reveal_strlit("duplicate JSON object key ");
                        }
                        let full = self.invalid(message.as_str());
                        proof {
                            assert(full@ =~= invalid_prefix(self.shown@) + "duplicate JSON object key "@ + debug_text(key@));
                            assert(self.spec_members(cs@.subrange(0, i + 1)) == Err::<Seq<(Seq<char>, NodeRef)>, Seq<char>>(full@));
                            self.lemma_members_err(cs@, i + 1);
                        }
                        return Err(full);
                    }
                    members.push((key, parts[1]));
                    proof {
                        assert(members_view(members@) =~= acc.push((key@, parts@[1])));
                    }
                }
            }
            i = i + 1;
        }
        proof {
            assert(cs@.subrange(0, i as int) =~= cs@);
        }
        Ok(Some(members))
    }

    /// The node of the first member named `name`.
    pub fn member(&self, members: &Members, name: &str) -> (r: Option<NodeRef>)
        ensures
            r == member_of(members_view(members@), name@),
            r matches Some(x) ==> exists|k: int| 0 <= k < members@.len() && members@[k].1 == x,
    {
        let ghost all = members_view(members@);
        let mut i: usize = 0;
        proof {
            assert(all.subrange(0, all.len() as int) =~= all);
        }
        while i < members.len()
            invariant
                i <= members@.len(),
                all == members_view(members@),
                member_of(all, name@) == member_of(all.subrange(i as int, all.len() as int), name@),
            decreases members@.len() - i,
        {
            let ghost rest = all.subrange(i as int, all.len() as int);
            proof {
                assert(rest[0] == all[i as int]);
                assert(rest.drop_first() =~= all.subrange(i + 1, all.len() as int));
            }
            if same_text(members[i].0.as_str(), name) {
                return Some(members[i].1);
            }
            i = i + 1;
        }
        None
    }

    /// `"dependency <name:?> <rest>"`.
    fn dependency_message(name: &str, rest: &str) -> (s: String)
        ensures
            s@ == "dependency "@ + debug_text(name@) + rest@,
    {
        let mut s = String::from_str("dependency ");
        let quoted = debug_quoted(name);
        s.append(quoted.as_str());
        s.append(rest);
        proof {
            reveal_strlit("dependency ");
        }
        s
    }

    /// The dependencies listed by the members of the `dependencies` object.
    pub fn dependencies(&self, ds: &Members) -> (r: Result<Vec<(String, String)>, String>)
        requires
            self.wf(),
            forall|k: int| 0 <= k < ds@.len() ==> (#[trigger] ds@[k]).1.0 < self.cst.nodes@.len(),
        ensures
            match self.spec_dependencies(members_view(ds@)) {
                Ok(v) => r matches Ok(x) && pairs_view(x@) == v,
                Err(m) => r matches Err(x) && x@ == m,
            },
    {
        let ghost all = members_view(ds@);
        let mut out: Vec<(String, String)> = Vec::new();
        let mut i: usize = 0;
        proof {
            assert(all.subrange(0, 0) =~= Seq::<(Seq<char>, NodeRef)>::empty());
            assert(pairs_view(out@) =~= Seq::<(Seq<char>, Seq<char>)>::empty());
        }
        while i < ds.len()
            invariant
                self.wf(),
                i <= ds@.len(),
                all == members_view(ds@),
                forall|k: int| 0 <= k < ds@.len() ==> (#[trigger] ds@[k]).1.0 < self.cst.nodes@.len(),
                self.spec_dependencies(all.subrange(0, i as int)) == Ok::<Seq<(Seq<char>, Seq<char>)>, Seq<char>>(pairs_view(out@)),
            decreases ds@.len() - i,
        {
            let ghost acc = pairs_view(out@);
            let ghost sub = all.subrange(0, i + 1);
            proof {
                assert(sub.drop_last() =~= all.subrange(0, i as int));
                assert(sub.last() == (ds@[i as int].0@, ds@[i as int].1));
            }
            let name = &ds[i].0;
            let node = ds[i].1;
            let sm = match self.object(Some(node)) {
                Ok(Some(sm)) => sm,
                Ok(None) => {
                    let e = Self::dependency_message(name.as_str(), " must be an object");
                    proof {
                        reveal_strlit(" must be an object");
                        assert(self.spec_dependencies(sub) == Err::<Seq<(Seq<char>, Seq<char>)>, Seq<char>>(e@));
                        self.lemma_dependencies_err(all, i + 1);
                    }
                    return Err(e);
                },
                Err(e) => {
                    proof {
                        assert(self.spec_dependencies(sub) == Err::<Seq<(Seq<char>, Seq<char>)>, Seq<char>>(e@));
                        self.lemma_dependencies_err(all, i + 1);
                    }
                    return Err(e);
                },
            };
            let path = match self.member(&sm, "path") {
                Some(pn) => match self.string(Some(pn)) {
                    Ok(p) => p,
                    Err(e) => {
                        proof {
                            reveal_strlit("path");
                            assert(self.spec_dependencies(sub) == Err::<Seq<(Seq<char>, Seq<char>)>, Seq<char>>(e@));
                            self.lemma_dependencies_err(all, i + 1);
                        }
                        return Err(e);
                    },
                },
                None => None,
            };
            let path = match path {
                Some(p) => p,
                None => {
                    let e = Self::dependency_message(name.as_str(), " must have a String path");
                    proof {
                        reveal_strlit("path");
                        reveal_strlit(" must have a String path");
                        assert(self.spec_dependencies(sub) == Err::<Seq<(Seq<char>, Seq<char>)>, Seq<char>>(e@));
                        self.lemma_dependencies_err(all, i + 1);
                    }
                    return Err(e);
                },
            };
            out.push((name.clone(), path));
            proof {
                reveal_strlit("path");
                assert(pairs_view(out@) =~= acc.push((all[i as int].0, pairs_view(out@).last().1)));
            }
            i = i + 1;
        }
        proof {
            assert(all.subrange(0, i as int) =~= all);
        }
        Ok(out)
    }

    /// An error among the first dependencies stays the error of all of them.
    proof fn lemma_dependencies_err(self, ds: Seq<(Seq<char>, NodeRef)>, i: int)
        requires
            0 <= i <= ds.len(),
            self.spec_dependencies(ds.subrange(0, i)) is Err,
        ensures
            self.spec_dependencies(ds) == self.spec_dependencies(ds.subrange(0, i)),
        decreases ds.len(),
    {
        if i < ds.len() {
            assert(ds.drop_last().subrange(0, i) =~= ds.subrange(0, i));
            self.lemma_dependencies_err(ds.drop_last(), i);
        } else {
            assert(ds.subrange(0, i) =~= ds);
        }
    }

    /// The format overrides listed by the members of the `formats` object.
    pub fn formats(&self, fs: &Members) -> (r: Result<Vec<(String, ModuleFormat)>, ResolveModuleError>)
        requires
            self.wf(),
            forall|k: int| 0 <= k < fs@.len() ==> (#[trigger] fs@[k]).1.0 < self.cst.nodes@.len(),
        ensures
            match self.spec_formats(members_view(fs@)) {
                Ok(v) => r matches Ok(x) && formats_view(x@) == v,
                Err(m) => r matches Err(x) && failure_of(x) == Some(m),
            },
    {
        let ghost all = members_view(fs@);
        let mut out: Vec<(String, ModuleFormat)> = Vec::new();
        let mut i: usize = 0;
        proof {
            assert(all.subrange(0, 0) =~= Seq::<(Seq<char>, NodeRef)>::empty());
            assert(formats_view(out@) =~= Seq::<(Seq<char>, ModuleFormat)>::empty());
        }
        while i < fs.len()
            invariant
                self.wf(),
                i <= fs@.len(),
                all == members_view(fs@),
                forall|k: int| 0 <= k < fs@.len() ==> (#[trigger] fs@[k]).1.0 < self.cst.nodes@.len(),
                self.spec_formats(all.subrange(0, i as int)) == Ok::<Seq<(Seq<char>, ModuleFormat)>, ManifestFailure>(formats_view(out@)),
            decreases fs@.len() - i,
        {
            let ghost acc = formats_view(out@);
            let ghost sub = all.subrange(0, i + 1);
            proof {
                assert(sub.drop_last() =~= all.subrange(0, i as int));
                assert(sub.last() == (fs@[i as int].0@, fs@[i as int].1));
            }
            let module = &fs[i].0;
            let name = match self.string(Some(fs[i].1)) {
                Ok(Some(n)) => n,
                Ok(None) => {
                    let mut m = String::from_str("format override ");
                    let quoted = debug_quoted(module.as_str());
                    m.append(quoted.as_str());
                    m.append(" must be a String");
                    proof {
                        reveal_strlit("format override ");
                        reveal_strlit(" must be a String");
                        assert(self.spec_formats(sub) == Err::<Seq<(Seq<char>, ModuleFormat)>, ManifestFailure>(ManifestFailure::Manifest(m@)));
                        self.lemma_formats_err(all, i + 1);
                    }
                    return Err(ResolveModuleError::Manifest(m));
                },
                Err(e) => {
                    proof {
                        assert(self.spec_formats(sub) == Err::<Seq<(Seq<char>, ModuleFormat)>, ManifestFailure>(ManifestFailure::Manifest(e@)));
                        self.lemma_formats_err(all, i + 1);
                    }
                    return Err(ResolveModuleError::Manifest(e));
                },
            };
            let format = match ModuleFormat::parse(name.as_str()) {
                Ok(f) => f,
                Err(e) => {
                    proof {
                        assert(self.spec_formats(sub) is Err);
                        self.lemma_formats_err(all, i + 1);
                    }
                    return Err(e);
                },
            };
            out.push((module.clone(), format));
            proof {
                assert(formats_view(out@) =~= acc.push((all[i as int].0, format)));
            }
            i = i + 1;
        }
        proof {
            assert(all.subrange(0, i as int) =~= all);
        }
        Ok(out)
    }

    /// An error among the first overrides stays the error of all of them.
    proof fn lemma_formats_err(self, fs: Seq<(Seq<char>, NodeRef)>, i: int)
        requires
            0 <= i <= fs.len(),
            self.spec_formats(fs.subrange(0, i)) is Err,
        ensures
            self.spec_formats(fs) == self.spec_formats(fs.subrange(0, i)),
        decreases fs.len(),
    {
        if i < fs.len() {
            assert(fs.drop_last().subrange(0, i) =~= fs.subrange(0, i));
            self.lemma_formats_err(fs.drop_last(), i);
        } else {
            assert(fs.subrange(0, i) =~= fs);
        }
    }

    /// The members of the field `field` of the top object, which must be an
    /// object where present.
    fn section(&self, top: &Members, field: &str, message: &str) -> (r: Result<Members, String>)
        requires
            self.wf(),
            forall|k: int| 0 <= k < top@.len() ==> (#[trigger] top@[k]).1.0 < self.cst.nodes@.len(),
        ensures
            match self.spec_section(members_view(top@), field@, message@) {
                Ok(v) => r matches Ok(x) && members_view(x@) == v,
                Err(m) => r matches Err(x) && x@ == m,
            },
            r matches Ok(x) ==> forall|k: int| 0 <= k < x@.len() ==> (#[trigger] x@[k]).1.0 < self.cst.nodes@.len(),
    {
        match self.member(top, field) {
            None => {
                let v: Members = Vec::new();
                proof {
                    assert(members_view(v@) =~= Seq::<(Seq<char>, NodeRef)>::empty());
                }
                Ok(v)
            },
            Some(d) => match self.object(Some(d)) {
                Ok(Some(ds)) => Ok(ds),
                Ok(None) => Err(String::from_str(message)),
                Err(e) => Err(e),
            },
        }
    }

    /// Reads the manifest: the `dependencies` object maps names to objects
    /// with a string `path`, and the `formats` object maps module URIs to
    /// format names.
    pub fn read(&self) -> (r: Result<Manifest, ResolveModuleError>)
        requires
            self.wf(),
        ensures
            match self.spec_manifest() {
                Ok((deps, formats)) => r matches Ok(m) && pairs_view(m.dependencies@) == deps && formats_view(m.formats@) == formats,
                Err(f) => r matches Err(e) && failure_of(e) == Some(f),
            },
    {
        let top = match self.object(self.value()) {
            Ok(Some(top)) => top,
            Ok(None) => {
                proof {
                    reveal_strlit("dependency manifest must be a JSON object");
                }
                return Err(ResolveModuleError::Manifest(String::from_str("dependency manifest must be a JSON object")));
            },
            Err(e) => return Err(ResolveModuleError::Manifest(e)),
        };
        let ds = match self.section(&top, "dependencies", "manifest field \"dependencies\" must be an object") {
            Ok(ds) => ds,
            Err(e) => return Err(ResolveModuleError::Manifest(e)),
        };
        let dependencies = match self.dependencies(&ds) {
            Ok(d) => d,
            Err(e) => return Err(ResolveModuleError::Manifest(e)),
        };
        let fs = match self.section(&top, "formats", "manifest field \"formats\" must be an object") {
            Ok(fs) => fs,
            Err(e) => return Err(ResolveModuleError::Manifest(e)),
        };
        let formats = match self.formats(&fs) {
            Ok(f) => f,
            Err(e) => return Err(e),
        };
        Ok(Manifest { dependencies, formats })
    }
}

} // verus!

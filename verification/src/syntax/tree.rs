//! Lossless concrete syntax trees, shared by the XL and JSON parsers.
//!
//! A parser emits a stream of events (open a node, take a token, close the
//! innermost node) over a token stream; `build_tree` turns a stream whose
//! leaves are every token, in order, into a tree in preorder whose token
//! leaves are exactly the token stream.

use vstd::prelude::*;
use crate::syntax::Span;

verus! {

/// Tokens that a tree leaves out of the spans of the nodes that hold them:
/// whitespace, comments, invalid input.
pub trait Trivia {
    fn is_trivia(&self) -> bool;
}

/// A token stream as (token, start, end).
pub open spec fn tokens_view<T>(ts: Seq<T>, ss: Seq<Span>) -> Seq<(T, int, int)> {
    Seq::new(ts.len(), |k: int| (ts[k], ss[k].start as int, ss[k].end as int))
}

/// The spans of `ts` cover `i..end` exactly, each nonempty, each starting
/// where the previous one ends.
pub open spec fn tiles<T>(ts: Seq<(T, int, int)>, i: int, end: int) -> bool {
    &&& ts.len() == 0 <==> i >= end
    &&& ts.len() > 0 ==> ts[0].1 == i && ts.last().2 == end
    &&& forall|k: int| 0 <= k < ts.len() ==> #[trigger] ts[k].1 < ts[k].2
    &&& forall|k: int| 0 <= k < ts.len() - 1 ==> #[trigger] ts[k].2 == ts[k + 1].1
}

/// One step of a tree in preorder: a node opens, a token (by its index in
/// the token stream) is a leaf, the innermost open node closes.
#[derive(Clone, Copy, Debug, PartialEq, Eq)]
pub enum Event<R> {
    Open(R),
    Tok(usize),
    Close,
}

/// The token indices of the leaves among `es`, in order.
pub open spec fn leaves<R>(es: Seq<Event<R>>) -> Seq<int>
    decreases es.len(),
{
    if es.len() == 0 {
        Seq::empty()
    } else {
        let rest = leaves(es.drop_last());
        match es.last() {
            Event::Tok(k) => rest.push(k as int),
            _ => rest,
        }
    }
}

/// `0, 1, ..., n - 1`
pub open spec fn upto(n: int) -> Seq<int> {
    Seq::new(n as nat, |k: int| k)
}

/// The leaves of a concatenation are the concatenation of the leaves.
pub proof fn lemma_leaves_concat<R>(a: Seq<Event<R>>, b: Seq<Event<R>>)
    ensures
        leaves(a + b) == leaves(a) + leaves(b),
    decreases b.len(),
{
    if b.len() == 0 {
        assert(a + b =~= a);
        assert(leaves(b) =~= Seq::<int>::empty());
        assert(leaves(a) + leaves(b) =~= leaves(a));
    } else {
        lemma_leaves_concat(a, b.drop_last());
        assert((a + b).drop_last() =~= a + b.drop_last());
        assert((a + b).last() == b.last());
        match b.last() {
            Event::Tok(k) => {
                assert(leaves(a) + leaves(b) =~= (leaves(a) + leaves(b.drop_last())).push(k as int));
            },
            _ => {},
        }
    }
}

/// Inserting an opening event anywhere leaves the leaves unchanged.
pub proof fn lemma_leaves_insert_open<R>(es: Seq<Event<R>>, m: int, r: R)
    requires
        0 <= m <= es.len(),
    ensures
        leaves(es.insert(m, Event::Open(r))) == leaves(es),
{
    let a = es.subrange(0, m);
    let b = es.subrange(m, es.len() as int);
    assert(es =~= a + b);
    assert(es.insert(m, Event::Open(r)) =~= (a + seq![Event::Open(r)]) + b);
    lemma_leaves_concat(a + seq![Event::Open(r)], b);
    lemma_leaves_concat(a, seq![Event::Open(r)]);
    lemma_leaves_concat(a, b);
    assert(seq![Event::Open(r)].drop_last() =~= Seq::<Event<R>>::empty());
    assert(leaves(Seq::<Event<R>>::empty()) =~= Seq::<int>::empty());
    assert(leaves(seq![Event::Open(r)]) =~= Seq::<int>::empty());
    assert(leaves(a) + leaves(seq![Event::Open(r)]) =~= leaves(a));
}

/// Replacing an opening event by another leaves the leaves unchanged.
pub proof fn lemma_leaves_update_open<R>(es: Seq<Event<R>>, m: int, r: R)
    requires
        0 <= m < es.len(),
        es[m] is Open,
    ensures
        leaves(es.update(m, Event::Open(r))) == leaves(es),
{
    let a = es.subrange(0, m);
    let b = es.subrange(m + 1, es.len() as int);
    assert(es =~= (a + seq![es[m]]) + b);
    assert(es.update(m, Event::Open(r)) =~= (a + seq![Event::Open(r)]) + b);
    lemma_leaves_concat(a + seq![es[m]], b);
    lemma_leaves_concat(a + seq![Event::Open(r)], b);
    lemma_leaves_concat(a, seq![es[m]]);
    lemma_leaves_concat(a, seq![Event::Open(r)]);
    assert(seq![Event::Open(r)].drop_last() =~= Seq::<Event<R>>::empty());
    assert(seq![es[m]].drop_last() =~= Seq::<Event<R>>::empty());
}

/// A node of a concrete syntax tree, by its preorder index.
#[derive(Clone, Copy, Debug, PartialEq, Eq, Structural)]
pub struct NodeRef(pub usize);

impl NodeRef {
    /// The root of every tree.
    pub fn root() -> (r: NodeRef)
        ensures
            r.0 == 0,
    {
        NodeRef(0)
    }
}

/// What a node is: a token leaf or an interior node of some rule.
#[derive(Clone, Copy, Debug, PartialEq, Eq)]
pub enum NodeKind<T, R> {
    Token(T),
    Rule(R),
}

/// One node in preorder: its kind, its byte span, and the index just after
/// its subtree.
#[derive(Clone, Copy, Debug, PartialEq, Eq)]
pub struct CstNode<T, R> {
    pub kind: NodeKind<T, R>,
    pub start: usize,
    pub end: usize,
    pub last: usize,
}

/// A node with its span, as seen by queries.
#[derive(Clone, Copy, Debug, PartialEq, Eq)]
pub enum Node<T, R> {
    Token(T, Span),
    Rule(R, Span),
}

/// A concrete syntax tree, its nodes in preorder; the root is at index 0.
#[derive(Clone, Debug)]
pub struct CstData<T, R> {
    pub nodes: Vec<CstNode<T, R>>,
}

/// The token leaves among `nodes`, in order, as (token, start, end).
pub open spec fn cst_leaves<T, R>(nodes: Seq<CstNode<T, R>>) -> Seq<(T, int, int)>
    decreases nodes.len(),
{
    if nodes.len() == 0 {
        Seq::empty()
    } else {
        let rest = cst_leaves(nodes.drop_last());
        match nodes.last().kind {
            NodeKind::Token(t) => rest.push((t, nodes.last().start as int, nodes.last().end as int)),
            NodeKind::Rule(_) => rest,
        }
    }
}

pub proof fn lemma_cst_leaves_concat<T, R>(a: Seq<CstNode<T, R>>, b: Seq<CstNode<T, R>>)
    ensures
        cst_leaves(a + b) == cst_leaves(a) + cst_leaves(b),
    decreases b.len(),
{
    if b.len() == 0 {
        assert(a + b =~= a);
        assert(cst_leaves(a) + cst_leaves(b) =~= cst_leaves(a));
    } else {
        lemma_cst_leaves_concat(a, b.drop_last());
        assert((a + b).drop_last() =~= a + b.drop_last());
        assert((a + b).last() == b.last());
        match b.last().kind {
            NodeKind::Token(t) => {
                assert(cst_leaves(a) + cst_leaves(b) =~= (cst_leaves(a) + cst_leaves(
                    b.drop_last(),
                )).push((t, b.last().start as int, b.last().end as int)));
            },
            NodeKind::Rule(_) => {},
        }
    }
}

/// Changing the fields of an interior node leaves the leaves unchanged.
pub proof fn lemma_cst_leaves_update_rule<T, R>(s: Seq<CstNode<T, R>>, j: int, x: CstNode<T, R>)
    requires
        0 <= j < s.len(),
        s[j].kind is Rule,
        x.kind is Rule,
    ensures
        cst_leaves(s.update(j, x)) == cst_leaves(s),
{
    let a = s.subrange(0, j);
    let b = s.subrange(j + 1, s.len() as int);
    assert(s =~= (a + seq![s[j]]) + b);
    assert(s.update(j, x) =~= (a + seq![x]) + b);
    lemma_cst_leaves_concat(a + seq![s[j]], b);
    lemma_cst_leaves_concat(a + seq![x], b);
    lemma_cst_leaves_concat(a, seq![s[j]]);
    lemma_cst_leaves_concat(a, seq![x]);
    assert(seq![x].drop_last() =~= Seq::<CstNode<T, R>>::empty());
    assert(seq![s[j]].drop_last() =~= Seq::<CstNode<T, R>>::empty());
}

/// The bytes of the leaves `ts` of text `s`, concatenated.
pub open spec fn leaf_texts<T>(s: Seq<u8>, ts: Seq<(T, int, int)>) -> Seq<u8>
    decreases ts.len(),
{
    if ts.len() == 0 {
        Seq::empty()
    } else {
        leaf_texts(s, ts.drop_last()) + s.subrange(ts.last().1, ts.last().2)
    }
}

/// Leaves that tile `0..end` spell the text up to `end`.
pub proof fn lemma_leaf_texts_tiles<T>(s: Seq<u8>, ts: Seq<(T, int, int)>, end: int)
    requires
        tiles(ts, 0, end),
        0 <= end <= s.len(),
    ensures
        leaf_texts(s, ts) == s.subrange(0, end),
    decreases ts.len(),
{
    if ts.len() == 0 {
        assert(s.subrange(0, end) =~= Seq::<u8>::empty());
    } else {
        let init = ts.drop_last();
        let a = ts.last().1;
        if init.len() > 0 {
            assert(ts[ts.len() - 2].2 == ts[ts.len() - 1].1);
            assert forall|k: int| 0 <= k < init.len() - 1 implies #[trigger] init[k].2 == init[k + 1].1 by {
                assert(ts[k].2 == ts[k + 1].1);
            }
            assert forall|k: int| 0 <= k < init.len() implies #[trigger] init[k].1 < init[k].2 by {
                assert(ts[k].1 < ts[k].2);
            }
            assert(init[0].1 == 0);
            assert(init.last().2 == a);
            // The starts increase from 0, so `a` is positive.
            assert forall|k: int| 0 <= k < init.len() implies 0 <= #[trigger] init[k].1 < a by {
                lemma_tiles_increasing(ts, end, k);
            }
        } else {
            assert(a == 0);
        }
        assert(ts[ts.len() - 1].1 < ts[ts.len() - 1].2);
        lemma_tiles_start_nonneg(ts, end, ts.len() - 1);
        lemma_leaf_texts_tiles(s, init, a);
        assert(s.subrange(0, a) + s.subrange(a, end) =~= s.subrange(0, end));
    }
}

proof fn lemma_tiles_start_nonneg<T>(ts: Seq<(T, int, int)>, end: int, k: int)
    requires
        tiles(ts, 0, end),
        0 <= k < ts.len(),
    ensures
        0 <= ts[k].1,
    decreases k,
{
    if k > 0 {
        lemma_tiles_start_nonneg(ts, end, k - 1);
        assert(ts[k - 1].2 == ts[k].1);
        assert(ts[k - 1].1 < ts[k - 1].2);
    }
}

proof fn lemma_tiles_increasing<T>(ts: Seq<(T, int, int)>, end: int, k: int)
    requires
        tiles(ts, 0, end),
        0 <= k < ts.len() - 1,
    ensures
        0 <= ts[k].1 < ts[ts.len() - 1].1,
    decreases ts.len() - 1 - k,
{
    lemma_tiles_start_nonneg(ts, end, k);
    assert(ts[k].2 == ts[k + 1].1);
    assert(ts[k].1 < ts[k].2);
    if k + 1 < ts.len() - 1 {
        lemma_tiles_increasing(ts, end, k + 1);
    }
}

/// Token spans that tile `0..end` lie within it.
pub proof fn lemma_tiles_bounds<T>(ts: Seq<(T, int, int)>, end: int, k: int)
    requires
        tiles(ts, 0, end),
        0 <= k < ts.len(),
    ensures
        0 <= ts[k].1 < ts[k].2 <= end,
    decreases ts.len() - k,
{
    lemma_tiles_start_nonneg(ts, end, k);
    if k < ts.len() - 1 {
        lemma_tiles_bounds(ts, end, k + 1);
        assert(ts[k].2 == ts[k + 1].1);
    }
}

/// Closes interior node `j`: its subtree ends here, and its span ends at
/// the last significant token inside it (or is empty).
fn close_node<T: Copy, R: Copy>(nodes: &mut Vec<CstNode<T, R>>, j: usize, content_end: usize, Ghost(n): Ghost<int>)
    requires
        j < old(nodes)@.len(),
        old(nodes)@[j as int].kind is Rule,
        content_end <= n,
        forall|q: int|
            0 <= q < old(nodes)@.len() ==> (#[trigger] old(nodes)@[q]).start <= old(nodes)@[q].end
                <= n,
    ensures
        final(nodes)@ == old(nodes)@.update(j as int, CstNode {
            kind: old(nodes)@[j as int].kind,
            start: old(nodes)@[j as int].start,
            end: if content_end > old(nodes)@[j as int].start { content_end } else { old(nodes)@[j as int].start },
            last: old(nodes)@.len() as usize,
        }),
        final(nodes)@.len() == old(nodes)@.len(),
        cst_leaves(final(nodes)@) == cst_leaves(old(nodes)@),
        forall|q: int| 0 <= q < final(nodes)@.len() ==> (#[trigger] final(nodes)@[q]).kind == old(nodes)@[q].kind,
        forall|q: int|
            0 <= q < final(nodes)@.len() ==> (#[trigger] final(nodes)@[q]).start
                <= final(nodes)@[q].end <= n,
{
    let node = nodes[j];
    let end = if content_end > node.start {
        content_end
    } else {
        node.start
    };
    let updated = CstNode { kind: node.kind, start: node.start, end, last: nodes.len() };
    proof {
        lemma_cst_leaves_update_rule(nodes@, j as int, updated);
    }
    nodes.set(j, updated);
}

/// Builds the tree described by a well-formed event stream over `tokens`.
pub fn build_tree<T: Trivia + Copy, R: Copy>(
    events: &Vec<Event<R>>,
    tokens: &Vec<T>,
    spans: &Vec<Span>,
    n: usize,
) -> (c: CstData<T, R>)
    requires
        tokens@.len() == spans@.len(),
        leaves(events@) == upto(tokens@.len() as int),
        forall|k: int| 0 <= k < spans@.len() ==> (#[trigger] spans@[k]).start <= spans@[k].end <= n,
    ensures
        cst_leaves(c.nodes@) == tokens_view(tokens@, spans@),
        forall|q: int| 0 <= q < c.nodes@.len() ==> (#[trigger] c.nodes@[q]).start <= c.nodes@[q].end <= n,
        events@.len() > 0 && events@[0] is Open ==> c.nodes@.len() > 0 && c.nodes@[0].kind
            == NodeKind::<T, R>::Rule(events@[0]->Open_0),
{
    let ghost view = tokens_view(tokens@, spans@);
    let mut nodes: Vec<CstNode<T, R>> = Vec::new();
    let mut stack: Vec<usize> = Vec::new();
    let mut cur: usize = 0;
    let mut content_end: usize = 0;
    let mut i: usize = 0;
    let mut t: usize = 0;
    let ntok = tokens.len();
    while i < events.len()
        invariant
            ntok == tokens@.len(),
            tokens@.len() == spans@.len(),
            view == tokens_view(tokens@, spans@),
            leaves(events@) == upto(tokens@.len() as int),
            forall|k: int| 0 <= k < spans@.len() ==> (#[trigger] spans@[k]).start <= spans@[k].end <= n,
            i <= events@.len(),
            nodes@.len() <= i,
            leaves(events@.subrange(0, i as int)) == upto(t as int),
            t <= tokens@.len(),
            cst_leaves(nodes@) == view.subrange(0, t as int),
            cur <= n,
            content_end <= n,
            forall|q: int| 0 <= q < nodes@.len() ==> (#[trigger] nodes@[q]).start <= nodes@[q].end <= n,
            forall|q: int| 0 <= q < stack@.len() ==> (#[trigger] stack@[q]) < nodes@.len() && nodes@[stack@[q] as int].kind is Rule,
            i > 0 && events@[0] is Open ==> nodes@.len() > 0 && nodes@[0].kind == NodeKind::<T, R>::Rule(events@[0]->Open_0),
        decreases events@.len() - i,
    {
        proof {
            assert(events@.subrange(0, i + 1).drop_last() =~= events@.subrange(0, i as int));
            assert(events@.subrange(0, i + 1).last() == events@[i as int]);
        }
        match events[i] {
            Event::Open(r) => {
                let idx = nodes.len();
                let node = CstNode { kind: NodeKind::Rule(r), start: cur, end: cur, last: idx + 1 };
                proof {
                    assert((nodes@.push(node)).drop_last() =~= nodes@);
                }
                nodes.push(node);
                stack.push(idx);
            },
            Event::Tok(k) => {
                proof {
                    let pre = events@.subrange(0, i + 1);
                    let post = events@.subrange(i + 1, events@.len() as int);
                    assert(events@ =~= pre + post);
                    lemma_leaves_concat(pre, post);
                    assert(leaves(pre) == upto(t as int).push(k as int));
                    assert(leaves(pre).len() == t + 1);
                    assert(leaves(events@)[t as int] == leaves(pre)[t as int]);
                    assert(k == t);
                    assert(t < tokens@.len());
                }
                let sp = spans[k];
                let tok = tokens[k];
                let idx = nodes.len();
                let leaf = CstNode { kind: NodeKind::Token(tok), start: sp.start, end: sp.end, last: idx + 1 };
                proof {
                    assert((nodes@.push(leaf)).drop_last() =~= nodes@);
                    assert(view.subrange(0, t + 1) =~= view.subrange(0, t as int).push(view[t as int]));
                }
                nodes.push(leaf);
                cur = sp.end;
                if !tok.is_trivia() {
                    content_end = sp.end;
                }
                proof {
                    assert(upto(t as int).push(t as int) =~= upto(t + 1));
                }
                t = t + 1;
            },
            Event::Close => {
                if stack.len() > 0 {
                    let j = stack.pop().unwrap();
                    close_node(&mut nodes, j, content_end, Ghost(n as int));
                }
            },
        }
        i = i + 1;
    }
    proof {
        assert(events@.subrange(0, i as int) =~= events@);
        assert(upto(t as int).len() == t);
        assert(t == tokens@.len());
        assert(view.subrange(0, t as int) =~= view);
    }
    while stack.len() > 0
        invariant
            cst_leaves(nodes@) == view,
            content_end <= n,
            forall|q: int| 0 <= q < nodes@.len() ==> (#[trigger] nodes@[q]).start <= nodes@[q].end <= n,
            forall|q: int| 0 <= q < stack@.len() ==> (#[trigger] stack@[q]) < nodes@.len() && nodes@[stack@[q] as int].kind is Rule,
            events@.len() > 0 && events@[0] is Open ==> nodes@.len() > 0 && nodes@[0].kind == NodeKind::<T, R>::Rule(events@[0]->Open_0),
        decreases stack@.len(),
    {
        let j = stack.pop().unwrap();
        close_node(&mut nodes, j, content_end, Ghost(n as int));
    }
    CstData { nodes }
}


/// The children of the node at `c..end`: each child, then its next sibling
/// just after its subtree.
pub open spec fn child_walk<T, R>(nodes: Seq<CstNode<T, R>>, c: int, end: int) -> Seq<NodeRef>
    decreases end - c,
{
    if c < 0 || c >= end || c >= nodes.len() {
        Seq::empty()
    } else {
        let next = if nodes[c].last <= c { c + 1 } else if nodes[c].last >= end { end } else { nodes[c].last as int };
        seq![NodeRef(c as usize)] + child_walk(nodes, next, end)
    }
}

/// The index just after the subtree of `node`, within the tree.
pub open spec fn subtree_end<T, R>(nodes: Seq<CstNode<T, R>>, node: int) -> int {
    if nodes[node].last <= nodes.len() { nodes[node].last as int } else { nodes.len() as int }
}

proof fn lemma_child_walk_bounds<T, R>(nodes: Seq<CstNode<T, R>>, c: int, end: int)
    requires
        0 <= c,
        end <= nodes.len(),
        nodes.len() <= usize::MAX,
    ensures
        forall|k: int| 0 <= k < child_walk(nodes, c, end).len() ==> c <= (#[trigger] child_walk(nodes, c, end)[k]).0 < end,
    decreases end - c,
{
    if c < end && c < nodes.len() {
        let next = if nodes[c].last <= c { c + 1 } else if nodes[c].last >= end { end } else { nodes[c].last as int };
        lemma_child_walk_bounds(nodes, next, end);
        let w = child_walk(nodes, c, end);
        assert(w == seq![NodeRef(c as usize)] + child_walk(nodes, next, end));
        assert forall|k: int| 0 <= k < w.len() implies c <= (#[trigger] w[k]).0 < end by {
            if k > 0 {
                assert(w[k] == child_walk(nodes, next, end)[k - 1]);
            }
        }
    }
}

impl<T: Copy, R: Copy> CstData<T, R> {
    /// The number of nodes.
    pub fn len(&self) -> (n: usize)
        ensures
            n == self.nodes@.len(),
    {
        self.nodes.len()
    }

    /// The node `node`, with its kind and span.
    pub fn get(&self, node: NodeRef) -> (r: Node<T, R>)
        requires
            node.0 < self.nodes@.len(),
        ensures
            ({
                let n = self.nodes@[node.0 as int];
                match n.kind {
                    NodeKind::Token(t) => r == Node::<T, R>::Token(t, Span { start: n.start, end: n.end }),
                    NodeKind::Rule(k) => r == Node::<T, R>::Rule(k, Span { start: n.start, end: n.end }),
                }
            }),
    {
        let n = self.nodes[node.0];
        let span = Span { start: n.start, end: n.end };
        match n.kind {
            NodeKind::Token(t) => Node::Token(t, span),
            NodeKind::Rule(k) => Node::Rule(k, span),
        }
    }

    /// The byte range of `node`.
    pub fn span(&self, node: NodeRef) -> (r: std::ops::Range<usize>)
        requires
            node.0 < self.nodes@.len(),
        ensures
            r.start == self.nodes@[node.0 as int].start,
            r.end == self.nodes@[node.0 as int].end,
    {
        let n = self.nodes[node.0];
        std::ops::Range { start: n.start, end: n.end }
    }

    /// The rule of `node`, or `None` for a token.
    pub fn rule(&self, node: NodeRef) -> (r: Option<R>)
        requires
            node.0 < self.nodes@.len(),
        ensures
            match self.nodes@[node.0 as int].kind {
                NodeKind::Rule(k) => r == Some(k),
                NodeKind::Token(_) => r is None,
            },
    {
        match self.nodes[node.0].kind {
            NodeKind::Rule(k) => Some(k),
            NodeKind::Token(_) => None,
        }
    }

    /// The children of `node`, in order.
    pub fn children(&self, node: NodeRef) -> (cs: Vec<NodeRef>)
        requires
            node.0 < self.nodes@.len(),
        ensures
            cs@ == child_walk(self.nodes@, node.0 + 1, subtree_end(self.nodes@, node.0 as int)),
            forall|k: int| 0 <= k < cs@.len() ==> node.0 < (#[trigger] cs@[k]).0 < self.nodes@.len(),
    {
        let ghost nodes = self.nodes@;
        let end = if self.nodes[node.0].last <= self.nodes.len() {
            self.nodes[node.0].last
        } else {
            self.nodes.len()
        };
        let mut cs: Vec<NodeRef> = Vec::new();
        let total = self.nodes.len();
        let mut c = node.0 + 1;
        proof {
            lemma_child_walk_bounds(nodes, (node.0 + 1) as int, end as int);
        }
        while c < end
            invariant
                nodes == self.nodes@,
                end <= nodes.len(),
                node.0 < c,
                cs@ + child_walk(nodes, c as int, end as int) == child_walk(
                    nodes,
                    node.0 + 1,
                    end as int,
                ),
            decreases end - c,
        {
            let ghost before = cs@;
            let last = self.nodes[c].last;
            let next = if last <= c {
                c + 1
            } else if last >= end {
                end
            } else {
                last
            };
            cs.push(NodeRef(c));
            proof {
                assert(child_walk(nodes, c as int, end as int) == seq![NodeRef(c)] + child_walk(
                    nodes,
                    next as int,
                    end as int,
                ));
                assert(cs@ + child_walk(nodes, next as int, end as int) =~= before + child_walk(
                    nodes,
                    c as int,
                    end as int,
                ));
            }
            c = next;
        }
        proof {
            assert(child_walk(nodes, c as int, end as int) =~= Seq::<NodeRef>::empty());
            assert(cs@ =~= child_walk(nodes, node.0 + 1, end as int));
        }
        cs
    }
}

} // verus!

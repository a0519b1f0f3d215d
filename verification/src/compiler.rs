//! The name analyses that compilation runs on programs: the variables an
//! expression uses without binding them, and every name it reads at run
//! time.
//!
//! Sets of names are held in vectors; only their contents matter.

use vstd::prelude::*;
use crate::ast::{
    BindingKind, Block, DictField, Expr, ExprKind, Identifier, MatchArm, Pattern, PatternKind,
    StringPart, StringPartKind,
};
use crate::types::same_text;

verus! {

/// The texts held in `v`.
pub open spec fn names(v: Seq<String>) -> Set<Seq<char>> {
    Set::new(|n: Seq<char>| exists|i: int| 0 <= i < v.len() && v[i]@ == n)
}

/// The texts of identifiers.
pub open spec fn identifier_names(ids: Seq<Identifier>) -> Set<Seq<char>> {
    Set::new(|n: Seq<char>| exists|i: int| 0 <= i < ids.len() && ids[i].value@ == n)
}

/// The names a pattern binds.
pub open spec fn pattern_names(p: Pattern) -> Set<Seq<char>>
    decreases p,
{
    match p.value {
        PatternKind::Binding(n) => set![n.value@],
        PatternKind::Tuple(items) => patterns_names(items@),
        PatternKind::Tagged { payload, .. } => pattern_names(*payload),
        _ => Set::empty(),
    }
}

pub open spec fn patterns_names(ps: Seq<Pattern>) -> Set<Seq<char>>
    decreases ps,
{
    if ps.len() == 0 {
        Set::empty()
    } else {
        pattern_names(ps[0]).union(patterns_names(ps.subrange(1, ps.len() as int)))
    }
}

// ---------------------------------------------------------------------------
// Free variables.

/// The variables that `e` uses and `bound` does not bind. A block binds
/// its names for the bindings after them and its result; a closure sees
/// its parameters and, of the names free in its body, reports those that
/// `bound` lacks; a match arm sees the names of its pattern.
pub open spec fn free_in(e: Expr, bound: Set<Seq<char>>) -> Set<Seq<char>>
    decreases e, 0int,
{
    match e.value {
        ExprKind::Variable(n) => if bound.contains(n.value@) {
            Set::empty()
        } else {
            set![n.value@]
        },
        ExprKind::Array(items) => free_in_all(items@, bound),
        ExprKind::Tuple(items) => free_in_all(items@, bound),
        ExprKind::InterpolatedString(parts) => free_in_parts(parts@, bound),
        ExprKind::Dict(fields) => free_in_fields(fields@, bound),
        ExprKind::Block(b) => free_in_block(b, 0, bound),
        ExprKind::Unary { operand, .. } => free_in(*operand, bound),
        ExprKind::Binary { left, right, .. } => free_in(*left, bound).union(free_in(*right, bound)),
        ExprKind::Field { receiver, .. } => free_in(*receiver, bound),
        ExprKind::Call { callee, arguments } => free_in(*callee, bound).union(
            free_in_all(arguments@, bound),
        ),
        ExprKind::Closure { parameters, body } => free_in_block(
            body,
            0,
            identifier_names(parameters@),
        ).difference(bound),
        ExprKind::If { condition, then_branch, else_branch } => free_in(*condition, bound).union(
            free_in_block(then_branch, 0, bound),
        ).union(free_in_block(else_branch, 0, bound)),
        ExprKind::Match { value, arms } => free_in(*value, bound).union(free_in_arms(arms@, bound)),
        _ => Set::empty(),
    }
}

/// The free variables of block `b` from its `k`-th binding on, each binding
/// seeing the names of those before it.
pub open spec fn free_in_block(b: Block, k: int, bound: Set<Seq<char>>) -> Set<Seq<char>>
    decreases b, b.value.bindings@.len() - k,
{
    if k < 0 || k >= b.value.bindings@.len() {
        free_in(*b.value.result, bound)
    } else {
        let binding = b.value.bindings@[k].value;
        free_in(binding.value, bound).union(
            free_in_block(b, k + 1, bound.insert(binding.name.value@)),
        )
    }
}

pub open spec fn free_in_all(items: Seq<Expr>, bound: Set<Seq<char>>) -> Set<Seq<char>>
    decreases items, 0int,
{
    if items.len() == 0 {
        Set::empty()
    } else {
        free_in(items[0], bound).union(free_in_all(items.subrange(1, items.len() as int), bound))
    }
}

pub open spec fn free_in_parts(parts: Seq<StringPart>, bound: Set<Seq<char>>) -> Set<Seq<char>>
    decreases parts, 0int,
{
    if parts.len() == 0 {
        Set::empty()
    } else {
        let own = match parts[0].value {
            StringPartKind::Text(_) => Set::empty(),
            StringPartKind::Expression(e) => free_in(e, bound),
        };
        own.union(free_in_parts(parts.subrange(1, parts.len() as int), bound))
    }
}

pub open spec fn free_in_fields(fields: Seq<DictField>, bound: Set<Seq<char>>) -> Set<Seq<char>>
    decreases fields, 0int,
{
    if fields.len() == 0 {
        Set::empty()
    } else {
        free_in(fields[0].value.value, bound).union(
            free_in_fields(fields.subrange(1, fields.len() as int), bound),
        )
    }
}

pub open spec fn free_in_arms(arms: Seq<MatchArm>, bound: Set<Seq<char>>) -> Set<Seq<char>>
    decreases arms, 0int,
{
    if arms.len() == 0 {
        Set::empty()
    } else {
        free_in(arms[0].value.value, bound.union(pattern_names(arms[0].value.pattern))).union(
            free_in_arms(arms.subrange(1, arms.len() as int), bound),
        )
    }
}

// ---------------------------------------------------------------------------
// Sets of names held in vectors.

pub proof fn lemma_names_push(v: Seq<String>, s: String)
    ensures
        names(v.push(s)) == names(v).insert(s@),
{
    assert forall|n: Seq<char>| names(v.push(s)).contains(n) <==> names(v).insert(s@).contains(n) by {
        if names(v.push(s)).contains(n) {
            let i = choose|i: int| 0 <= i < v.push(s).len() && v.push(s)[i]@ == n;
            if i < v.len() {
                assert(v[i]@ == n);
            }
        }
        if names(v).contains(n) {
            let i = choose|i: int| 0 <= i < v.len() && v[i]@ == n;
            assert(v.push(s)[i]@ == n);
        }
        if n == s@ {
            assert(v.push(s)[v.len() as int]@ == n);
        }
    }
    assert(names(v.push(s)) =~= names(v).insert(s@));
}

pub proof fn lemma_identifier_names_push(ids: Seq<Identifier>, i: int)
    requires
        0 <= i < ids.len(),
    ensures
        identifier_names(ids.take(i + 1)) == identifier_names(ids.take(i)).insert(ids[i].value@),
{
    let a = ids.take(i + 1);
    let c = ids.take(i);
    assert forall|n: Seq<char>| identifier_names(a).contains(n) <==> identifier_names(c).insert(ids[i].value@).contains(n) by {
        if identifier_names(a).contains(n) {
            let k = choose|k: int| 0 <= k < a.len() && a[k].value@ == n;
            if k < i {
                assert(c[k].value@ == n);
            }
        }
        if identifier_names(c).contains(n) {
            let k = choose|k: int| 0 <= k < c.len() && c[k].value@ == n;
            assert(a[k].value@ == n);
        }
        if n == ids[i].value@ {
            assert(a[i].value@ == n);
        }
    }
    assert(identifier_names(a) =~= identifier_names(c).insert(ids[i].value@));
}

/// `true` when `v` holds the text of `name`.
pub fn contains_name(v: &Vec<String>, name: &String) -> (b: bool)
    ensures
        b == names(v@).contains(name@),
{
    let mut i: usize = 0;
    while i < v.len()
        invariant
            i <= v@.len(),
            forall|k: int| 0 <= k < i ==> (#[trigger] v@[k])@ != name@,
        decreases v@.len() - i,
    {
        if same_text(&v[i], name) {
            proof {
                assert(v@[i as int]@ == name@);
            }
            return true;
        }
        i = i + 1;
    }
    false
}

/// Adds the text of `name` to `v` unless it is there.
pub fn insert_name(v: &mut Vec<String>, name: &String)
    ensures
        names(final(v)@) == names(old(v)@).insert(name@),
{
    if contains_name(v, name) {
        assert(names(v@).insert(name@) =~= names(v@));
    } else {
        let ghost before = v@;
        v.push(name.clone());
        proof {
            lemma_names_push(before, *name);
        }
    }
}

/// A copy of `v`.
fn copy_names(v: &Vec<String>) -> (r: Vec<String>)
    ensures
        names(r@) == names(v@),
{
    let mut r: Vec<String> = Vec::new();
    let mut i: usize = 0;
    while i < v.len()
        invariant
            i <= v@.len(),
            r@.len() == i,
            forall|k: int| 0 <= k < i ==> (#[trigger] r@[k])@ == v@[k]@,
        decreases v@.len() - i,
    {
        r.push(v[i].clone());
        i = i + 1;
    }
    proof {
        assert forall|n: Seq<char>| names(r@).contains(n) <==> names(v@).contains(n) by {
            if names(r@).contains(n) {
                let k = choose|k: int| 0 <= k < r@.len() && r@[k]@ == n;
                assert(v@[k]@ == n);
            }
            if names(v@).contains(n) {
                let k = choose|k: int| 0 <= k < v@.len() && v@[k]@ == n;
                assert(r@[k]@ == n);
            }
        }
        assert(names(r@) =~= names(v@));
    }
    r
}

// ---------------------------------------------------------------------------
// Free variables, executable.

/// Adds to `bound` the names that `pattern` binds.
pub fn bind_pattern(pattern: &Pattern, bound: &mut Vec<String>)
    ensures
        names(final(bound)@) == names(old(bound)@).union(pattern_names(*pattern)),
    decreases pattern, 0int,
{
    match &pattern.value {
        PatternKind::Binding(name) => {
            insert_name(bound, &name.value);
            proof {
                assert(names(old(bound)@).insert(name.value@) =~= names(old(bound)@).union(
                    set![name.value@],
                ));
            }
        },
        PatternKind::Tuple(items) => bind_patterns(items, bound),
        PatternKind::Tagged { payload, .. } => {
            bind_pattern(payload, bound);
        },
        _ => {
            assert(names(old(bound)@).union(Set::empty()) =~= names(old(bound)@));
        },
    }
}

fn bind_patterns(items: &Vec<Pattern>, bound: &mut Vec<String>)
    ensures
        names(final(bound)@) == names(old(bound)@).union(patterns_names(items@)),
    decreases items, 1int,
{
    let ghost ps = items@;
    let mut i: usize = 0;
    proof {
        assert(ps.subrange(0, ps.len() as int) =~= ps);
    }
    while i < items.len()
        invariant
            ps == items@,
            i <= ps.len(),
            names(old(bound)@).union(patterns_names(ps)) == names(bound@).union(
                patterns_names(ps.subrange(i as int, ps.len() as int)),
            ),
        decreases ps.len() - i,
    {
        let ghost rest = ps.subrange(i as int, ps.len() as int);
        let ghost before = names(bound@);
        proof {
            assert(rest[0] == ps[i as int]);
            assert(rest.subrange(1, rest.len() as int) =~= ps.subrange(i + 1, ps.len() as int));
        }
        bind_pattern(&items[i], bound);
        proof {
            assert(before.union(patterns_names(rest)) =~= names(bound@).union(
                patterns_names(ps.subrange(i + 1, ps.len() as int)),
            ));
        }
        i = i + 1;
    }
    proof {
        assert(ps.subrange(i as int, ps.len() as int) =~= Seq::<Pattern>::empty());
        assert(names(bound@).union(Set::empty()) =~= names(bound@));
    }
}

/// Adds to `free` the variables of `expression` that `bound` does not
/// bind, as [`free_in`] says.
pub fn free_expr(expression: &Expr, bound: &Vec<String>, free: &mut Vec<String>)
    ensures
        names(final(free)@) == names(old(free)@).union(free_in(*expression, names(bound@))),
    decreases expression, 0int,
{
    let ghost b = names(bound@);
    match &expression.value {
        ExprKind::Variable(name) => {
            if !contains_name(bound, &name.value) {
                insert_name(free, &name.value);
                proof {
                    assert(names(old(free)@).insert(name.value@) =~= names(old(free)@).union(
                        set![name.value@],
                    ));
                }
            } else {
                assert(names(old(free)@).union(Set::empty()) =~= names(old(free)@));
            }
        },
        ExprKind::Array(items) => free_all(items, bound, free),
        ExprKind::Tuple(items) => free_all(items, bound, free),
        ExprKind::InterpolatedString(parts) => free_parts(parts, bound, free),
        ExprKind::Dict(fields) => free_fields(fields, bound, free),
        ExprKind::Block(block) => {
            let mut inner = copy_names(bound);
            free_block(block, 0, &mut inner, free);
        },
        ExprKind::Unary { operand, .. } => free_expr(operand, bound, free),
        ExprKind::Binary { left, right, .. } => {
            free_expr(left, bound, free);
            free_expr(right, bound, free);
            proof {
                assert(names(free@) =~= names(old(free)@).union(free_in(*expression, b)));
            }
        },
        ExprKind::Field { receiver, .. } => free_expr(receiver, bound, free),
        ExprKind::Call { callee, arguments } => {
            free_expr(callee, bound, free);
            free_all(arguments, bound, free);
            proof {
                assert(names(free@) =~= names(old(free)@).union(free_in(*expression, b)));
            }
        },
        ExprKind::Closure { parameters, body } => {
            let mut closure_bound: Vec<String> = Vec::new();
            let mut i: usize = 0;
            proof {
                assert(names(closure_bound@) =~= identifier_names(parameters@.take(0)));
            }
            while i < parameters.len()
                invariant
                    i <= parameters@.len(),
                    names(closure_bound@) == identifier_names(parameters@.take(i as int)),
                decreases parameters@.len() - i,
            {
                insert_name(&mut closure_bound, &parameters[i].value);
                proof {
                    lemma_identifier_names_push(parameters@, i as int);
                }
                i = i + 1;
            }
            proof {
                assert(parameters@.take(i as int) =~= parameters@);
            }
            let mut closure_free: Vec<String> = Vec::new();
            proof {
                assert(names(closure_free@) =~= Set::<Seq<char>>::empty());
                assert(Set::<Seq<char>>::empty().union(free_in_block(*body, 0, identifier_names(parameters@)))
                    =~= free_in_block(*body, 0, identifier_names(parameters@)));
            }
            free_block(body, 0, &mut closure_bound, &mut closure_free);
            let ghost inner = names(closure_free@);
            let mut j: usize = 0;
            proof {
                assert(names(closure_free@.take(0)) =~= Set::<Seq<char>>::empty());
                assert(names(free@) =~= names(old(free)@).union(names(closure_free@.take(0)).difference(b)));
            }
            while j < closure_free.len()
                invariant
                    j <= closure_free@.len(),
                    inner == names(closure_free@),
                    b == names(bound@),
                    names(free@) == names(old(free)@).union(names(closure_free@.take(j as int)).difference(b)),
                decreases closure_free@.len() - j,
            {
                let ghost before = names(free@);
                if !contains_name(bound, &closure_free[j]) {
                    insert_name(free, &closure_free[j]);
                }
                proof {
                    assert(closure_free@.take(j + 1) =~= closure_free@.take(j as int).push(closure_free@[j as int]));
                    lemma_names_push(closure_free@.take(j as int), closure_free@[j as int]);
                    assert(names(free@) =~= names(old(free)@).union(names(closure_free@.take(j + 1)).difference(b)));
                }
                j = j + 1;
            }
            proof {
                assert(closure_free@.take(j as int) =~= closure_free@);
                assert(names(free@) =~= names(old(free)@).union(free_in(*expression, b)));
            }
        },
        ExprKind::If { condition, then_branch, else_branch } => {
            free_expr(condition, bound, free);
            let mut then_bound = copy_names(bound);
            free_block(then_branch, 0, &mut then_bound, free);
            let mut else_bound = copy_names(bound);
            free_block(else_branch, 0, &mut else_bound, free);
            proof {
                assert(names(free@) =~= names(old(free)@).union(free_in(*expression, b)));
            }
        },
        ExprKind::Match { value, arms } => {
            free_expr(value, bound, free);
            free_arms(arms, bound, free);
            proof {
                assert(names(free@) =~= names(old(free)@).union(free_in(*expression, b)));
            }
        },
        _ => {
            assert(names(old(free)@).union(Set::empty()) =~= names(old(free)@));
        },
    }
}

/// Adds to `free` the free variables of `block` from its `k`-th binding
/// on, and to `bound` the names of those bindings.
pub fn free_block(block: &Block, k: usize, bound: &mut Vec<String>, free: &mut Vec<String>)
    ensures
        names(final(free)@) == names(old(free)@).union(free_in_block(*block, k as int, names(old(bound)@))),
    decreases block, block.value.bindings@.len() - k,
{
    if k >= block.value.bindings.len() {
        free_expr(&block.value.result, bound, free);
    } else {
        let binding = &block.value.bindings[k].value;
        free_expr(&binding.value, bound, free);
        let ghost before = names(bound@);
        insert_name(bound, &binding.name.value);
        free_block(block, k + 1, bound, free);
        proof {
            assert(names(free@) =~= names(old(free)@).union(free_in_block(*block, k as int, before)));
        }
    }
}

fn free_all(items: &Vec<Expr>, bound: &Vec<String>, free: &mut Vec<String>)
    ensures
        names(final(free)@) == names(old(free)@).union(free_in_all(items@, names(bound@))),
    decreases items, 0int,
{
    let ghost b = names(bound@);
    let mut i: usize = 0;
    proof {
        assert(items@.subrange(0, items@.len() as int) =~= items@);
    }
    while i < items.len()
        invariant
            i <= items@.len(),
            b == names(bound@),
            names(old(free)@).union(free_in_all(items@, b)) == names(free@).union(
                free_in_all(items@.subrange(i as int, items@.len() as int), b),
            ),
        decreases items@.len() - i,
    {
        let ghost rest = items@.subrange(i as int, items@.len() as int);
        let ghost before = names(free@);
        proof {
            assert(rest[0] == items@[i as int]);
            assert(rest.subrange(1, rest.len() as int) =~= items@.subrange(i + 1, items@.len() as int));
        }
        free_expr(&items[i], bound, free);
        proof {
            assert(before.union(free_in_all(rest, b)) =~= names(free@).union(
                free_in_all(items@.subrange(i + 1, items@.len() as int), b),
            ));
        }
        i = i + 1;
    }
    proof {
        assert(items@.subrange(i as int, items@.len() as int) =~= Seq::<Expr>::empty());
        assert(names(free@).union(Set::empty()) =~= names(free@));
    }
}

fn free_parts(parts: &Vec<StringPart>, bound: &Vec<String>, free: &mut Vec<String>)
    ensures
        names(final(free)@) == names(old(free)@).union(free_in_parts(parts@, names(bound@))),
    decreases parts, 0int,
{
    let ghost b = names(bound@);
    let mut i: usize = 0;
    proof {
        assert(parts@.subrange(0, parts@.len() as int) =~= parts@);
    }
    while i < parts.len()
        invariant
            i <= parts@.len(),
            b == names(bound@),
            names(old(free)@).union(free_in_parts(parts@, b)) == names(free@).union(
                free_in_parts(parts@.subrange(i as int, parts@.len() as int), b),
            ),
        decreases parts@.len() - i,
    {
        let ghost rest = parts@.subrange(i as int, parts@.len() as int);
        let ghost before = names(free@);
        proof {
            assert(rest[0] == parts@[i as int]);
            assert(rest.subrange(1, rest.len() as int) =~= parts@.subrange(i + 1, parts@.len() as int));
        }
        match &parts[i].value {
            StringPartKind::Text(_) => {
                assert(before.union(free_in_parts(rest, b)) =~= names(free@).union(
                    free_in_parts(parts@.subrange(i + 1, parts@.len() as int), b),
                ));
            },
            StringPartKind::Expression(e) => {
                free_expr(e, bound, free);
                proof {
                    assert(before.union(free_in_parts(rest, b)) =~= names(free@).union(
                        free_in_parts(parts@.subrange(i + 1, parts@.len() as int), b),
                    ));
                }
            },
        }
        i = i + 1;
    }
    proof {
        assert(parts@.subrange(i as int, parts@.len() as int) =~= Seq::<StringPart>::empty());
        assert(names(free@).union(Set::empty()) =~= names(free@));
    }
}

fn free_fields(fields: &Vec<DictField>, bound: &Vec<String>, free: &mut Vec<String>)
    ensures
        names(final(free)@) == names(old(free)@).union(free_in_fields(fields@, names(bound@))),
    decreases fields, 0int,
{
    let ghost b = names(bound@);
    let mut i: usize = 0;
    proof {
        assert(fields@.subrange(0, fields@.len() as int) =~= fields@);
    }
    while i < fields.len()
        invariant
            i <= fields@.len(),
            b == names(bound@),
            names(old(free)@).union(free_in_fields(fields@, b)) == names(free@).union(
                free_in_fields(fields@.subrange(i as int, fields@.len() as int), b),
            ),
        decreases fields@.len() - i,
    {
        let ghost rest = fields@.subrange(i as int, fields@.len() as int);
        let ghost before = names(free@);
        proof {
            assert(rest[0] == fields@[i as int]);
            assert(rest.subrange(1, rest.len() as int) =~= fields@.subrange(i + 1, fields@.len() as int));
        }
        free_expr(&fields[i].value.value, bound, free);
        proof {
            assert(before.union(free_in_fields(rest, b)) =~= names(free@).union(
                free_in_fields(fields@.subrange(i + 1, fields@.len() as int), b),
            ));
        }
        i = i + 1;
    }
    proof {
        assert(fields@.subrange(i as int, fields@.len() as int) =~= Seq::<DictField>::empty());
        assert(names(free@).union(Set::empty()) =~= names(free@));
    }
}

fn free_arms(arms: &Vec<MatchArm>, bound: &Vec<String>, free: &mut Vec<String>)
    ensures
        names(final(free)@) == names(old(free)@).union(free_in_arms(arms@, names(bound@))),
    decreases arms, 0int,
{
    let ghost b = names(bound@);
    let mut i: usize = 0;
    proof {
        assert(arms@.subrange(0, arms@.len() as int) =~= arms@);
    }
    while i < arms.len()
        invariant
            i <= arms@.len(),
            b == names(bound@),
            names(old(free)@).union(free_in_arms(arms@, b)) == names(free@).union(
                free_in_arms(arms@.subrange(i as int, arms@.len() as int), b),
            ),
        decreases arms@.len() - i,
    {
        let ghost rest = arms@.subrange(i as int, arms@.len() as int);
        let ghost before = names(free@);
        proof {
            assert(rest[0] == arms@[i as int]);
            assert(rest.subrange(1, rest.len() as int) =~= arms@.subrange(i + 1, arms@.len() as int));
        }
        let mut arm_bound = copy_names(bound);
        bind_pattern(&arms[i].value.pattern, &mut arm_bound);
        free_expr(&arms[i].value.value, &arm_bound, free);
        proof {
            assert(before.union(free_in_arms(rest, b)) =~= names(free@).union(
                free_in_arms(arms@.subrange(i + 1, arms@.len() as int), b),
            ));
        }
        i = i + 1;
    }
    proof {
        assert(arms@.subrange(i as int, arms@.len() as int) =~= Seq::<MatchArm>::empty());
        assert(names(free@).union(Set::empty()) =~= names(free@));
    }
}

// ---------------------------------------------------------------------------
// Names read at run time.

/// Every variable that `e` reads when it runs, bound or not: those of the
/// `let` bindings and the result of each block, and of every
/// subexpression; match arms contribute their values.
pub open spec fn runtime_names(e: Expr) -> Set<Seq<char>>
    decreases e, 0int,
{
    match e.value {
        ExprKind::Variable(n) => set![n.value@],
        ExprKind::Array(items) => runtime_names_all(items@),
        ExprKind::Tuple(items) => runtime_names_all(items@),
        ExprKind::InterpolatedString(parts) => runtime_names_parts(parts@),
        ExprKind::Dict(fields) => runtime_names_fields(fields@),
        ExprKind::Block(b) => runtime_names_block(b, 0),
        ExprKind::Unary { operand, .. } => runtime_names(*operand),
        ExprKind::Binary { left, right, .. } => runtime_names(*left).union(runtime_names(*right)),
        ExprKind::Field { receiver, .. } => runtime_names(*receiver),
        ExprKind::Call { callee, arguments } => runtime_names(*callee).union(
            runtime_names_all(arguments@),
        ),
        ExprKind::Closure { body, .. } => runtime_names_block(body, 0),
        ExprKind::If { condition, then_branch, else_branch } => runtime_names(*condition).union(
            runtime_names_block(then_branch, 0),
        ).union(runtime_names_block(else_branch, 0)),
        ExprKind::Match { value, arms } => runtime_names(*value).union(runtime_names_arms(arms@)),
        _ => Set::empty(),
    }
}

/// The names that block `b` reads from its `k`-th binding on: the values
/// of its `let` bindings, then its result.
pub open spec fn runtime_names_block(b: Block, k: int) -> Set<Seq<char>>
    decreases b, b.value.bindings@.len() - k,
{
    if k < 0 || k >= b.value.bindings@.len() {
        runtime_names(*b.value.result)
    } else {
        let binding = b.value.bindings@[k].value;
        let own = if binding.kind == BindingKind::Let {
            runtime_names(binding.value)
        } else {
            Set::empty()
        };
        own.union(runtime_names_block(b, k + 1))
    }
}

pub open spec fn runtime_names_all(items: Seq<Expr>) -> Set<Seq<char>>
    decreases items, 0int,
{
    if items.len() == 0 {
        Set::empty()
    } else {
        runtime_names(items[0]).union(runtime_names_all(items.subrange(1, items.len() as int)))
    }
}

pub open spec fn runtime_names_parts(parts: Seq<StringPart>) -> Set<Seq<char>>
    decreases parts, 0int,
{
    if parts.len() == 0 {
        Set::empty()
    } else {
        let own = match parts[0].value {
            StringPartKind::Text(_) => Set::empty(),
            StringPartKind::Expression(e) => runtime_names(e),
        };
        own.union(runtime_names_parts(parts.subrange(1, parts.len() as int)))
    }
}

pub open spec fn runtime_names_fields(fields: Seq<DictField>) -> Set<Seq<char>>
    decreases fields, 0int,
{
    if fields.len() == 0 {
        Set::empty()
    } else {
        runtime_names(fields[0].value.value).union(
            runtime_names_fields(fields.subrange(1, fields.len() as int)),
        )
    }
}

pub open spec fn runtime_names_arms(arms: Seq<MatchArm>) -> Set<Seq<char>>
    decreases arms, 0int,
{
    if arms.len() == 0 {
        Set::empty()
    } else {
        runtime_names(arms[0].value.value).union(
            runtime_names_arms(arms.subrange(1, arms.len() as int)),
        )
    }
}

/// Adds to `names_out` every name that `expression` reads at run time, as
/// [`runtime_names`] says.
pub fn collect_runtime_names(expression: &Expr, names_out: &mut Vec<String>)
    ensures
        names(final(names_out)@) == names(old(names_out)@).union(runtime_names(*expression)),
    decreases expression, 0int,
{
    match &expression.value {
        ExprKind::Variable(name) => {
            insert_name(names_out, &name.value);
            proof {
                assert(names(old(names_out)@).insert(name.value@) =~= names(old(names_out)@).union(
                    set![name.value@],
                ));
            }
        },
        ExprKind::Array(items) => collect_all(items, names_out),
        ExprKind::Tuple(items) => collect_all(items, names_out),
        ExprKind::InterpolatedString(parts) => collect_parts(parts, names_out),
        ExprKind::Dict(fields) => collect_fields(fields, names_out),
        ExprKind::Block(block) => collect_runtime_names_block(block, 0, names_out),
        ExprKind::Unary { operand, .. } => collect_runtime_names(operand, names_out),
        ExprKind::Binary { left, right, .. } => {
            collect_runtime_names(left, names_out);
            collect_runtime_names(right, names_out);
            proof {
                assert(names(names_out@) =~= names(old(names_out)@).union(runtime_names(*expression)));
            }
        },
        ExprKind::Field { receiver, .. } => collect_runtime_names(receiver, names_out),
        ExprKind::Call { callee, arguments } => {
            collect_runtime_names(callee, names_out);
            collect_all(arguments, names_out);
            proof {
                assert(names(names_out@) =~= names(old(names_out)@).union(runtime_names(*expression)));
            }
        },
        ExprKind::Closure { body, .. } => collect_runtime_names_block(body, 0, names_out),
        ExprKind::If { condition, then_branch, else_branch } => {
            collect_runtime_names(condition, names_out);
            collect_runtime_names_block(then_branch, 0, names_out);
            collect_runtime_names_block(else_branch, 0, names_out);
            proof {
                assert(names(names_out@) =~= names(old(names_out)@).union(runtime_names(*expression)));
            }
        },
        ExprKind::Match { value, arms } => {
            collect_runtime_names(value, names_out);
            collect_arms(arms, names_out);
            proof {
                assert(names(names_out@) =~= names(old(names_out)@).union(runtime_names(*expression)));
            }
        },
        _ => {
            assert(names(old(names_out)@).union(Set::empty()) =~= names(old(names_out)@));
        },
    }
}

/// Adds to `names_out` the names that `block` reads from its `k`-th
/// binding on.
pub fn collect_runtime_names_block(block: &Block, k: usize, names_out: &mut Vec<String>)
    ensures
        names(final(names_out)@) == names(old(names_out)@).union(runtime_names_block(*block, k as int)),
    decreases block, block.value.bindings@.len() - k,
{
    if k >= block.value.bindings.len() {
        collect_runtime_names(&block.value.result, names_out);
    } else {
        let binding = &block.value.bindings[k].value;
        if binding.kind == BindingKind::Let {
            collect_runtime_names(&binding.value, names_out);
        }
        collect_runtime_names_block(block, k + 1, names_out);
        proof {
            assert(names(names_out@) =~= names(old(names_out)@).union(runtime_names_block(*block, k as int)));
        }
    }
}

fn collect_all(items: &Vec<Expr>, names_out: &mut Vec<String>)
    ensures
        names(final(names_out)@) == names(old(names_out)@).union(runtime_names_all(items@)),
    decreases items, 0int,
{
    let mut i: usize = 0;
    proof {
        assert(items@.subrange(0, items@.len() as int) =~= items@);
    }
    while i < items.len()
        invariant
            i <= items@.len(),
            names(old(names_out)@).union(runtime_names_all(items@)) == names(names_out@).union(
                runtime_names_all(items@.subrange(i as int, items@.len() as int)),
            ),
        decreases items@.len() - i,
    {
        let ghost rest = items@.subrange(i as int, items@.len() as int);
        let ghost before = names(names_out@);
        proof {
            assert(rest[0] == items@[i as int]);
            assert(rest.subrange(1, rest.len() as int) =~= items@.subrange(i + 1, items@.len() as int));
        }
        collect_runtime_names(&items[i], names_out);
        proof {
            assert(before.union(runtime_names_all(rest)) =~= names(names_out@).union(
                runtime_names_all(items@.subrange(i + 1, items@.len() as int)),
            ));
        }
        i = i + 1;
    }
    proof {
        assert(items@.subrange(i as int, items@.len() as int) =~= Seq::<Expr>::empty());
        assert(names(names_out@).union(Set::empty()) =~= names(names_out@));
    }
}

fn collect_parts(parts: &Vec<StringPart>, names_out: &mut Vec<String>)
    ensures
        names(final(names_out)@) == names(old(names_out)@).union(runtime_names_parts(parts@)),
    decreases parts, 0int,
{
    let mut i: usize = 0;
    proof {
        assert(parts@.subrange(0, parts@.len() as int) =~= parts@);
    }
    while i < parts.len()
        invariant
            i <= parts@.len(),
            names(old(names_out)@).union(runtime_names_parts(parts@)) == names(names_out@).union(
                runtime_names_parts(parts@.subrange(i as int, parts@.len() as int)),
            ),
        decreases parts@.len() - i,
    {
        let ghost rest = parts@.subrange(i as int, parts@.len() as int);
        let ghost before = names(names_out@);
        proof {
            assert(rest[0] == parts@[i as int]);
            assert(rest.subrange(1, rest.len() as int) =~= parts@.subrange(i + 1, parts@.len() as int));
        }
        match &parts[i].value {
            StringPartKind::Text(_) => {
                assert(before.union(runtime_names_parts(rest)) =~= names(names_out@).union(
                    runtime_names_parts(parts@.subrange(i + 1, parts@.len() as int)),
                ));
            },
            StringPartKind::Expression(e) => {
                collect_runtime_names(e, names_out);
                proof {
                    assert(before.union(runtime_names_parts(rest)) =~= names(names_out@).union(
                        runtime_names_parts(parts@.subrange(i + 1, parts@.len() as int)),
                    ));
                }
            },
        }
        i = i + 1;
    }
    proof {
        assert(parts@.subrange(i as int, parts@.len() as int) =~= Seq::<StringPart>::empty());
        assert(names(names_out@).union(Set::empty()) =~= names(names_out@));
    }
}

fn collect_fields(fields: &Vec<DictField>, names_out: &mut Vec<String>)
    ensures
        names(final(names_out)@) == names(old(names_out)@).union(runtime_names_fields(fields@)),
    decreases fields, 0int,
{
    let mut i: usize = 0;
    proof {
        assert(fields@.subrange(0, fields@.len() as int) =~= fields@);
    }
    while i < fields.len()
        invariant
            i <= fields@.len(),
            names(old(names_out)@).union(runtime_names_fields(fields@)) == names(names_out@).union(
                runtime_names_fields(fields@.subrange(i as int, fields@.len() as int)),
            ),
        decreases fields@.len() - i,
    {
        let ghost rest = fields@.subrange(i as int, fields@.len() as int);
        let ghost before = names(names_out@);
        proof {
            assert(rest[0] == fields@[i as int]);
            assert(rest.subrange(1, rest.len() as int) =~= fields@.subrange(i + 1, fields@.len() as int));
        }
        collect_runtime_names(&fields[i].value.value, names_out);
        proof {
            assert(before.union(runtime_names_fields(rest)) =~= names(names_out@).union(
                runtime_names_fields(fields@.subrange(i + 1, fields@.len() as int)),
            ));
        }
        i = i + 1;
    }
    proof {
        assert(fields@.subrange(i as int, fields@.len() as int) =~= Seq::<DictField>::empty());
        assert(names(names_out@).union(Set::empty()) =~= names(names_out@));
    }
}

fn collect_arms(arms: &Vec<MatchArm>, names_out: &mut Vec<String>)
    ensures
        names(final(names_out)@) == names(old(names_out)@).union(runtime_names_arms(arms@)),
    decreases arms, 0int,
{
    let mut i: usize = 0;
    proof {
        assert(arms@.subrange(0, arms@.len() as int) =~= arms@);
    }
    while i < arms.len()
        invariant
            i <= arms@.len(),
            names(old(names_out)@).union(runtime_names_arms(arms@)) == names(names_out@).union(
                runtime_names_arms(arms@.subrange(i as int, arms@.len() as int)),
            ),
        decreases arms@.len() - i,
    {
        let ghost rest = arms@.subrange(i as int, arms@.len() as int);
        let ghost before = names(names_out@);
        proof {
            assert(rest[0] == arms@[i as int]);
            assert(rest.subrange(1, rest.len() as int) =~= arms@.subrange(i + 1, arms@.len() as int));
        }
        collect_runtime_names(&arms[i].value.value, names_out);
        proof {
            assert(before.union(runtime_names_arms(rest)) =~= names(names_out@).union(
                runtime_names_arms(arms@.subrange(i + 1, arms@.len() as int)),
            ));
        }
        i = i + 1;
    }
    proof {
        assert(arms@.subrange(i as int, arms@.len() as int) =~= Seq::<MatchArm>::empty());
        assert(names(names_out@).union(Set::empty()) =~= names(names_out@));
    }
}

} // verus!

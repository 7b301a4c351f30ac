//! What the complexity of a function is, counted over the nodes that it encloses.

use super::complexity::{
    chained_operator, cognitive_before, cognitive_gain, cyclomatic_before, deepest_before,
    is_else_if, is_logical, logical_operator, nesting_at, nesting_inside, owner,
};
use super::engine::{describes, describes_all, functions_before, functions_of};
use super::laws::{encloses, lemma_owner_is_innermost};
use super::shape::{
    is_first_child, is_parent, lemma_first_child, lemma_is_parent, lemma_within_end,
    lemma_within_parent, within,
};
use super::tree::{children_of, first_where, is_preorder, lemma_parent, parent_of, NodeFacts};
use super::{CognitiveComplexity, Rules};
use crate::metrics::FunctionMetrics;
use vstd::prelude::*;

verus! {

/// Whether a node lies in a function, or is it, and in no function inside that one.
pub open spec fn owns(t: Seq<NodeFacts>, rules: Rules, f: int, i: int) -> bool {
    &&& within(t, f, i)
    &&& (rules.function)(t[f].kind)
    &&& forall|g: int| f < g && #[trigger] within(t, g, i) ==> !(rules.function)(t[g].kind)
}

/// Whether a node is an `if` that stands right behind an `else`.
pub open spec fn is_else_branch(t: Seq<NodeFacts>, i: int) -> bool {
    t[i].kind == "if_statement"@ && exists|p: int| #[trigger]
        is_parent(t, p, i) && t[p].kind == "else_clause"@
}

/// Whether a node makes what is inside it count more.
pub open spec fn deepens(t: Seq<NodeFacts>, rules: Rules, a: int) -> bool {
    (rules.cognitive)(t[a].kind) == CognitiveComplexity::Nesting && !is_else_branch(t, a)
}

/// The nodes of a function that a node lies in and that make it count more.
pub open spec fn nest_around(t: Seq<NodeFacts>, rules: Rules, f: int, i: int) -> Set<int> {
    Set::new(|a: int| f <= a < i && within(t, a, i) && deepens(t, rules, a))
}

/// Whether a node counts by itself and for every node around it that makes it count
/// more.
pub open spec fn counts_by_depth(t: Seq<NodeFacts>, rules: Rules, i: int) -> bool {
    let c = (rules.cognitive)(t[i].kind);
    (c == CognitiveComplexity::Nesting || c == CognitiveComplexity::Structure) && !is_else_branch(
        t,
        i,
    )
}

/// Whether a node is the first child of another that is a logical operator.
pub open spec fn is_first_operator(t: Seq<NodeFacts>, i: int, c: int) -> bool {
    &&& is_parent(t, i, c)
    &&& t[c].kind == "&&"@ || t[c].kind == "||"@
    &&& forall|d: int| #[trigger]
        is_parent(t, i, d) && d < c ==> t[d].kind != "&&"@ && t[d].kind != "||"@
}

/// Whether a logical operator is the first among the children of a node.
pub open spec fn says_operator(t: Seq<NodeFacts>, i: int, op: Seq<char>) -> bool {
    exists|c: int| #[trigger] is_first_operator(t, i, c) && t[c].kind == op
}

/// Whether a node begins a chain of one logical operator: it has an operator, and does
/// not lie right in a logical expression of the same operator.
pub open spec fn begins_chain(t: Seq<NodeFacts>, rules: Rules, f: int, i: int) -> bool {
    exists|op: Seq<char>| #[trigger]
        says_operator(t, i, op) && !exists|p: int| #[trigger]
            is_parent(t, p, i) && f <= p && (rules.cognitive)(t[p].kind)
                == CognitiveComplexity::Logical && says_operator(t, p, op)
}

/// Whether a node counts by itself.
pub open spec fn counts_once(t: Seq<NodeFacts>, rules: Rules, f: int, i: int) -> bool {
    match (rules.cognitive)(t[i].kind) {
        CognitiveComplexity::Nothing => false,
        CognitiveComplexity::Logical => begins_chain(t, rules, f, i),
        _ => true,
    }
}

/// The points that make up the cognitive complexity of a function: one for every node
/// that counts, and one more for it and each node of the function around it that makes
/// it count more.
pub open spec fn points(t: Seq<NodeFacts>, rules: Rules, f: int) -> Set<(int, int)> {
    Set::new(
        |p: (int, int)|
            owns(t, rules, f, p.0) && ((p.1 == p.0 && counts_once(t, rules, f, p.0)) || (
            counts_by_depth(t, rules, p.0) && nest_around(t, rules, f, p.0).contains(p.1))),
    )
}

/// The nodes of a function that open another path through it.
pub open spec fn forks(t: Seq<NodeFacts>, rules: Rules, f: int) -> Set<int> {
    Set::new(|i: int| i != f && owns(t, rules, f, i) && (rules.increment)(t[i].kind))
}

/// The nodes of a function that make what is inside them count more, and that a node is
/// or lies in.
pub open spec fn nest_inside(t: Seq<NodeFacts>, rules: Rules, f: int, i: int) -> Set<int> {
    Set::new(|a: int| f <= a <= i && within(t, a, i) && deepens(t, rules, a))
}

/// The innermost function around a node owns it, and no other does.
pub proof fn lemma_owns(t: Seq<NodeFacts>, rules: Rules, f: int, i: int)
    requires
        is_preorder(t),
        0 <= i < t.len(),
    ensures
        owns(t, rules, f, i) <==> f >= 0 && owner(t, rules, i) == f,
{
    lemma_owner_is_innermost(t, rules, i);
    let o = owner(t, rules, i);
    if f >= 0 && o == f {
        lemma_within_end(t, f, i);
        assert forall|g: int| f < g && #[trigger] within(t, g, i) implies !(rules.function)(
            t[g].kind,
        ) by {
            lemma_within_end(t, g, i);
            assert(encloses(t, g, i));
        }
    }
    if owns(t, rules, f, i) {
        lemma_within_end(t, f, i);
        assert(encloses(t, f, i));
        assert(f <= o);
        lemma_within_end(t, o, i);
        if f < o {
            assert(within(t, o, i));
        }
    }
}

proof fn lemma_else_branch(t: Seq<NodeFacts>, i: int)
    requires
        is_preorder(t),
        0 <= i < t.len(),
    ensures
        is_else_branch(t, i) <==> is_else_if(t, i),
{
    let p = parent_of(t, i);
    lemma_parent(t, i);
    lemma_is_parent(t, p, i);
    if is_else_branch(t, i) {
        let q = choose|q: int| #[trigger] is_parent(t, q, i) && t[q].kind == "else_clause"@;
        lemma_is_parent(t, q, i);
    }
}

proof fn lemma_operator(t: Seq<NodeFacts>, i: int, op: Seq<char>)
    requires
        is_preorder(t),
        0 <= i < t.len(),
    ensures
        says_operator(t, i, op) <==> logical_operator(t, i) == Some(op),
{
    let wanted = |n: NodeFacts| is_logical(n);
    lemma_first_child(t, i, wanted);
    assert forall|c: int| #[trigger] is_first_operator(t, i, c) <==> is_first_child(
        t,
        i,
        c,
        wanted,
    ) by {}
    if logical_operator(t, i) == Some(op) {
        let c = first_where(t, children_of(t, i), wanted)->0;
        assert(is_first_child(t, i, c, wanted));
        assert(is_first_operator(t, i, c));
    }
    if says_operator(t, i, op) {
        let c = choose|c: int| #[trigger] is_first_operator(t, i, c) && t[c].kind == op;
        assert(is_first_child(t, i, c, wanted));
    }
}

/// The depth at which a node counts is the number of nodes of its function around it
/// that make it count more.
pub proof fn lemma_depth_is_counted(t: Seq<NodeFacts>, rules: Rules, f: int, i: int)
    requires
        is_preorder(t),
        0 <= f,
        0 <= i < t.len(),
        owns(t, rules, f, i),
    ensures
        nest_around(t, rules, f, i).finite(),
        nest_around(t, rules, f, i).len() == nesting_at(t, rules, i),
        nest_inside(t, rules, f, i).finite(),
        nest_inside(t, rules, f, i).len() == nesting_inside(t, rules, i),
    decreases i,
{
    lemma_owns(t, rules, f, i);
    lemma_parent(t, i);
    lemma_else_branch(t, i);
    let p = parent_of(t, i);
    let s = nest_around(t, rules, f, i);
    if (rules.function)(t[i].kind) || i == 0 {
        assert(f == i);
        assert(s =~= Set::empty());
    } else {
        assert(f < i);
        lemma_owns(t, rules, f, p);
        lemma_depth_is_counted(t, rules, f, p);
        let r = nest_around(t, rules, f, p);
        lemma_else_branch(t, p);
        assert forall|a: int| s.contains(a) <==> r.contains(a) || (a == p && deepens(t, rules, p)) by {
            lemma_within_parent(t, a, i);
            if s.contains(a) {
                assert(within(t, a, p));
            }
            if a == p {
                assert(within(t, p, p));
                assert(within(t, f, i));
                lemma_within_parent(t, f, i);
                assert(f <= p);
            }
        }
        if deepens(t, rules, p) {
            assert(s =~= r.insert(p));
            assert(!r.contains(p));
        } else {
            assert(s =~= r);
        }
    }
    let inside = nest_inside(t, rules, f, i);
    assert(within(t, i, i));
    if deepens(t, rules, i) {
        assert(inside =~= s.insert(i));
        assert(!s.contains(i));
    } else {
        assert(inside =~= s);
    }
}

/// The points of one node of a function.
spec fn points_at(t: Seq<NodeFacts>, rules: Rules, f: int, i: int) -> Set<(int, int)> {
    Set::new(
        |p: (int, int)|
            p.0 == i && ((p.1 == i && counts_once(t, rules, f, i)) || (counts_by_depth(t, rules, i)
                && nest_around(t, rules, f, i).contains(p.1))),
    )
}

proof fn lemma_points_at(t: Seq<NodeFacts>, rules: Rules, f: int, i: int)
    requires
        is_preorder(t),
        0 <= f,
        0 <= i < t.len(),
        owns(t, rules, f, i),
        (rules.cognitive)(t[f].kind) == CognitiveComplexity::Nothing,
    ensures
        points_at(t, rules, f, i).finite(),
        points_at(t, rules, f, i).len() == cognitive_gain(t, rules, i),
{
    lemma_owns(t, rules, f, i);
    lemma_depth_is_counted(t, rules, f, i);
    lemma_else_branch(t, i);
    lemma_parent(t, i);
    let p = parent_of(t, i);
    let around = nest_around(t, rules, f, i);
    let all = points_at(t, rules, f, i);
    let by_depth = around.map(|a: int| (i, a));
    let none = Set::<(int, int)>::empty();
    if counts_by_depth(t, rules, i) {
        vstd::set_lib::lemma_map_size(around, by_depth, |a: int| (i, a));
        assert forall|q: (int, int)| all.contains(q) <==> by_depth.insert((i, i)).contains(q) by {
            if all.contains(q) && q.1 != i {
                assert(around.contains(q.1) && q == (i, q.1));
            }
        }
        assert(all =~= by_depth.insert((i, i)));
        assert(!by_depth.contains((i, i)));
    } else if (rules.cognitive)(t[i].kind) == CognitiveComplexity::Logical {
        assert(i != f);
        lemma_is_parent(t, p, i);
        lemma_owns(t, rules, f, p);
        let op = logical_operator(t, i);
        assert(begins_chain(t, rules, f, i) <==> op is Some && op != chained_operator(
            t,
            rules,
            p,
        )) by {
            if begins_chain(t, rules, f, i) {
                let o = choose|o: Seq<char>| #[trigger]
                    says_operator(t, i, o) && !exists|p: int| #[trigger]
                        is_parent(t, p, i) && f <= p && (rules.cognitive)(t[p].kind)
                            == CognitiveComplexity::Logical && says_operator(t, p, o);
                lemma_operator(t, i, o);
                lemma_operator(t, p, o);
                assert(is_parent(t, p, i));
            }
            if op is Some && op != chained_operator(t, rules, p) {
                let o = op->0;
                lemma_operator(t, i, o);
                assert forall|q: int| #[trigger] is_parent(t, q, i) && f <= q && (rules.cognitive)(
                    t[q].kind,
                ) == CognitiveComplexity::Logical implies !says_operator(t, q, o) by {
                    lemma_is_parent(t, q, i);
                    lemma_operator(t, q, o);
                }
                assert(says_operator(t, i, o));
            }
        }
        if begins_chain(t, rules, f, i) {
            assert(all =~= none.insert((i, i)));
        } else {
            assert(all =~= none);
        }
    } else if (rules.cognitive)(t[i].kind) == CognitiveComplexity::Nothing {
        assert(all =~= none);
    } else {
        assert(all =~= none.insert((i, i)));
    }
}

spec fn points_before(t: Seq<NodeFacts>, rules: Rules, f: int, n: int) -> Set<(int, int)> {
    Set::new(|p: (int, int)| p.0 < n && points(t, rules, f).contains(p))
}

proof fn lemma_points_before(t: Seq<NodeFacts>, rules: Rules, f: int, n: int)
    requires
        is_preorder(t),
        0 <= f,
        0 <= n <= t.len(),
        f < t.len(),
        (rules.cognitive)(t[f].kind) == CognitiveComplexity::Nothing,
    ensures
        points_before(t, rules, f, n).finite(),
        points_before(t, rules, f, n).len() == cognitive_before(t, rules, f, n),
    decreases n,
{
    let all = points_before(t, rules, f, n);
    if n <= f || n <= 0 {
        assert(all =~= Set::empty());
    } else {
        lemma_points_before(t, rules, f, n - 1);
        lemma_owns(t, rules, f, n - 1);
        let before = points_before(t, rules, f, n - 1);
        if owns(t, rules, f, n - 1) {
            lemma_points_at(t, rules, f, n - 1);
            let here = points_at(t, rules, f, n - 1);
            assert(all =~= before + here);
            vstd::set_lib::lemma_set_disjoint_lens(before, here);
        } else {
            assert(all =~= before);
        }
    }
}

proof fn lemma_forks_before(t: Seq<NodeFacts>, rules: Rules, f: int, n: int)
    requires
        is_preorder(t),
        0 <= f < t.len(),
        0 <= n <= t.len(),
        (rules.function)(t[f].kind),
    ensures
        forks(t, rules, f).filter(|i: int| i < n).finite(),
        forks(t, rules, f).filter(|i: int| i < n).len() == cyclomatic_before(t, rules, f, n),
    decreases n,
{
    let all = forks(t, rules, f).filter(|i: int| i < n);
    if n <= f || n <= 0 {
        assert(all =~= Set::empty());
    } else {
        lemma_forks_before(t, rules, f, n - 1);
        lemma_owns(t, rules, f, n - 1);
        let before = forks(t, rules, f).filter(|i: int| i < n - 1);
        if forks(t, rules, f).contains(n - 1) {
            assert((rules.function)(t[n - 1].kind) ==> owner(t, rules, n - 1) == n - 1);
            assert(all =~= before.insert(n - 1));
            assert(!before.contains(n - 1));
        } else {
            assert(all =~= before);
        }
    }
}

proof fn lemma_deepest_before(t: Seq<NodeFacts>, rules: Rules, f: int, n: int)
    requires
        is_preorder(t),
        0 <= f < n <= t.len(),
        owns(t, rules, f, f),
    ensures
        forall|i: int|
            i < n && #[trigger] owns(t, rules, f, i) ==> nest_inside(t, rules, f, i).len()
                <= deepest_before(t, rules, f, n),
        exists|i: int|
            i < n && #[trigger] owns(t, rules, f, i) && nest_inside(t, rules, f, i).len()
                == deepest_before(t, rules, f, n),
    decreases n,
{
    let i = n - 1;
    lemma_owns(t, rules, f, i);
    if owns(t, rules, f, i) {
        lemma_depth_is_counted(t, rules, f, i);
    }
    let d = deepest_before(t, rules, f, n);
    let e = deepest_before(t, rules, f, n - 1);
    if n - 1 > f {
        lemma_deepest_before(t, rules, f, n - 1);
        let k = choose|k: int|
            k < n - 1 && #[trigger] owns(t, rules, f, k) && nest_inside(t, rules, f, k).len() == e;
        if d == e {
            assert(owns(t, rules, f, k));
        } else {
            assert(owns(t, rules, f, i));
        }
    } else {
        assert(e == 0);
        assert forall|k: int| k < n && #[trigger] owns(t, rules, f, k) implies k == f by {}
    }
}

/// The complexity of a function is counted over the nodes that it encloses, but not
/// over those of functions inside it, and whatever it lies in itself. Its cognitive
/// complexity is the number of its points. Its cyclomatic complexity is one more than
/// the number of its forks. Its nesting depth is the greatest number of its nodes,
/// one in the other, that make what is inside them count more. A function node must
/// not count itself, which holds in all languages.
pub proof fn lemma_complexity_is_counted(
    m: FunctionMetrics,
    t: Seq<NodeFacts>,
    rules: Rules,
    f: int,
    source: Seq<char>,
    file: Seq<char>,
)
    requires
        is_preorder(t),
        0 <= f < t.len(),
        (rules.function)(t[f].kind),
        (rules.cognitive)(t[f].kind) == CognitiveComplexity::Nothing,
        describes(m, t, rules, f, source, file),
    ensures
        points(t, rules, f).finite(),
        m.cognitive_complexity == points(t, rules, f).len(),
        forks(t, rules, f).finite(),
        m.cyclomatic_complexity == 1 + forks(t, rules, f).len(),
        forall|i: int| #[trigger]
            owns(t, rules, f, i) ==> nest_inside(t, rules, f, i).len() <= m.nesting_depth,
        exists|i: int| #[trigger]
            owns(t, rules, f, i) && nest_inside(t, rules, f, i).len() == m.nesting_depth,
{
    let n = t.len() as int;
    lemma_points_before(t, rules, f, n);
    assert(points_before(t, rules, f, n) =~= points(t, rules, f));
    lemma_forks_before(t, rules, f, n);
    assert(forks(t, rules, f).filter(|i: int| i < n) =~= forks(t, rules, f));
    assert(within(t, f, f));
    assert(owns(t, rules, f, f));
    lemma_deepest_before(t, rules, f, n);
    let k = choose|i: int|
        i < n && #[trigger] owns(t, rules, f, i) && nest_inside(t, rules, f, i).len()
            == deepest_before(t, rules, f, n);
    assert(owns(t, rules, f, k));
    assert forall|i: int| #[trigger] owns(t, rules, f, i) implies nest_inside(t, rules, f, i).len()
        <= m.nesting_depth by {
        assert(i < n);
    }
}

/// Whether two nodes, of two trees or of one, enclose the same: as many nodes, each of
/// the same kind and as deep below them.
pub open spec fn same_subtree(
    t: Seq<NodeFacts>,
    f: int,
    u: Seq<NodeFacts>,
    g: int,
    n: int,
) -> bool {
    &&& n > 0
    &&& within(t, f, f + n - 1)
    &&& !within(t, f, f + n)
    &&& within(u, g, g + n - 1)
    &&& !within(u, g, g + n)
    &&& forall|k: int|
        0 <= k < n ==> (#[trigger] t[f + k]).kind == u[g + k].kind && t[f + k].depth - t[f].depth
            == u[g + k].depth - u[g].depth
}

proof fn lemma_same_within(
    t: Seq<NodeFacts>,
    f: int,
    u: Seq<NodeFacts>,
    g: int,
    n: int,
    a: int,
    i: int,
)
    requires
        same_subtree(t, f, u, g, n),
        0 <= a,
        within(t, f + a, f + i),
        i < n,
    ensures
        within(u, g + a, g + i),
{
    assert(t[f + a].depth - t[f].depth == u[g + a].depth - u[g].depth);
    assert forall|k: int| g + a < k <= g + i implies (#[trigger] u[k]).depth > u[g + a].depth by {
        let j = k - g;
        assert(t[f + j].depth > t[f + a].depth);
        assert(t[f + j].depth - t[f].depth == u[g + j].depth - u[g].depth);
    }
}

proof fn lemma_turned_around(t: Seq<NodeFacts>, f: int, u: Seq<NodeFacts>, g: int, n: int)
    requires
        same_subtree(t, f, u, g, n),
    ensures
        same_subtree(u, g, t, f, n),
{
    assert forall|k: int| 0 <= k < n implies (#[trigger] u[g + k]).kind == t[f + k].kind && u[g
        + k].depth - u[g].depth == t[f + k].depth - t[f].depth by {
        assert(t[f + k].kind == u[g + k].kind);
    }
}

proof fn lemma_same_owned(
    t: Seq<NodeFacts>,
    f: int,
    u: Seq<NodeFacts>,
    g: int,
    n: int,
    rules: Rules,
    i: int,
)
    requires
        same_subtree(t, f, u, g, n),
        owns(t, rules, f, f + i),
    ensures
        0 <= i < n,
        owns(u, rules, g, g + i),
{
    assert(i >= 0);
    if i >= n {
        assert forall|k: int| f < k <= f + n implies (#[trigger] t[k]).depth > t[f].depth by {}
        assert(within(t, f, f + n));
    }
    lemma_turned_around(t, f, u, g, n);
    lemma_same_within(t, f, u, g, n, 0, i);
    assert(t[f + 0].kind == u[g + 0].kind);
    assert forall|h: int| g < h && #[trigger] within(u, h, g + i) implies !(rules.function)(
        u[h].kind,
    ) by {
        let k = h - g;
        lemma_same_within(u, g, t, f, n, k, i);
        assert(within(t, f + k, f + i));
        assert(t[f + k].kind == u[g + k].kind);
    }
}

proof fn lemma_same_parent(
    t: Seq<NodeFacts>,
    f: int,
    u: Seq<NodeFacts>,
    g: int,
    n: int,
    p: int,
    i: int,
)
    requires
        same_subtree(t, f, u, g, n),
        0 <= p,
        i < n,
        is_parent(t, f + p, f + i),
    ensures
        is_parent(u, g + p, g + i),
        t[f + p].kind == u[g + p].kind,
        t[f + i].kind == u[g + i].kind,
{
    lemma_same_within(t, f, u, g, n, p, i);
    assert(t[f + p].kind == u[g + p].kind);
    assert(t[f + i].kind == u[g + i].kind);
}

proof fn lemma_same_branch(
    t: Seq<NodeFacts>,
    f: int,
    u: Seq<NodeFacts>,
    g: int,
    n: int,
    i: int,
)
    requires
        is_preorder(t),
        is_preorder(u),
        same_subtree(t, f, u, g, n),
        0 < i < n,
        is_else_branch(t, f + i),
    ensures
        is_else_branch(u, g + i),
{
    let p = choose|p: int| #[trigger] is_parent(t, p, f + i) && t[p].kind == "else_clause"@;
    lemma_is_parent(t, p, f + i);
    lemma_parent(t, f + i);
    assert(t[f + i].depth > t[f].depth);
    if p < f {
        assert(t[f].depth >= t[f + i].depth);
    }
    lemma_same_parent(t, f, u, g, n, p - f, i);
    assert(is_parent(u, g + (p - f), g + i));
}

proof fn lemma_same_operator(
    t: Seq<NodeFacts>,
    f: int,
    u: Seq<NodeFacts>,
    g: int,
    n: int,
    i: int,
    op: Seq<char>,
)
    requires
        is_preorder(t),
        is_preorder(u),
        same_subtree(t, f, u, g, n),
        0 <= i < n,
        says_operator(t, f + i, op),
    ensures
        says_operator(u, g + i, op),
{
    lemma_turned_around(t, f, u, g, n);
    let c = choose|c: int| #[trigger] is_first_operator(t, f + i, c) && t[c].kind == op;
    lemma_child_in_subtree(t, f, n, i, c);
    lemma_same_parent(t, f, u, g, n, i, c - f);
    let d = g + (c - f);
    assert forall|e: int| #[trigger] is_parent(u, g + i, e) && e < d implies u[e].kind != "&&"@
        && u[e].kind != "||"@ by {
        lemma_child_in_subtree(u, g, n, i, e);
        lemma_same_parent(u, g, t, f, n, i, e - g);
        assert(is_parent(t, f + i, f + (e - g)));
    }
    assert(is_first_operator(u, g + i, d));
}

proof fn lemma_child_in_subtree(t: Seq<NodeFacts>, f: int, n: int, i: int, c: int)
    requires
        n > 0,
        within(t, f, f + n - 1),
        !within(t, f, f + n),
        0 <= i < n,
        is_parent(t, f + i, c),
    ensures
        f + i < c < f + n,
{
    if c >= f + n {
        assert forall|k: int| f < k <= f + n implies (#[trigger] t[k]).depth > t[f].depth by {
            if k == f + n {
                assert(t[k].depth > t[f + i].depth);
                if i > 0 {
                    assert(t[f + i].depth > t[f].depth);
                }
            }
        }
        assert(within(t, f, f + n));
    }
}

/// The points of a function are those of another that encloses the same.
proof fn lemma_same_points(
    t: Seq<NodeFacts>,
    f: int,
    u: Seq<NodeFacts>,
    g: int,
    n: int,
    rules: Rules,
    i: int,
    a: int,
)
    requires
        is_preorder(t),
        is_preorder(u),
        same_subtree(t, f, u, g, n),
        (rules.cognitive)(t[f].kind) == CognitiveComplexity::Nothing,
        points(t, rules, f).contains((f + i, f + a)),
    ensures
        points(u, rules, g).contains((g + i, g + a)),
{
    lemma_turned_around(t, f, u, g, n);
    lemma_same_owned(t, f, u, g, n, rules, i);
    assert(t[f + 0].kind == u[g + 0].kind);
    assert(t[f + i].kind == u[g + i].kind);
    let c = (rules.cognitive)(t[f + i].kind);
    assert(i > 0);
    if is_else_branch(u, g + i) {
        lemma_same_branch(u, g, t, f, n, i);
    }
    if a == i && counts_once(t, rules, f, f + i) {
        if c == CognitiveComplexity::Logical {
            let op = choose|op: Seq<char>| #[trigger]
                says_operator(t, f + i, op) && !exists|p: int| #[trigger]
                    is_parent(t, p, f + i) && f <= p && (rules.cognitive)(t[p].kind)
                        == CognitiveComplexity::Logical && says_operator(t, p, op);
            lemma_same_operator(t, f, u, g, n, i, op);
            assert forall|q: int| #[trigger] is_parent(u, q, g + i) && g <= q && (rules.cognitive)(
                u[q].kind,
            ) == CognitiveComplexity::Logical implies !says_operator(u, q, op) by {
                lemma_same_parent(u, g, t, f, n, q - g, i);
                if says_operator(u, q, op) {
                    lemma_same_operator(u, g, t, f, n, q - g, op);
                    assert(is_parent(t, f + (q - g), f + i));
                }
            }
            assert(begins_chain(u, rules, g, g + i));
        }
        assert(counts_once(u, rules, g, g + i));
    } else {
        assert(nest_around(t, rules, f, f + i).contains(f + a));
        lemma_same_within(t, f, u, g, n, a, i);
        assert(t[f + a].kind == u[g + a].kind);
        assert(a > 0);
        if is_else_branch(u, g + a) {
            lemma_same_branch(u, g, t, f, n, a);
        }
    }
}

/// Functions that enclose the same are as complex as each other, by both measures,
/// wherever they stand: at the top of a file, or in a nest of branches of another
/// function.
pub proof fn lemma_surroundings_do_not_count(
    m: FunctionMetrics,
    t: Seq<NodeFacts>,
    f: int,
    source: Seq<char>,
    file: Seq<char>,
    m2: FunctionMetrics,
    u: Seq<NodeFacts>,
    g: int,
    source2: Seq<char>,
    file2: Seq<char>,
    n: int,
    rules: Rules,
)
    requires
        is_preorder(t),
        is_preorder(u),
        same_subtree(t, f, u, g, n),
        (rules.function)(t[f].kind),
        (rules.cognitive)(t[f].kind) == CognitiveComplexity::Nothing,
        describes(m, t, rules, f, source, file),
        describes(m2, u, rules, g, source2, file2),
    ensures
        m.cognitive_complexity == m2.cognitive_complexity,
        m.cyclomatic_complexity == m2.cyclomatic_complexity,
        m.nesting_depth == m2.nesting_depth,
{
    lemma_turned_around(t, f, u, g, n);
    assert(t[f + 0].kind == u[g + 0].kind);
    lemma_complexity_is_counted(m, t, rules, f, source, file);
    lemma_complexity_is_counted(m2, u, rules, g, source2, file2);
    let move_points = |p: (int, int)| (p.0 - f + g, p.1 - f + g);
    let x = points(t, rules, f);
    let y = points(u, rules, g);
    assert forall|p: (int, int)| y.contains(p) <==> x.map(move_points).contains(p) by {
        if y.contains(p) {
            lemma_same_points(u, g, t, f, n, rules, p.0 - g, p.1 - g);
            let q = (f + (p.0 - g), f + (p.1 - g));
            assert(x.contains(q) && move_points(q) == p);
        }
        if x.map(move_points).contains(p) {
            let q = choose|q: (int, int)| x.contains(q) && p == move_points(q);
            lemma_same_points(t, f, u, g, n, rules, q.0 - f, q.1 - f);
        }
    }
    assert(x.map(move_points) =~= y);
    vstd::set_lib::lemma_map_size(x, y, move_points);
    let move_node = |i: int| i - f + g;
    let v = forks(t, rules, f);
    let w = forks(u, rules, g);
    assert forall|i: int| w.contains(i) <==> v.map(move_node).contains(i) by {
        if w.contains(i) {
            lemma_same_owned(u, g, t, f, n, rules, i - g);
            assert(u[g + (i - g)].kind == t[f + (i - g)].kind);
            assert(v.contains(f + (i - g)) && move_node(f + (i - g)) == i);
        }
        if v.map(move_node).contains(i) {
            let k = choose|k: int| v.contains(k) && i == move_node(k);
            lemma_same_owned(t, f, u, g, n, rules, k - f);
            assert(t[f + (k - f)].kind == u[g + (k - f)].kind);
        }
    }
    assert(v.map(move_node) =~= w);
    vstd::set_lib::lemma_map_size(v, w, move_node);
    lemma_no_deeper(m, t, f, m2, u, g, n, rules);
    lemma_no_deeper(m2, u, g, m, t, f, n, rules);
}

proof fn lemma_no_deeper(
    m: FunctionMetrics,
    t: Seq<NodeFacts>,
    f: int,
    m2: FunctionMetrics,
    u: Seq<NodeFacts>,
    g: int,
    n: int,
    rules: Rules,
)
    requires
        is_preorder(t),
        is_preorder(u),
        same_subtree(t, f, u, g, n),
        (rules.cognitive)(t[f].kind) == CognitiveComplexity::Nothing,
        exists|i: int| #[trigger]
            owns(t, rules, f, i) && nest_inside(t, rules, f, i).len() == m.nesting_depth,
        forall|i: int| #[trigger]
            owns(u, rules, g, i) ==> nest_inside(u, rules, g, i).len() <= m2.nesting_depth,
    ensures
        m.nesting_depth <= m2.nesting_depth,
{
    lemma_turned_around(t, f, u, g, n);
    assert(t[f + 0].kind == u[g + 0].kind);
    let i = choose|i: int| #[trigger]
        owns(t, rules, f, i) && nest_inside(t, rules, f, i).len() == m.nesting_depth;
    let k = i - f;
    lemma_same_owned(t, f, u, g, n, rules, k);
    let x = nest_inside(t, rules, f, i);
    let y = nest_inside(u, rules, g, g + k);
    let move_node = |a: int| a - f + g;
    assert forall|b: int| y.contains(b) <==> x.map(move_node).contains(b) by {
        if y.contains(b) {
            let a = b - g;
            lemma_same_within(u, g, t, f, n, a, k);
            assert(u[g + a].kind == t[f + a].kind);
            if is_else_branch(t, f + a) {
                lemma_same_branch(t, f, u, g, n, a);
            }
            assert(x.contains(f + a) && move_node(f + a) == b);
        }
        if x.map(move_node).contains(b) {
            let h = choose|h: int| x.contains(h) && b == move_node(h);
            let a = h - f;
            lemma_same_within(t, f, u, g, n, a, k);
            assert(t[f + a].kind == u[g + a].kind);
            if is_else_branch(u, g + a) {
                lemma_same_branch(u, g, t, f, n, a);
            }
        }
    }
    assert(x.map(move_node) =~= y);
    lemma_depth_is_counted(t, rules, f, i);
    vstd::set_lib::lemma_map_size(x, y, move_node);
}

/// Every function of a tree is told once, in the order in which they begin.
pub proof fn lemma_every_function_is_told(
    list: Seq<FunctionMetrics>,
    t: Seq<NodeFacts>,
    rules: Rules,
    source: Seq<char>,
    file: Seq<char>,
) -> (places: Seq<int>)
    requires
        describes_all(list, t, rules, source, file),
    ensures
        places.len() == list.len(),
        forall|k: int|
            0 <= k < list.len() ==> 0 <= #[trigger] places[k] < t.len() && (rules.function)(
                t[places[k]].kind,
            ) && describes(list[k], t, rules, places[k], source, file),
        forall|j: int, k: int|
            #![trigger places[j], places[k]]
            0 <= j < k < places.len() ==> places[j] < places[k],
        forall|f: int|
            0 <= f < t.len() && (rules.function)((#[trigger] t[f]).kind) ==> places.contains(f),
{
    let places = functions_of(t, rules);
    lemma_functions_listed(t, rules, t.len() as int);
    assert forall|k: int| 0 <= k < list.len() implies 0 <= #[trigger] places[k] < t.len() && (
    rules.function)(t[places[k]].kind) && describes(
        list[k],
        t,
        rules,
        places[k],
        source,
        file,
    ) by {
        assert(describes(list[k], t, rules, functions_of(t, rules)[k], source, file));
    }
    places
}

proof fn lemma_functions_listed(t: Seq<NodeFacts>, rules: Rules, n: int)
    requires
        0 <= n <= t.len(),
    ensures
        forall|k: int|
            0 <= k < functions_before(t, rules, n).len() ==> 0 <= #[trigger] functions_before(
                t,
                rules,
                n,
            )[k] < n && (rules.function)(t[functions_before(t, rules, n)[k]].kind),
        forall|j: int, k: int|
            #![trigger functions_before(t, rules, n)[j], functions_before(t, rules, n)[k]]
            0 <= j < k < functions_before(t, rules, n).len() ==> functions_before(t, rules, n)[j]
                < functions_before(t, rules, n)[k],
        forall|f: int|
            0 <= f < n && (rules.function)((#[trigger] t[f]).kind) ==> functions_before(
                t,
                rules,
                n,
            ).contains(f),
    decreases n,
{
    if n > 0 {
        lemma_functions_listed(t, rules, n - 1);
        let a = functions_before(t, rules, n - 1);
        let b = functions_before(t, rules, n);
        assert forall|j: int, k: int|
            #![trigger b[j], b[k]]
            0 <= j < k < b.len() implies b[j] < b[k] by {
            assert(b[j] == a[j]);
            if k < a.len() {
                assert(b[k] == a[k]);
            }
        }
        assert forall|f: int| 0 <= f < n && (rules.function)((#[trigger] t[f]).kind) implies
            b.contains(f) by {
            if f < n - 1 {
                assert(a.contains(f));
                let k = choose|k: int| 0 <= k < a.len() && a[k] == f;
                assert(b[k] == f);
            } else {
                assert(b[b.len() - 1] == f);
            }
        }
    }
}

} // verus!

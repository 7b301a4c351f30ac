//! What lies in what in a syntax tree, by the depths of its nodes alone.

use super::tree::{
    children_before, children_of, end_of, first_where, is_preorder, lemma_children,
    lemma_first_back_at, lemma_last_above_is, lemma_parent, parent_of, NodeFacts,
};
use vstd::prelude::*;

verus! {

/// Whether node `i` is node `a` or lies in it: all nodes behind `a`, up to `i`, are
/// deeper.
pub open spec fn within(t: Seq<NodeFacts>, a: int, i: int) -> bool {
    &&& 0 <= a <= i < t.len()
    &&& forall|k: int| a < k <= i ==> (#[trigger] t[k]).depth > t[a].depth
}

/// Whether node `i` lies in node `p`, one step below it.
pub open spec fn is_parent(t: Seq<NodeFacts>, p: int, i: int) -> bool {
    within(t, p, i) && t[p].depth + 1 == t[i].depth
}

/// What lies in a node comes before its end.
pub proof fn lemma_within_end(t: Seq<NodeFacts>, a: int, i: int)
    requires
        0 <= a < t.len(),
    ensures
        within(t, a, i) <==> a <= i < end_of(t, a),
{
    lemma_first_back_at(t, a + 1, t[a].depth);
    let e = end_of(t, a);
    if within(t, a, i) && e <= i {
        assert(t[e].depth > t[a].depth);
    }
}

/// The parent of a node is one step above it.
pub proof fn lemma_is_parent(t: Seq<NodeFacts>, p: int, i: int)
    requires
        is_preorder(t),
        0 <= i < t.len(),
    ensures
        is_parent(t, p, i) <==> i > 0 && p == parent_of(t, i),
{
    lemma_parent(t, i);
    if is_parent(t, p, i) {
        assert(p < i);
        assert forall|k: int| p < k <= i - 1 implies (#[trigger] t[k]).depth >= t[i].depth by {}
        lemma_last_above_is(t, i - 1, t[i].depth, p);
    }
    if i > 0 && p == parent_of(t, i) {
        assert forall|k: int| p < k <= i implies (#[trigger] t[k]).depth > t[p].depth by {}
    }
}

/// A node lies in what its parent lies in, and in itself.
pub proof fn lemma_within_parent(t: Seq<NodeFacts>, a: int, i: int)
    requires
        is_preorder(t),
        0 < i < t.len(),
    ensures
        within(t, a, i) <==> a == i || within(t, a, parent_of(t, i)),
{
    lemma_parent(t, i);
    let p = parent_of(t, i);
    if within(t, a, i) && a < i {
        if p < a {
            assert(t[a].depth >= t[i].depth);
            assert(t[i].depth > t[a].depth);
        }
        assert(within(t, a, p));
    }
    if within(t, a, p) {
        assert forall|k: int| a < k <= i implies (#[trigger] t[k]).depth > t[a].depth by {
            if k > p {
                assert(t[k].depth >= t[i].depth);
                if a < p {
                    assert(t[p].depth > t[a].depth);
                }
            }
        }
    }
}

/// Children stand in their order.
pub proof fn lemma_children_ascend(t: Seq<NodeFacts>, p: int, n: int)
    requires
        0 <= n <= t.len(),
    ensures
        forall|i: int, j: int|
            #![trigger children_before(t, p, n)[i], children_before(t, p, n)[j]]
            0 <= i < j < children_before(t, p, n).len() ==> children_before(t, p, n)[i]
                < children_before(t, p, n)[j],
    decreases n,
{
    if n > 0 {
        lemma_children_ascend(t, p, n - 1);
        lemma_children(t, p, n - 1);
        let before = children_before(t, p, n - 1);
        let all = children_before(t, p, n);
        assert forall|i: int, j: int|
            #![trigger all[i], all[j]]
            0 <= i < j < all.len() implies all[i] < all[j] by {
            assert(all[i] == before[i]);
            if j < before.len() {
                assert(all[j] == before[j]);
            }
        }
    }
}

/// What is listed among the children of a node lies one step below it.
pub proof fn lemma_listed_children(t: Seq<NodeFacts>, p: int, c: int)
    requires
        is_preorder(t),
        0 <= p < t.len(),
    ensures
        children_of(t, p).contains(c) <==> is_parent(t, p, c),
{
    lemma_children(t, p, t.len() as int);
    if children_of(t, p).contains(c) {
        let k = choose|k: int| 0 <= k < children_of(t, p).len() && children_of(t, p)[k] == c;
        assert(parent_of(t, children_of(t, p)[k]) == p);
        lemma_parent(t, c);
        lemma_is_parent(t, p, c);
    }
    if is_parent(t, p, c) {
        lemma_is_parent(t, p, c);
        assert(children_before(t, p, t.len() as int).contains(c));
    }
}

/// The first of some nodes that satisfies a condition: it does, and none before it.
pub proof fn lemma_first_where(
    t: Seq<NodeFacts>,
    list: Seq<int>,
    wanted: spec_fn(NodeFacts) -> bool,
)
    ensures
        match first_where(t, list, wanted) {
            Some(c) => exists|k: int|
                0 <= k < list.len() && #[trigger] list[k] == c && wanted(t[c]) && forall|j: int|
                    0 <= j < k ==> !wanted(t[#[trigger] list[j]]),
            None => forall|j: int| 0 <= j < list.len() ==> !wanted(t[#[trigger] list[j]]),
        },
    decreases list.len(),
{
    if list.len() > 0 {
        if wanted(t[list[0]]) {
            assert(list[0] == list[0]);
        } else {
            let rest = list.drop_first();
            lemma_first_where(t, rest, wanted);
            match first_where(t, rest, wanted) {
                Some(c) => {
                    let k = choose|k: int|
                        0 <= k < rest.len() && #[trigger] rest[k] == c && wanted(t[c]) && forall|
                            j: int,
                        |
                            0 <= j < k ==> !wanted(t[#[trigger] rest[j]]);
                    assert(list[k + 1] == c);
                    assert forall|j: int| 0 <= j < k + 1 implies !wanted(t[#[trigger] list[j]]) by {
                        if j > 0 {
                            assert(rest[j - 1] == list[j]);
                        }
                    }
                },
                None => {
                    assert forall|j: int| 0 <= j < list.len() implies !wanted(
                        t[#[trigger] list[j]],
                    ) by {
                        if j > 0 {
                            assert(rest[j - 1] == list[j]);
                        }
                    }
                },
            }
        }
    }
}

/// Whether a node is the first child of another that satisfies a condition.
pub open spec fn is_first_child(
    t: Seq<NodeFacts>,
    p: int,
    c: int,
    wanted: spec_fn(NodeFacts) -> bool,
) -> bool {
    &&& is_parent(t, p, c)
    &&& wanted(t[c])
    &&& forall|d: int| #[trigger] is_parent(t, p, d) && d < c ==> !wanted(t[d])
}

/// The first child that satisfies a condition is found.
pub proof fn lemma_first_child(t: Seq<NodeFacts>, p: int, wanted: spec_fn(NodeFacts) -> bool)
    requires
        is_preorder(t),
        0 <= p < t.len(),
    ensures
        forall|c: int| #[trigger]
            is_first_child(t, p, c, wanted) <==> first_where(t, children_of(t, p), wanted) == Some(
                c,
            ),
        first_where(t, children_of(t, p), wanted) is None <==> forall|c: int| #[trigger]
            is_parent(t, p, c) ==> !wanted(t[c]),
{
    let list = children_of(t, p);
    lemma_first_where(t, list, wanted);
    lemma_children_ascend(t, p, t.len() as int);
    let found = first_where(t, list, wanted);
    if let Some(c) = found {
        let k = choose|k: int|
            0 <= k < list.len() && #[trigger] list[k] == c && wanted(t[c]) && forall|j: int|
                0 <= j < k ==> !wanted(t[#[trigger] list[j]]);
        assert(list.contains(c));
        lemma_listed_children(t, p, c);
        assert forall|d: int| #[trigger] is_parent(t, p, d) && d < c implies !wanted(t[d]) by {
            lemma_listed_children(t, p, d);
            let j = choose|j: int| 0 <= j < list.len() && list[j] == d;
            if k < j {
                assert(list[k] < list[j]);
            }
            assert(j < k);
            assert(!wanted(t[list[j]]));
        }
        assert(is_first_child(t, p, c, wanted));
    }
    assert forall|c: int| #[trigger] is_first_child(t, p, c, wanted) implies found == Some(c) by {
        lemma_listed_children(t, p, c);
        let j = choose|j: int| 0 <= j < list.len() && list[j] == c;
        assert(wanted(t[list[j]]));
        assert(found is Some);
        let d = found->0;
        assert(is_first_child(t, p, d, wanted));
        if d < c {
            assert(is_parent(t, p, d));
        }
    }
    if found is None {
        assert forall|c: int| #[trigger] is_parent(t, p, c) implies !wanted(t[c]) by {
            lemma_listed_children(t, p, c);
            let j = choose|j: int| 0 <= j < list.len() && list[j] == c;
            assert(!wanted(t[list[j]]));
        }
    }
}

} // verus!

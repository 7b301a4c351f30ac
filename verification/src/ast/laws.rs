//! What holds of the complexity of all functions of a tree together.

use super::complexity::{
    cognitive_before, cognitive_gain, cognitive_of, cyclomatic_before, cyclomatic_gain,
    cyclomatic_of, lemma_owner, owner,
};
use super::tree::{
    end_of, is_preorder, lemma_first_back_at, lemma_not_child, lemma_parent, parent_of, NodeFacts,
};
use super::Rules;
use vstd::prelude::*;

verus! {

/// Whether node `i` is node `g` or lies in it.
pub open spec fn encloses(t: Seq<NodeFacts>, g: int, i: int) -> bool {
    0 <= g <= i < end_of(t, g)
}

/// What encloses a parent encloses its children.
proof fn lemma_encloses_child(t: Seq<NodeFacts>, g: int, i: int)
    requires
        is_preorder(t),
        0 < i < t.len(),
        encloses(t, g, parent_of(t, i)),
    ensures
        encloses(t, g, i),
{
    lemma_parent(t, i);
    let p = parent_of(t, i);
    lemma_first_back_at(t, g + 1, t[g].depth);
    let e = end_of(t, g);
    assert(t[p].depth >= t[g].depth);
    if i >= e {
        assert(t[e].depth >= t[i].depth);
    }
}

/// Every node belongs to the innermost function around it: that function encloses
/// it, and no function inside that one does. So what happens in a function inside
/// another is no concern of the outer one.
pub proof fn lemma_owner_is_innermost(t: Seq<NodeFacts>, rules: Rules, i: int)
    requires
        is_preorder(t),
        0 <= i < t.len(),
    ensures
        owner(t, rules, i) >= 0 ==> (rules.function)(t[owner(t, rules, i)].kind) && encloses(
            t,
            owner(t, rules, i),
            i,
        ),
        forall|g: int|
            #[trigger] encloses(t, g, i) && (rules.function)(t[g].kind) ==> g <= owner(
                t,
                rules,
                i,
            ),
    decreases i,
{
    let p = parent_of(t, i);
    lemma_parent(t, i);
    lemma_owner(t, rules, i);
    lemma_first_back_at(t, i + 1, t[i].depth);
    if !(rules.function)(t[i].kind) {
        if i > 0 {
            lemma_owner_is_innermost(t, rules, p);
            if owner(t, rules, i) >= 0 {
                lemma_encloses_child(t, owner(t, rules, i), i);
            }
        }
        assert forall|g: int| #[trigger] encloses(t, g, i) && (rules.function)(t[g].kind) implies g
            <= owner(t, rules, i) by {
            if g < i {
                lemma_not_child(t, g, i);
                assert(encloses(t, g, p));
            }
        }
    }
}

/// The sum of a gain over the nodes before `n` that belong to function `f`.
spec fn share(t: Seq<NodeFacts>, rules: Rules, gain: spec_fn(int) -> nat, f: int, n: int) -> nat
    decreases n,
{
    if n <= 0 {
        0
    } else {
        share(t, rules, gain, f, n - 1) + if owner(t, rules, n - 1) == f {
            gain(n - 1)
        } else {
            0
        }
    }
}

/// The sum of a gain over the nodes before `n` that belong to any function.
pub open spec fn owned_gains(
    t: Seq<NodeFacts>,
    rules: Rules,
    gain: spec_fn(int) -> nat,
    n: int,
) -> nat
    decreases n,
{
    if n <= 0 {
        0
    } else {
        owned_gains(t, rules, gain, n - 1) + if owner(t, rules, n - 1) >= 0 {
            gain(n - 1)
        } else {
            0
        }
    }
}

/// The sum of a measure over the functions before node `n`.
pub open spec fn over_functions(
    t: Seq<NodeFacts>,
    rules: Rules,
    measure: spec_fn(int) -> nat,
    n: int,
) -> nat
    decreases n,
{
    if n <= 0 {
        0
    } else {
        over_functions(t, rules, measure, n - 1) + if (rules.function)(t[n - 1].kind) {
            measure(n - 1)
        } else {
            0
        }
    }
}

/// One more node adds its gain to the share of its owner and to no other.
proof fn lemma_one_more(
    t: Seq<NodeFacts>,
    rules: Rules,
    gain: spec_fn(int) -> nat,
    n: int,
    upto: int,
)
    requires
        0 < n <= t.len(),
        0 <= upto <= t.len(),
    ensures
        over_functions(t, rules, |f: int| share(t, rules, gain, f, n), upto) == over_functions(
            t,
            rules,
            |f: int| share(t, rules, gain, f, n - 1),
            upto,
        ) + if 0 <= owner(t, rules, n - 1) < upto {
            gain(n - 1)
        } else {
            0
        },
    decreases upto,
{
    lemma_owner(t, rules, n - 1);
    if upto > 0 {
        lemma_one_more(t, rules, gain, n, upto - 1);
    }
}

/// The shares of all functions make up all that belongs to functions.
proof fn lemma_shares(t: Seq<NodeFacts>, rules: Rules, gain: spec_fn(int) -> nat, n: int)
    requires
        0 <= n <= t.len(),
    ensures
        over_functions(t, rules, |f: int| share(t, rules, gain, f, n), t.len() as int)
            == owned_gains(t, rules, gain, n),
    decreases n,
{
    if n > 0 {
        lemma_shares(t, rules, gain, n - 1);
        lemma_owner(t, rules, n - 1);
        lemma_one_more(t, rules, gain, n, t.len() as int);
    } else {
        lemma_nothing(t, rules, |f: int| share(t, rules, gain, f, 0), t.len() as int);
    }
}

proof fn lemma_nothing(t: Seq<NodeFacts>, rules: Rules, measure: spec_fn(int) -> nat, n: int)
    requires
        0 <= n <= t.len(),
        forall|f: int| #[trigger] measure(f) == 0,
    ensures
        over_functions(t, rules, measure, n) == 0,
    decreases n,
{
    if n > 0 {
        lemma_nothing(t, rules, measure, n - 1);
    }
}

proof fn lemma_same_measure(
    t: Seq<NodeFacts>,
    rules: Rules,
    a: spec_fn(int) -> nat,
    b: spec_fn(int) -> nat,
    n: int,
)
    requires
        0 <= n <= t.len(),
        forall|f: int| 0 <= f < n ==> #[trigger] a(f) == b(f),
    ensures
        over_functions(t, rules, a, n) == over_functions(t, rules, b, n),
    decreases n,
{
    if n > 0 {
        lemma_same_measure(t, rules, a, b, n - 1);
        assert(a(n - 1) == b(n - 1));
    }
}

proof fn lemma_cognitive_share(t: Seq<NodeFacts>, rules: Rules, f: int, n: int)
    requires
        0 <= f,
        0 <= n <= t.len(),
    ensures
        cognitive_before(t, rules, f, n) == share(
            t,
            rules,
            |i: int| cognitive_gain(t, rules, i),
            f,
            n,
        ),
    decreases n,
{
    if n > 0 {
        lemma_cognitive_share(t, rules, f, n - 1);
        lemma_owner(t, rules, n - 1);
    }
}

proof fn lemma_cyclomatic_share(t: Seq<NodeFacts>, rules: Rules, f: int, n: int)
    requires
        0 <= f,
        0 <= n <= t.len(),
    ensures
        cyclomatic_before(t, rules, f, n) == share(
            t,
            rules,
            |i: int| cyclomatic_gain(t, rules, i),
            f,
            n,
        ),
    decreases n,
{
    if n > 0 {
        lemma_cyclomatic_share(t, rules, f, n - 1);
        lemma_owner(t, rules, n - 1);
    }
}

/// Every node that lies in a function counts towards the complexity of exactly one
/// function: the complexities of all functions add up to the gains of all those
/// nodes, each taken once.
pub proof fn lemma_each_node_counts_once(t: Seq<NodeFacts>, rules: Rules)
    ensures
        over_functions(t, rules, |f: int| cognitive_of(t, rules, f), t.len() as int)
            == owned_gains(t, rules, |i: int| cognitive_gain(t, rules, i), t.len() as int),
        over_functions(t, rules, |f: int| (cyclomatic_of(t, rules, f) - 1) as nat, t.len() as int)
            == owned_gains(t, rules, |i: int| cyclomatic_gain(t, rules, i), t.len() as int),
{
    let n = t.len() as int;
    let cognitive = |i: int| cognitive_gain(t, rules, i);
    let cyclomatic = |i: int| cyclomatic_gain(t, rules, i);
    lemma_shares(t, rules, cognitive, n);
    lemma_shares(t, rules, cyclomatic, n);
    let a = |f: int| cognitive_of(t, rules, f);
    let b = |f: int| share(t, rules, cognitive, f, n);
    assert forall|f: int| 0 <= f < n implies #[trigger] a(f) == b(f) by {
        lemma_cognitive_share(t, rules, f, n);
    }
    lemma_same_measure(t, rules, a, b, n);
    let c = |f: int| (cyclomatic_of(t, rules, f) - 1) as nat;
    let d = |f: int| share(t, rules, cyclomatic, f, n);
    assert forall|f: int| 0 <= f < n implies #[trigger] c(f) == d(f) by {
        lemma_cyclomatic_share(t, rules, f, n);
    }
    lemma_same_measure(t, rules, c, d, n);
}

} // verus!

//! Which function every node belongs to, and what it adds to its complexity.

use super::tree::{
    children_of, first_where, in_range, is_preorder, lemma_parent, parent_of, places, NodeFacts,
    SyntaxTree,
};
use super::{CognitiveComplexity, LanguageSupport, Rules};
use vstd::prelude::*;

verus! {

/// The innermost function that a node lies in or is, or -1.
pub open spec fn owner(t: Seq<NodeFacts>, rules: Rules, i: int) -> int
    decreases i,
{
    let p = parent_of(t, i);
    if (rules.function)(t[i].kind) {
        i
    } else if 0 <= p < i {
        owner(t, rules, p)
    } else {
        -1
    }
}

/// Whether a node is the `if` of an `else if`.
pub open spec fn is_else_if(t: Seq<NodeFacts>, i: int) -> bool {
    let p = parent_of(t, i);
    t[i].kind == "if_statement"@ && p >= 0 && t[p].kind == "else_clause"@
}

/// Whether a node is a logical operator.
pub open spec fn is_logical(node: NodeFacts) -> bool {
    node.kind == "&&"@ || node.kind == "||"@
}

/// The logical operator of an expression.
pub open spec fn logical_operator(t: Seq<NodeFacts>, i: int) -> Option<Seq<char>> {
    match first_where(t, children_of(t, i), |n: NodeFacts| is_logical(n)) {
        Some(c) => Some(t[c].kind),
        None => None,
    }
}

/// Whether a node makes what is inside it count more: it nests, lies in a
/// function, and is no `else if`.
pub open spec fn nests(t: Seq<NodeFacts>, rules: Rules, i: int) -> bool {
    owner(t, rules, i) >= 0 && (rules.cognitive)(t[i].kind) == CognitiveComplexity::Nesting
        && !is_else_if(t, i)
}

/// How deep a node lies in nesting nodes of its own function.
pub open spec fn nesting_at(t: Seq<NodeFacts>, rules: Rules, i: int) -> nat
    decreases i,
{
    let p = parent_of(t, i);
    if (rules.function)(t[i].kind) || !(0 <= p < i) {
        0
    } else {
        nesting_at(t, rules, p) + if nests(t, rules, p) {
            1nat
        } else {
            0nat
        }
    }
}

/// How deep the children of a node lie.
pub open spec fn nesting_inside(t: Seq<NodeFacts>, rules: Rules, i: int) -> nat {
    nesting_at(t, rules, i) + if nests(t, rules, i) {
        1nat
    } else {
        0nat
    }
}

/// The operator of the chain that the children of a node continue.
pub open spec fn chained_operator(
    t: Seq<NodeFacts>,
    rules: Rules,
    i: int,
) -> Option<Seq<char>> {
    if i >= 0 && owner(t, rules, i) >= 0 && (rules.cognitive)(t[i].kind)
        == CognitiveComplexity::Logical {
        logical_operator(t, i)
    } else {
        None
    }
}

/// What a node adds to the cognitive complexity of its function. A chain of the
/// same logical operator counts once; an `else if` is spared the depth.
pub open spec fn cognitive_gain(t: Seq<NodeFacts>, rules: Rules, i: int) -> nat {
    match (rules.cognitive)(t[i].kind) {
        CognitiveComplexity::Nothing => 0,
        CognitiveComplexity::Logical => if logical_operator(t, i) is Some && logical_operator(t, i)
            != chained_operator(t, rules, parent_of(t, i)) {
            1
        } else {
            0
        },
        _ => if is_else_if(t, i) {
            1
        } else {
            1 + nesting_at(t, rules, i)
        },
    }
}

/// What a node adds to the cyclomatic complexity of its function.
pub open spec fn cyclomatic_gain(t: Seq<NodeFacts>, rules: Rules, i: int) -> nat {
    if !(rules.function)(t[i].kind) && (rules.increment)(t[i].kind) {
        1
    } else {
        0
    }
}

/// The sum of cognitive gains of function `f` over the nodes before `n`.
pub open spec fn cognitive_before(
    t: Seq<NodeFacts>,
    rules: Rules,
    f: int,
    n: int,
) -> nat
    decreases n,
{
    if n <= f || n <= 0 {
        0
    } else {
        cognitive_before(t, rules, f, n - 1) + if owner(t, rules, n - 1) == f {
            cognitive_gain(t, rules, n - 1)
        } else {
            0
        }
    }
}

/// The sum of cyclomatic gains of function `f` over the nodes before `n`.
pub open spec fn cyclomatic_before(
    t: Seq<NodeFacts>,
    rules: Rules,
    f: int,
    n: int,
) -> nat
    decreases n,
{
    if n <= f || n <= 0 {
        0
    } else {
        cyclomatic_before(t, rules, f, n - 1) + if owner(t, rules, n - 1) == f {
            cyclomatic_gain(t, rules, n - 1)
        } else {
            0
        }
    }
}

/// The greatest depth inside the nodes of function `f` before `n`.
pub open spec fn deepest_before(
    t: Seq<NodeFacts>,
    rules: Rules,
    f: int,
    n: int,
) -> nat
    decreases n,
{
    if n <= f || n <= 0 {
        0
    } else {
        let earlier = deepest_before(t, rules, f, n - 1);
        if owner(t, rules, n - 1) == f && nesting_inside(t, rules, n - 1) > earlier {
            nesting_inside(t, rules, n - 1)
        } else {
            earlier
        }
    }
}

/// The cognitive complexity of the function at node `f`.
pub open spec fn cognitive_of(t: Seq<NodeFacts>, rules: Rules, f: int) -> nat {
    cognitive_before(t, rules, f, t.len() as int)
}

/// The cyclomatic complexity of the function at node `f`.
pub open spec fn cyclomatic_of(t: Seq<NodeFacts>, rules: Rules, f: int) -> nat {
    1 + cyclomatic_before(t, rules, f, t.len() as int)
}

/// The nesting depth of the function at node `f`.
pub open spec fn deepest_of(t: Seq<NodeFacts>, rules: Rules, f: int) -> nat {
    deepest_before(t, rules, f, t.len() as int)
}

/// The operator of a chain.
#[derive(Clone, Copy, Debug, PartialEq, Eq, Structural)]
pub enum Operator {
    Conjunction,
    Disjunction,
}

impl Operator {
    /// How the operator is written.
    pub open spec fn written(self) -> Seq<char> {
        match self {
            Operator::Conjunction => "&&"@,
            Operator::Disjunction => "||"@,
        }
    }
}

/// How an optional operator is written.
pub open spec fn written(op: Option<Operator>) -> Option<Seq<char>> {
    match op {
        Some(o) => Some(o.written()),
        None => None,
    }
}

/// The two operators are written differently.
proof fn lemma_operators_differ()
    ensures
        "&&"@ != "||"@,
{
    reveal_strlit("&&");
    reveal_strlit("||");
    assert("&&"@[0] != "||"@[0]);
}

fn find_operator(tree: &SyntaxTree, i: usize) -> (r: Option<Operator>)
    requires
        i < tree@.len(),
    ensures
        written(r) == logical_operator(tree@, i as int),
{
    let list = tree.children(i);
    let ghost wanted = |n: NodeFacts| is_logical(n);
    let ghost all = places(list@);
    assert(all.skip(0) == all);
    for k in 0..list.len()
        invariant
            all == places(list@),
            wanted == (|n: NodeFacts| is_logical(n)),
            all == children_of(tree@, i as int),
            forall|j: int| 0 <= j < list.len() ==> i < #[trigger] list@[j] < tree@.len(),
            first_where(tree@, children_of(tree@, i as int), |n: NodeFacts| is_logical(n))
                == first_where(tree@, all.skip(k as int), wanted),
    {
        assert(all.skip(k as int).drop_first() == all.skip(k + 1));
        let kind = tree.node(list[k]).kind;
        if kind.eq("&&") {
            return Some(Operator::Conjunction);
        }
        if kind.eq("||") {
            return Some(Operator::Disjunction);
        }
    }
    None
}

fn else_if(tree: &SyntaxTree, i: usize) -> (r: bool)
    requires
        i < tree@.len(),
    ensures
        r == is_else_if(tree@, i as int),
{
    if !tree.node(i).kind.eq("if_statement") {
        return false;
    }
    match tree.parent(i) {
        Some(p) => tree.node(p).kind.eq("else_clause"),
        None => false,
    }
}

/// What was found out about a node, and of the function that starts there.
pub struct Tally {
    pub owner: Option<usize>,
    pub nesting: u64,
    pub operator: Option<Operator>,
    pub cognitive: u64,
    pub cyclomatic: u64,
    pub deepest: u64,
}

/// A place as an integer, with -1 for none.
pub open spec fn place(p: Option<usize>) -> int {
    match p {
        Some(f) => f as int,
        None => -1,
    }
}

/// Whether a tally tells the truth of node `i`, and of the function there as far
/// as the nodes before `n` go.
#[verifier::opaque]
pub open spec fn is_tally(
    t: Seq<NodeFacts>,
    rules: Rules,
    tally: Tally,
    i: int,
    n: int,
) -> bool {
    &&& owner(t, rules, i) == place(tally.owner)
    &&& tally.nesting == nesting_inside(t, rules, i)
    &&& written(tally.operator) == chained_operator(t, rules, i)
    &&& tally.cognitive == cognitive_before(t, rules, i, n)
    &&& tally.cyclomatic == cyclomatic_before(t, rules, i, n)
    &&& tally.deepest == deepest_before(t, rules, i, n)
}

/// A node belongs to a function at or before it.
pub proof fn lemma_owner(t: Seq<NodeFacts>, rules: Rules, i: int)
    requires
        0 <= i < t.len(),
    ensures
        -1 <= owner(t, rules, i) <= i,
        owner(t, rules, i) >= 0 ==> (rules.function)(t[owner(t, rules, i)].kind),
    decreases i,
{
    let p = parent_of(t, i);
    if !(rules.function)(t[i].kind) && 0 <= p < i {
        lemma_owner(t, rules, p);
    }
}

/// Nesting is bounded by the place.
proof fn lemma_nesting_bound(t: Seq<NodeFacts>, rules: Rules, i: int)
    requires
        0 <= i,
    ensures
        nesting_at(t, rules, i) <= i,
    decreases i,
{
    let p = parent_of(t, i);
    if !(rules.function)(t[i].kind) && 0 <= p < i {
        lemma_nesting_bound(t, rules, p);
    }
}

/// How large the sums can get.
proof fn lemma_sums_bound(t: Seq<NodeFacts>, rules: Rules, f: int, n: int)
    requires
        0 <= f,
        0 <= n <= t.len() <= u32::MAX,
    ensures
        cyclomatic_before(t, rules, f, n) <= n,
        cognitive_before(t, rules, f, n) <= n * t.len(),
        deepest_before(t, rules, f, n) <= n,
        n * t.len() <= u64::MAX,
    decreases n,
{
    assert(n * t.len() <= u64::MAX) by (nonlinear_arith)
        requires
            0 <= n <= t.len() <= 0xffff_ffff,
    ;
    assert(n >= 0 ==> n * t.len() >= 0) by (nonlinear_arith)
        requires
            0 <= n,
    ;
    if n > f && n > 0 {
        lemma_sums_bound(t, rules, f, n - 1);
        lemma_nesting_bound(t, rules, n - 1);
        assert(n * t.len() == (n - 1) * t.len() + t.len()) by (nonlinear_arith);
    }
}

/// The tally of a node with another weight added to it.
spec fn credited(tally: Tally, w: Weight) -> Tally {
    Tally {
        cognitive: (tally.cognitive + w.cognitive) as u64,
        cyclomatic: (tally.cyclomatic + w.cyclomatic) as u64,
        deepest: if w.inside > tally.deepest {
            w.inside
        } else {
            tally.deepest
        },
        ..tally
    }
}

/// Whether a weight is that of node `i`.
spec fn is_weight(t: Seq<NodeFacts>, rules: Rules, w: Weight, i: int) -> bool {
    &&& owner(t, rules, i) == place(w.owner)
    &&& w.inside == nesting_inside(t, rules, i)
    &&& written(w.operator) == chained_operator(t, rules, i)
    &&& w.owner is Some ==> w.cognitive == cognitive_gain(t, rules, i)
    &&& w.cyclomatic == cyclomatic_gain(t, rules, i)
}

/// The tally of a node that has just been reached.
proof fn lemma_tally_new(t: Seq<NodeFacts>, rules: Rules, tally: Tally, w: Weight, i: int)
    requires
        0 <= i < t.len(),
        is_weight(t, rules, w, i),
        tally.owner == w.owner,
        tally.nesting == w.inside,
        tally.operator == w.operator,
        tally.cognitive == 0,
        tally.cyclomatic == 0,
        tally.deepest == 0,
    ensures
        is_tally(t, rules, tally, i, i),
{
    reveal(is_tally);
}

/// The tally of a function after a node of its own.
proof fn lemma_tally_credited(
    t: Seq<NodeFacts>,
    rules: Rules,
    tally: Tally,
    w: Weight,
    f: int,
    i: int,
)
    requires
        0 <= f <= i < t.len() <= u32::MAX,
        is_weight(t, rules, w, i),
        w.owner == Some(f as usize),
        f == f as usize,
        is_tally(t, rules, tally, f, i),
    ensures
        tally.cognitive + w.cognitive <= u64::MAX,
        tally.cyclomatic + w.cyclomatic <= u64::MAX,
        is_tally(t, rules, credited(tally, w), f, i + 1),
{
    reveal(is_tally);
    lemma_sums_bound(t, rules, f, i + 1);
}

/// The tally of a node after a node of another function.
proof fn lemma_tally_kept(t: Seq<NodeFacts>, rules: Rules, tally: Tally, f: int, i: int)
    requires
        0 <= i < t.len(),
        owner(t, rules, i) != f,
        is_tally(t, rules, tally, f, i),
    ensures
        is_tally(t, rules, tally, f, i + 1),
{
    reveal(is_tally);
}

/// What one node is worth.
struct Weight {
    owner: Option<usize>,
    inside: u64,
    operator: Option<Operator>,
    cognitive: u64,
    cyclomatic: u64,
}

/// Weighs a node, given the function, the depth and the chain that it finds
/// itself in.
fn weigh<L: LanguageSupport + ?Sized>(
    tree: &SyntaxTree,
    lang: &L,
    i: usize,
    outer: Option<usize>,
    outside: u64,
    chain: Option<Operator>,
) -> (w: Weight)
    requires
        i < tree@.len() <= u32::MAX,
        ({
            let p = parent_of(tree@, i as int);
            if 0 <= p < i {
                &&& owner(tree@, lang.rules(), p) == place(outer)
                &&& outside == nesting_inside(tree@, lang.rules(), p)
                &&& written(chain) == chained_operator(tree@, lang.rules(), p)
            } else {
                p == -1 && outer is None && outside == 0 && chain is None
            }
        }),
    ensures
        is_weight(tree@, lang.rules(), w, i as int),
{
    let ghost t = tree@;
    let ghost rules = lang.rules();
    let node = tree.node(i);
    let is_fn = lang.is_function(node);
    proof {
        lemma_nesting_bound(t, rules, i as int);
    }
    let mine: Option<usize> = if is_fn {
        Some(i)
    } else {
        outer
    };
    let depth: u64 = if is_fn {
        0
    } else {
        outside
    };
    assert(depth == nesting_at(t, rules, i as int));
    let mut inside: u64 = depth;
    let mut operator: Option<Operator> = None;
    let mut gain: u64 = 0;
    if mine.is_some() {
        match lang.cognitive_complexity(node) {
            CognitiveComplexity::Nothing => {},
            CognitiveComplexity::Logical => {
                operator = find_operator(tree, i);
                proof {
                    lemma_operators_differ();
                }
                if operator.is_some() && operator != chain {
                    gain = 1;
                }
            },
            CognitiveComplexity::Structure => {
                gain = if else_if(tree, i) {
                    1
                } else {
                    1 + depth
                };
            },
            CognitiveComplexity::Nesting => {
                if else_if(tree, i) {
                    gain = 1;
                } else {
                    gain = 1 + depth;
                    inside = depth + 1;
                }
            },
        }
    }
    let step: u64 = if !is_fn && lang.is_complexity_increment(node) {
        1
    } else {
        0
    };
    Weight { owner: mine, inside, operator, cognitive: gain, cyclomatic: step }
}

/// Adds the weight of node `i` to the tally of its function.
fn credit(tallies: &mut Vec<Tally>, f: usize, w: &Weight)
    requires
        f < old(tallies).len(),
        old(tallies)@[f as int].cognitive + w.cognitive <= u64::MAX,
        old(tallies)@[f as int].cyclomatic + w.cyclomatic <= u64::MAX,
    ensures
        final(tallies)@ == old(tallies)@.update(
            f as int,
            credited(old(tallies)@[f as int], *w),
        ),
{
    let deepest: u64 = tallies[f].deepest;
    let updated = Tally {
        owner: tallies[f].owner,
        nesting: tallies[f].nesting,
        operator: tallies[f].operator,
        cognitive: tallies[f].cognitive + w.cognitive,
        cyclomatic: tallies[f].cyclomatic + w.cyclomatic,
        deepest: if w.inside > deepest {
            w.inside
        } else {
            deepest
        },
    };
    tallies.set(f, updated);
}

/// Goes through all nodes once and tallies every function.
pub fn tally_nodes<L: LanguageSupport + ?Sized>(tree: &SyntaxTree, lang: &L) -> (tallies: Vec<Tally>)
    ensures
        tallies.len() == tree@.len(),
        forall|i: int|
            0 <= i < tallies.len() ==> is_tally(
                tree@,
                lang.rules(),
                #[trigger] tallies@[i],
                i,
                tree@.len() as int,
            ),
{
    let ghost t = tree@;
    let ghost rules = lang.rules();
    let n: usize = tree.len();
    let mut tallies: Vec<Tally> = Vec::new();
    for i in 0..n
        invariant
            t == tree@,
            rules == lang.rules(),
            n == t.len(),
            is_preorder(t),
            in_range(t),
            tallies.len() == i,
            forall|k: int|
                0 <= k < i ==> is_tally(t, rules, #[trigger] tallies@[k], k, i as int),
    {
        proof {
            lemma_parent(t, i as int);
            lemma_owner(t, rules, i as int);
        }
        let weight = match tree.parent(i) {
            Some(p) => {
                assert(is_tally(t, rules, tallies@[p as int], p as int, i as int));
                proof {
                    reveal(is_tally);
                }
                weigh(tree, lang, i, tallies[p].owner, tallies[p].nesting, tallies[p].operator)
            },
            None => weigh(tree, lang, i, None, 0, None),
        };
        let ghost before = tallies@;
        tallies.push(
            Tally {
                owner: weight.owner,
                nesting: weight.inside,
                operator: weight.operator,
                cognitive: 0,
                cyclomatic: 0,
                deepest: 0,
            },
        );
        let ghost widened = tallies@;
        proof {
            lemma_tally_new(t, rules, widened[i as int], weight, i as int);
            assert forall|k: int| 0 <= k < i + 1 implies is_tally(
                t,
                rules,
                #[trigger] widened[k],
                k,
                i as int,
            ) by {
                if k < i {
                    assert(is_tally(t, rules, before[k], k, i as int));
                }
            }
        }
        if let Some(f) = weight.owner {
            proof {
                lemma_tally_credited(t, rules, widened[f as int], weight, f as int, i as int);
            }
            credit(&mut tallies, f, &weight);
        }
        proof {
            assert forall|k: int| 0 <= k < i + 1 implies is_tally(
                t,
                rules,
                #[trigger] tallies@[k],
                k,
                i + 1,
            ) by {
                assert(is_tally(t, rules, widened[k], k, i as int));
                if place(weight.owner) != k {
                    lemma_tally_kept(t, rules, widened[k], k, i as int);
                }
            }
        }
    }
    tallies
}

/// The numbers of a function fit where they are told, but for its cognitive
/// complexity.
pub proof fn lemma_function_bounds(t: Seq<NodeFacts>, rules: Rules, tally: Tally, f: int)
    requires
        0 <= f < t.len() <= u32::MAX,
        (rules.function)(t[f].kind),
        is_tally(t, rules, tally, f, t.len() as int),
    ensures
        tally.cognitive == cognitive_of(t, rules, f),
        tally.cyclomatic + 1 == cyclomatic_of(t, rules, f),
        tally.cyclomatic < u32::MAX,
        tally.deepest == deepest_of(t, rules, f),
        tally.deepest <= u32::MAX,
{
    reveal(is_tally);
    lemma_sums_bound(t, rules, f, t.len() as int);
    lemma_own_node_free(t, rules, f, t.len() as int);
}

/// The node of a function adds nothing to its cyclomatic complexity.
proof fn lemma_own_node_free(t: Seq<NodeFacts>, rules: Rules, f: int, n: int)
    requires
        0 <= f < n <= t.len(),
        (rules.function)(t[f].kind),
    ensures
        cyclomatic_before(t, rules, f, n) < n,
    decreases n,
{
    if n > f + 1 {
        lemma_own_node_free(t, rules, f, n - 1);
    } else {
        assert(cyclomatic_before(t, rules, f, f) == 0);
    }
}

} // verus!

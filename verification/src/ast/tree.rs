//! Syntax trees as lists of nodes in preorder.

use vstd::prelude::*;

verus! {

/// What is known of one node of a syntax tree.
#[verifier::ext_equal]
pub struct NodeFacts {
    /// How many ancestors it has.
    pub depth: nat,
    /// The grammar's name for this sort of node.
    pub kind: Seq<char>,
    /// The role it plays in its parent.
    pub field: Option<Seq<char>>,
    /// Whether it is a rule of the grammar and no mere token.
    pub named: bool,
    /// Whether there is a syntax error in it.
    pub broken: bool,
    pub start_byte: nat,
    pub end_byte: nat,
    pub start_row: nat,
    pub end_row: nat,
}

/// Whether node `i` is no root, and no more than one step below the node before it.
pub open spec fn follows(t: Seq<NodeFacts>, i: int) -> bool {
    0 < t[i].depth <= t[i - 1].depth + 1
}

/// Whether the depths are those of a tree in preorder: one root, and every node
/// no more than one step below the node before it.
pub open spec fn is_preorder(t: Seq<NodeFacts>) -> bool {
    &&& t.len() > 0
    &&& t[0].depth == 0
    &&& forall|i: int| 0 < i < t.len() ==> #[trigger] follows(t, i)
}

/// Whether every node ends where it starts or later, and all line numbers fit.
pub open spec fn in_range(t: Seq<NodeFacts>) -> bool {
    &&& t.len() <= u32::MAX
    &&& forall|i: int|
        0 <= i < t.len() ==> (#[trigger] t[i]).start_byte <= t[i].end_byte && t[i].start_row
            <= t[i].end_row < u32::MAX
}

/// The last node at or before `j` that is less deep than `level`, or -1.
pub open spec fn last_above(t: Seq<NodeFacts>, j: int, level: nat) -> int
    decreases j + 1,
{
    if j < 0 {
        -1
    } else if t[j].depth < level {
        j
    } else {
        last_above(t, j - 1, level)
    }
}

/// The parent of node `i`, or -1 for the root.
pub open spec fn parent_of(t: Seq<NodeFacts>, i: int) -> int {
    last_above(t, i - 1, t[i].depth)
}

/// The first node at or behind `j` that is no deeper than `level`, or the length.
pub open spec fn first_back_at(t: Seq<NodeFacts>, j: int, level: nat) -> int
    decreases t.len() - j,
{
    if j >= t.len() {
        t.len() as int
    } else if t[j].depth <= level {
        j
    } else {
        first_back_at(t, j + 1, level)
    }
}

/// The first node behind `i` and all its descendants.
pub open spec fn end_of(t: Seq<NodeFacts>, i: int) -> int {
    first_back_at(t, i + 1, t[i].depth)
}

/// The children of node `p` among the first `n` nodes, in order.
pub open spec fn children_before(t: Seq<NodeFacts>, p: int, n: int) -> Seq<int>
    decreases n,
{
    if n <= 0 {
        seq![]
    } else if parent_of(t, n - 1) == p {
        children_before(t, p, n - 1).push(n - 1)
    } else {
        children_before(t, p, n - 1)
    }
}

/// The children of node `p`, in order.
pub open spec fn children_of(t: Seq<NodeFacts>, p: int) -> Seq<int> {
    children_before(t, p, t.len() as int)
}

/// The first of the listed nodes that satisfies the condition.
pub open spec fn first_where(
    t: Seq<NodeFacts>,
    list: Seq<int>,
    wanted: spec_fn(NodeFacts) -> bool,
) -> Option<int>
    decreases list.len(),
{
    if list.len() == 0 {
        None
    } else if wanted(t[list[0]]) {
        Some(list[0])
    } else {
        first_where(t, list.drop_first(), wanted)
    }
}

/// The first child of the given kind.
pub open spec fn child_of_kind(t: Seq<NodeFacts>, p: int, kind: Seq<char>) -> Option<int> {
    first_where(t, children_of(t, p), |n: NodeFacts| n.kind == kind)
}

/// The first child in the given role.
pub open spec fn child_in_field(t: Seq<NodeFacts>, p: int, field: Seq<char>) -> Option<int> {
    first_where(t, children_of(t, p), |n: NodeFacts| n.field == Some(field))
}

/// The first child that is named.
pub open spec fn named_child(t: Seq<NodeFacts>, p: int) -> Option<int> {
    first_where(t, children_of(t, p), |n: NodeFacts| n.named)
}

/// The node just before `i` under the same parent.
pub open spec fn previous_sibling(t: Seq<NodeFacts>, i: int) -> Option<int> {
    let earlier = children_before(t, parent_of(t, i), i);
    if parent_of(t, i) < 0 || earlier.len() == 0 {
        None
    } else {
        Some(earlier.last())
    }
}

/// The last of the listed nodes that is named.
pub open spec fn last_named(t: Seq<NodeFacts>, list: Seq<int>) -> Option<int>
    decreases list.len(),
{
    if list.len() == 0 {
        None
    } else if t[list.last()].named {
        Some(list.last())
    } else {
        last_named(t, list.drop_last())
    }
}

/// The last named node before `i` under the same parent.
pub open spec fn previous_named_sibling(t: Seq<NodeFacts>, i: int) -> Option<int> {
    if parent_of(t, i) < 0 {
        None
    } else {
        last_named(t, children_before(t, parent_of(t, i), i))
    }
}

/// Where `last_above` stops.
pub proof fn lemma_last_above(t: Seq<NodeFacts>, j: int, level: nat)
    requires
        -1 <= j < t.len(),
    ensures
        ({
            let p = last_above(t, j, level);
            &&& -1 <= p <= j
            &&& p >= 0 ==> t[p].depth < level
            &&& forall|k: int| p < k <= j && 0 <= k ==> (#[trigger] t[k]).depth >= level
        }),
    decreases j + 1,
{
    if j >= 0 && t[j].depth >= level {
        lemma_last_above(t, j - 1, level);
    }
}

/// `last_above` stops at a node that qualifies with only deeper ones behind it.
pub proof fn lemma_last_above_is(t: Seq<NodeFacts>, j: int, level: nat, p: int)
    requires
        0 <= p <= j < t.len(),
        t[p].depth < level,
        forall|k: int| p < k <= j ==> (#[trigger] t[k]).depth >= level,
    ensures
        last_above(t, j, level) == p,
    decreases j + 1,
{
    if j > p {
        assert(t[j].depth >= level);
        lemma_last_above_is(t, j - 1, level, p);
    }
}

/// Every node but the root has a parent, one step above it, and what lies
/// between the two is no less deep than the child.
pub proof fn lemma_parent(t: Seq<NodeFacts>, i: int)
    requires
        is_preorder(t),
        0 <= i < t.len(),
    ensures
        i == 0 <==> parent_of(t, i) == -1,
        -1 <= parent_of(t, i) < i,
        i > 0 ==> t[parent_of(t, i)].depth == t[i].depth - 1,
        forall|k: int| parent_of(t, i) < k < i ==> (#[trigger] t[k]).depth >= t[i].depth,
{
    lemma_last_above(t, i - 1, t[i].depth);
    let p = parent_of(t, i);
    if i > 0 {
        assert(follows(t, i));
        if p < 0 {
            assert(t[0].depth >= t[i].depth);
        }
        if p + 1 < i {
            assert(t[p + 1].depth >= t[i].depth);
            assert(follows(t, p + 1));
        }
    }
}

/// Where `first_back_at` stops.
pub proof fn lemma_first_back_at(t: Seq<NodeFacts>, j: int, level: nat)
    requires
        0 <= j <= t.len(),
    ensures
        ({
            let e = first_back_at(t, j, level);
            &&& j <= e <= t.len()
            &&& e < t.len() ==> t[e].depth <= level
            &&& forall|k: int| j <= k < e ==> (#[trigger] t[k]).depth > level
        }),
    decreases t.len() - j,
{
    if j < t.len() && t[j].depth > level {
        lemma_first_back_at(t, j + 1, level);
    }
}

/// `first_back_at` stops at the end or at a node that qualifies, with only deeper
/// ones before it.
pub proof fn lemma_first_back_at_is(t: Seq<NodeFacts>, j: int, level: nat, e: int)
    requires
        0 <= j <= e <= t.len(),
        e < t.len() ==> t[e].depth <= level,
        forall|k: int| j <= k < e ==> (#[trigger] t[k]).depth > level,
    ensures
        first_back_at(t, j, level) == e,
    decreases t.len() - j,
{
    if j < e {
        assert(t[j].depth > level);
        lemma_first_back_at_is(t, j + 1, level, e);
    }
}

/// The children of a node lie before its end.
pub proof fn lemma_child_before_end(t: Seq<NodeFacts>, p: int, c: int)
    requires
        is_preorder(t),
        0 <= p < t.len(),
        0 <= c < t.len(),
        parent_of(t, c) == p,
    ensures
        p < c < end_of(t, p),
        t[c].depth == t[p].depth + 1,
{
    lemma_parent(t, c);
    lemma_first_back_at(t, p + 1, t[p].depth);
    let e = end_of(t, p);
    if e < c {
        assert(t[e].depth >= t[c].depth);
    }
}

/// The descendants of a child are no children of its parent.
pub proof fn lemma_not_child(t: Seq<NodeFacts>, c: int, k: int)
    requires
        is_preorder(t),
        0 <= c < k < end_of(t, c),
        c < t.len(),
    ensures
        k < t.len(),
        parent_of(t, k) >= c,
{
    lemma_first_back_at(t, c + 1, t[c].depth);
    lemma_parent(t, k);
    lemma_parent(t, c);
    assert(t[k].depth > t[c].depth);
    if parent_of(t, k) < c {
        assert(t[c].depth >= t[k].depth);
    }
}

/// Nodes that are no children add nothing.
pub proof fn lemma_children_same(t: Seq<NodeFacts>, p: int, a: int, b: int)
    requires
        0 <= a <= b <= t.len(),
        forall|k: int| a <= k < b ==> #[trigger] parent_of(t, k) != p,
    ensures
        children_before(t, p, b) == children_before(t, p, a),
    decreases b - a,
{
    if a < b {
        assert(parent_of(t, b - 1) != p);
        lemma_children_same(t, p, a, b - 1);
    }
}

/// What stands in a list of children.
pub proof fn lemma_children(t: Seq<NodeFacts>, p: int, n: int)
    requires
        0 <= n <= t.len(),
    ensures
        forall|j: int|
            0 <= j < children_before(t, p, n).len() ==> 0 <= #[trigger] children_before(
                t,
                p,
                n,
            )[j] < n && parent_of(t, children_before(t, p, n)[j]) == p,
        forall|c: int|
            0 <= c < n && parent_of(t, c) == p ==> #[trigger] children_before(t, p, n).contains(c),
    decreases n,
{
    if n > 0 {
        lemma_children(t, p, n - 1);
        let a = children_before(t, p, n - 1);
        let b = children_before(t, p, n);
        if parent_of(t, n - 1) == p {
            assert(b == a.push(n - 1));
            assert forall|c: int| 0 <= c < n && parent_of(t, c) == p implies #[trigger] b.contains(
                c,
            ) by {
                if c < n - 1 {
                    assert(a.contains(c));
                    vstd::seq_lib::lemma_seq_contains_after_push(a, n - 1, c);
                } else {
                    assert(b[b.len() - 1] == c);
                }
            }
        } else {
            assert forall|c: int| 0 <= c < n && parent_of(t, c) == p implies #[trigger] b.contains(
                c,
            ) by {
                assert(a.contains(c));
            }
        }
    }
}

/// One node of a syntax tree.
#[derive(Clone, Copy, Debug)]
pub struct SyntaxNode {
    pub depth: usize,
    pub kind: &'static str,
    pub field: Option<&'static str>,
    pub named: bool,
    pub broken: bool,
    pub start_byte: usize,
    pub end_byte: usize,
    pub start_row: usize,
    pub end_row: usize,
}

impl View for SyntaxNode {
    type V = NodeFacts;

    open spec fn view(&self) -> NodeFacts {
        NodeFacts {
            depth: self.depth as nat,
            kind: self.kind@,
            field: match self.field {
                Some(f) => Some(f@),
                None => None,
            },
            named: self.named,
            broken: self.broken,
            start_byte: self.start_byte as nat,
            end_byte: self.end_byte as nat,
            start_row: self.start_row as nat,
            end_row: self.end_row as nat,
        }
    }
}

/// The facts of a list of nodes.
pub open spec fn facts(nodes: Seq<SyntaxNode>) -> Seq<NodeFacts> {
    Seq::new(nodes.len(), |i: int| nodes[i]@)
}

/// A syntax tree: its nodes in preorder, with the parent and the end of each.
pub struct SyntaxTree {
    nodes: Vec<SyntaxNode>,
    parents: Vec<usize>,
    ends: Vec<usize>,
}

impl View for SyntaxTree {
    type V = Seq<NodeFacts>;

    closed spec fn view(&self) -> Seq<NodeFacts> {
        facts(self.nodes@)
    }
}

impl SyntaxTree {
    #[verifier::type_invariant]
    closed spec fn well_formed(self) -> bool {
        let t = facts(self.nodes@);
        &&& is_preorder(t)
        &&& in_range(t)
        &&& self.parents.len() == t.len()
        &&& self.ends.len() == t.len()
        &&& forall|i: int| 0 < i < t.len() ==> #[trigger] self.parents@[i] == parent_of(t, i)
        &&& forall|i: int| 0 <= i < t.len() ==> #[trigger] self.ends@[i] == end_of(t, i)
    }

    /// How many nodes there are: at least the root.
    pub fn len(&self) -> (n: usize)
        ensures
            n == self@.len(),
            is_preorder(self@),
            in_range(self@),
    {
        proof {
            use_type_invariant(self);
        }
        self.nodes.len()
    }

    /// The node at a place in preorder.
    pub fn node(&self, i: usize) -> (node: &SyntaxNode)
        requires
            i < self@.len(),
        ensures
            node@ == self@[i as int],
    {
        &self.nodes[i]
    }

    /// The parent of a node.
    pub fn parent(&self, i: usize) -> (p: Option<usize>)
        requires
            i < self@.len(),
        ensures
            match p {
                Some(k) => k < i && parent_of(self@, i as int) == k,
                None => i == 0 && parent_of(self@, i as int) == -1,
            },
    {
        proof {
            use_type_invariant(self);
            lemma_parent(self@, i as int);
        }
        if i == 0 {
            None
        } else {
            Some(self.parents[i])
        }
    }

    /// The first place behind a node and its descendants.
    pub fn end(&self, i: usize) -> (e: usize)
        requires
            i < self@.len(),
        ensures
            e == end_of(self@, i as int),
            i < e <= self@.len(),
    {
        proof {
            use_type_invariant(self);
            lemma_first_back_at(self@, i + 1, self@[i as int].depth);
        }
        self.ends[i]
    }

    /// The children of a node that come before place `n`.
    pub fn children_before(&self, p: usize, n: usize) -> (list: Vec<usize>)
        requires
            p < self@.len(),
            n <= self@.len(),
        ensures
            places(list@) == children_before(self@, p as int, n as int),
            forall|j: int| 0 <= j < list.len() ==> p < #[trigger] list@[j] < n,
    {
        let ghost t = self@;
        let ghost parent = p as int;
        proof {
            use_type_invariant(self);
            lemma_first_back_at(t, p + 1, t[p as int].depth);
            assert forall|k: int| 0 <= k < p + 1 implies #[trigger] parent_of(t, k) != parent by {
                lemma_parent(t, k);
            }
            assert forall|k: int| end_of(t, parent) <= k < t.len() implies #[trigger] parent_of(
                t,
                k,
            ) != parent by {
                if parent_of(t, k) == parent {
                    lemma_child_before_end(t, parent, k);
                }
            }
        }
        let mut list: Vec<usize> = Vec::new();
        if n <= p {
            proof {
                lemma_children_same(t, parent, 0, n as int);
            }
            return list;
        }
        let last = self.end(p);
        let mut c: usize = p + 1;
        proof {
            lemma_children_same(t, parent, 0, c as int);
            if c < t.len() {
                assert(follows(t, c as int));
            }
        }
        while c < last && c < n
            invariant
                t == self@,
                parent == p,
                p < self@.len(),
                n <= self@.len(),
                is_preorder(t),
                p < c <= last <= t.len(),
                last == end_of(t, parent),
                forall|k: int| last <= k < t.len() ==> #[trigger] parent_of(t, k) != parent,
                t[parent].depth + 1 == if c < last {
                    t[c as int].depth
                } else {
                    t[parent].depth + 1
                },
                c <= n ==> places(list@) == children_before(t, parent, c as int),
                c > n ==> places(list@) == children_before(t, parent, n as int),
                forall|j: int| 0 <= j < list.len() ==> p < #[trigger] list@[j] < n,
            decreases last - c,
        {
            let next = self.end(c);
            proof {
                lemma_first_back_at(t, p + 1, t[parent].depth);
                lemma_first_back_at(t, c + 1, t[c as int].depth);
                lemma_last_above_is(t, c - 1, t[c as int].depth, parent);
                assert forall|k: int| c + 1 <= k < next implies #[trigger] parent_of(t, k)
                    != parent by {
                    lemma_not_child(t, c as int, k);
                }
                let stop = if next <= n {
                    next as int
                } else {
                    n as int
                };
                lemma_children_same(t, parent, c + 1, stop);
                if next > last {
                    assert(t[last as int].depth > t[c as int].depth);
                }
                if next < last {
                    assert(t[next as int].depth > t[parent].depth);
                }
                assert(places(list@.push(c)) == places(list@).push(c as int));
            }
            list.push(c);
            c = next;
        }
        proof {
            if c < n {
                lemma_children_same(t, parent, c as int, n as int);
            }
        }
        list
    }

    /// The children of a node.
    pub fn children(&self, p: usize) -> (list: Vec<usize>)
        requires
            p < self@.len(),
        ensures
            places(list@) == children_of(self@, p as int),
            forall|j: int| 0 <= j < list.len() ==> p < #[trigger] list@[j] < self@.len(),
    {
        let n = self.len();
        self.children_before(p, n)
    }

    /// The first child of a kind.
    pub fn child_of_kind(&self, p: usize, kind: &str) -> (r: Option<usize>)
        requires
            p < self@.len(),
        ensures
            found(r) == child_of_kind(self@, p as int, kind@),
            r matches Some(c) ==> c < self@.len(),
    {
        let list = self.children(p);
        let ghost wanted = |n: NodeFacts| n.kind == kind@;
        let ghost all = places(list@);
        assert(all.skip(0) == all);
        for i in 0..list.len()
            invariant
                all == places(list@),
                wanted == (|n: NodeFacts| n.kind == kind@),
                all == children_of(self@, p as int),
                forall|j: int| 0 <= j < list.len() ==> p < #[trigger] list@[j] < self@.len(),
                child_of_kind(self@, p as int, kind@) == first_where(
                    self@,
                    all.skip(i as int),
                    wanted,
                ),
        {
            assert(all.skip(i as int).drop_first() == all.skip(i + 1));
            let c: usize = list[i];
            if self.node(c).kind.eq(kind) {
                return Some(c);
            }
        }
        None
    }

    /// The first child in a role.
    pub fn child_in_field(&self, p: usize, field: &str) -> (r: Option<usize>)
        requires
            p < self@.len(),
        ensures
            found(r) == child_in_field(self@, p as int, field@),
            r matches Some(c) ==> c < self@.len(),
    {
        let list = self.children(p);
        let ghost wanted = |n: NodeFacts| n.field == Some(field@);
        let ghost all = places(list@);
        assert(all.skip(0) == all);
        for i in 0..list.len()
            invariant
                all == places(list@),
                wanted == (|n: NodeFacts| n.field == Some(field@)),
                all == children_of(self@, p as int),
                forall|j: int| 0 <= j < list.len() ==> p < #[trigger] list@[j] < self@.len(),
                child_in_field(self@, p as int, field@) == first_where(
                    self@,
                    all.skip(i as int),
                    wanted,
                ),
        {
            assert(all.skip(i as int).drop_first() == all.skip(i + 1));
            let c: usize = list[i];
            if let Some(f) = self.node(c).field {
                if f.eq(field) {
                    return Some(c);
                }
            }
        }
        None
    }

    /// The first named child.
    pub fn named_child(&self, p: usize) -> (r: Option<usize>)
        requires
            p < self@.len(),
        ensures
            found(r) == named_child(self@, p as int),
            r matches Some(c) ==> c < self@.len(),
    {
        let list = self.children(p);
        let ghost wanted = |n: NodeFacts| n.named;
        let ghost all = places(list@);
        assert(all.skip(0) == all);
        for i in 0..list.len()
            invariant
                all == places(list@),
                wanted == (|n: NodeFacts| n.named),
                all == children_of(self@, p as int),
                forall|j: int| 0 <= j < list.len() ==> p < #[trigger] list@[j] < self@.len(),
                named_child(self@, p as int) == first_where(self@, all.skip(i as int), wanted),
        {
            assert(all.skip(i as int).drop_first() == all.skip(i + 1));
            let c: usize = list[i];
            if self.node(c).named {
                return Some(c);
            }
        }
        None
    }

    /// The node just before another under the same parent.
    pub fn previous_sibling(&self, i: usize) -> (r: Option<usize>)
        requires
            i < self@.len(),
        ensures
            found(r) == previous_sibling(self@, i as int),
            r matches Some(c) ==> c < i,
    {
        match self.parent(i) {
            None => None,
            Some(p) => {
                let list = self.children_before(p, i);
                let ghost all = places(list@);
                assert(all == children_before(self@, p as int, i as int));
                if list.len() == 0 {
                    None
                } else {
                    assert(all.last() == list@[list.len() - 1]);
                    Some(list[list.len() - 1])
                }
            },
        }
    }

    /// The last named node before another under the same parent.
    pub fn previous_named_sibling(&self, i: usize) -> (r: Option<usize>)
        requires
            i < self@.len(),
        ensures
            found(r) == previous_named_sibling(self@, i as int),
            r matches Some(c) ==> c < i,
    {
        match self.parent(i) {
            None => None,
            Some(p) => {
                let list = self.children_before(p, i);
                let ghost all = places(list@);
                let mut n: usize = list.len();
                assert(all.take(n as int) == all);
                while n > 0
                    invariant
                        n <= list.len(),
                        i < self@.len(),
                        all == places(list@),
                        parent_of(self@, i as int) == p,
                        all == children_before(self@, p as int, i as int),
                        forall|j: int| 0 <= j < list.len() ==> p < #[trigger] list@[j] < i,
                        last_named(self@, all) == last_named(self@, all.take(n as int)),
                    decreases n,
                {
                    let c: usize = list[n - 1];
                    assert(all.take(n as int).last() == c);
                    if self.node(c).named {
                        return Some(c);
                    }
                    assert(all.take(n as int).drop_last() == all.take(n - 1));
                    n = n - 1;
                }
                None
            },
        }
    }

    /// The tree with these nodes, unless they are no tree in preorder or a number
    /// is out of range.
    pub fn from_nodes(nodes: Vec<SyntaxNode>) -> (r: Option<SyntaxTree>)
        ensures
            match r {
                Some(tree) => tree@ == facts(nodes@),
                None => !(is_preorder(facts(nodes@)) && in_range(facts(nodes@))),
            },
    {
        let ghost t = facts(nodes@);
        let n: usize = nodes.len();
        if n == 0 || n as u64 > u32::MAX as u64 || nodes[0].depth != 0 {
            assert(n > 0 ==> t[0].depth == nodes@[0].depth);
            return None;
        }
        assert(t[0].depth == nodes@[0].depth);
        for i in 0..n
            invariant
                n == nodes.len(),
                t == facts(nodes@),
                forall|k: int|
                    0 <= k < i ==> (#[trigger] t[k]).start_byte <= t[k].end_byte && t[k].start_row
                        <= t[k].end_row < u32::MAX,
                forall|k: int| 0 < k < i ==> #[trigger] follows(t, k),
        {
            let node = nodes[i];
            assert(t[i as int] == node@);
            if node.start_byte > node.end_byte || node.start_row > node.end_row || node.end_row
                as u64 >= u32::MAX as u64 {
                assert(!in_range(t));
                return None;
            }
            if i > 0 {
                assert(t[i - 1] == nodes@[i - 1]@);
                if node.depth == 0 || node.depth - 1 > nodes[i - 1].depth {
                    assert(!follows(t, i as int));
                    return None;
                }
            }
        }
        let parents = Self::parent_links(&nodes);
        let ends = Self::end_links(&nodes);
        Some(SyntaxTree { nodes, parents, ends })
    }

    /// The parent of every node but the root.
    fn parent_links(nodes: &Vec<SyntaxNode>) -> (parents: Vec<usize>)
        requires
            is_preorder(facts(nodes@)),
        ensures
            parents.len() == nodes.len(),
            forall|i: int|
                0 < i < nodes.len() ==> #[trigger] parents@[i] == parent_of(facts(nodes@), i),
    {
        let ghost t = facts(nodes@);
        let mut parents: Vec<usize> = Vec::new();
        parents.push(0);
        for i in 1..nodes.len()
            invariant
                t == facts(nodes@),
                is_preorder(t),
                parents.len() == i,
                forall|k: int| 0 < k < i ==> #[trigger] parents@[k] == parent_of(t, k),
        {
            let depth: usize = nodes[i].depth;
            assert(t[i as int].depth == depth);
            assert(follows(t, i as int));
            let mut p: usize = i - 1;
            while nodes[p].depth >= depth
                invariant
                    t == facts(nodes@),
                    is_preorder(t),
                    p < i < nodes.len(),
                    parents.len() == i,
                    0 < depth == t[i as int].depth,
                    forall|k: int| 0 < k < i ==> #[trigger] parents@[k] == parent_of(t, k),
                    forall|k: int| p < k < i ==> (#[trigger] t[k]).depth >= depth,
                decreases p,
            {
                assert(t[p as int] == nodes@[p as int]@);
                proof {
                    lemma_parent(t, p as int);
                }
                p = parents[p];
            }
            assert(t[p as int] == nodes@[p as int]@);
            proof {
                lemma_last_above_is(t, i - 1, depth as nat, p as int);
            }
            parents.push(p);
        }
        parents
    }

    /// The end of every node.
    fn end_links(nodes: &Vec<SyntaxNode>) -> (ends: Vec<usize>)
        ensures
            ends.len() == nodes.len(),
            forall|i: int| 0 <= i < nodes.len() ==> #[trigger] ends@[i] == end_of(facts(nodes@), i),
    {
        let ghost t = facts(nodes@);
        let n: usize = nodes.len();
        let mut ends: Vec<usize> = Vec::new();
        for i in 0..n
            invariant
                ends.len() == i,
        {
            ends.push(n);
        }
        let mut i: usize = n;
        while i > 0
            invariant
                t == facts(nodes@),
                i <= n == nodes.len(),
                ends.len() == n,
                forall|k: int| i <= k < n ==> #[trigger] ends@[k] == end_of(t, k),
            decreases i,
        {
            i = i - 1;
            let depth: usize = nodes[i].depth;
            assert(t[i as int].depth == depth);
            let mut j: usize = i + 1;
            while j < n && nodes[j].depth > depth
                invariant
                    t == facts(nodes@),
                    i < j <= n == nodes.len(),
                    ends.len() == n,
                    depth == t[i as int].depth,
                    forall|k: int| i + 1 <= k < n ==> #[trigger] ends@[k] == end_of(t, k),
                    forall|k: int| i < k < j ==> (#[trigger] t[k]).depth > depth,
                decreases n - j,
            {
                assert(t[j as int] == nodes@[j as int]@);
                proof {
                    lemma_first_back_at(t, j + 1, t[j as int].depth);
                }
                j = ends[j];
            }
            assert(j < n ==> t[j as int] == nodes@[j as int]@);
            proof {
                lemma_first_back_at_is(t, i + 1, depth as nat, j as int);
            }
            ends.set(i, j);
        }
        ends
    }
}

/// A place as an integer.
pub open spec fn found(place: Option<usize>) -> Option<int> {
    match place {
        Some(i) => Some(i as int),
        None => None,
    }
}

/// Places as integers.
pub open spec fn places(list: Seq<usize>) -> Seq<int> {
    Seq::new(list.len(), |i: int| list[i] as int)
}

} // verus!

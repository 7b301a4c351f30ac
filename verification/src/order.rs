//! Orders and stable sorting.

use vstd::prelude::*;

verus! {

/// The order of strings: by their first differing character, a proper prefix
/// before what it is a prefix of.
pub open spec fn text_le(a: Seq<char>, b: Seq<char>) -> bool
    decreases a.len(),
{
    if a.len() == 0 {
        true
    } else if b.len() == 0 {
        false
    } else if a[0] != b[0] {
        a[0] < b[0]
    } else {
        text_le(a.drop_first(), b.drop_first())
    }
}

/// `a` comes before `b` and is not `b`.
pub open spec fn text_lt(a: Seq<char>, b: Seq<char>) -> bool {
    text_le(a, b) && a != b
}

/// The order of strings is reflexive.
pub proof fn lemma_text_le_reflexive(a: Seq<char>)
    ensures
        text_le(a, a),
    decreases a.len(),
{
    if a.len() > 0 {
        lemma_text_le_reflexive(a.drop_first());
    }
}

/// Of two strings, one comes first.
pub proof fn lemma_text_le_total(a: Seq<char>, b: Seq<char>)
    ensures
        text_le(a, b) || text_le(b, a),
    decreases a.len(),
{
    if a.len() > 0 && b.len() > 0 && a[0] == b[0] {
        lemma_text_le_total(a.drop_first(), b.drop_first());
    }
}

/// Two strings that come before each other are the same.
pub proof fn lemma_text_le_antisymmetric(a: Seq<char>, b: Seq<char>)
    requires
        text_le(a, b),
        text_le(b, a),
    ensures
        a == b,
    decreases a.len(),
{
    if a.len() > 0 && b.len() > 0 {
        lemma_text_le_antisymmetric(a.drop_first(), b.drop_first());
        assert(a == seq![a[0]] + a.drop_first());
        assert(b == seq![b[0]] + b.drop_first());
    } else {
        assert(a == b);
    }
}

/// The order of strings is transitive.
pub proof fn lemma_text_le_transitive(a: Seq<char>, b: Seq<char>, c: Seq<char>)
    requires
        text_le(a, b),
        text_le(b, c),
    ensures
        text_le(a, c),
    decreases a.len(),
{
    if a.len() > 0 && b.len() > 0 && c.len() > 0 && a[0] == b[0] && b[0] == c[0] {
        lemma_text_le_transitive(a.drop_first(), b.drop_first(), c.drop_first());
    }
}

/// Whether `a` is `b` or comes before it.
pub fn text_at_most(a: &str, b: &str) -> (r: bool)
    ensures
        r == text_le(a@, b@),
{
    let mut xs = a.chars();
    let mut ys = b.chars();
    loop
        invariant
            text_le(a@, b@) == text_le(
                vstd::std_specs::iter::IteratorSpec::remaining(&xs),
                vstd::std_specs::iter::IteratorSpec::remaining(&ys),
            ),
            vstd::std_specs::iter::IteratorSpec::decrease(&xs) is Some,
        decreases vstd::std_specs::iter::IteratorSpec::decrease(&xs)->0,
    {
        let x = xs.next();
        let y = ys.next();
        match (x, y) {
            (None, _) => {
                return true;
            },
            (Some(_), None) => {
                return false;
            },
            (Some(p), Some(q)) => {
                if p != q {
                    return p < q;
                }
            },
        }
    }
}

/// An order in which values can be sorted. Values that come before each other
/// need not be equal.
pub trait Ranking<T> {
    /// `a` may stand before `b`.
    spec fn at_most(&self, a: T, b: T) -> bool;

    proof fn lemma_total(&self, a: T, b: T)
        ensures
            self.at_most(a, b) || self.at_most(b, a),
    ;

    proof fn lemma_transitive(&self, a: T, b: T, c: T)
        requires
            self.at_most(a, b),
            self.at_most(b, c),
        ensures
            self.at_most(a, c),
    ;

    fn in_order(&self, a: &T, b: &T) -> (r: bool)
        ensures
            r == self.at_most(*a, *b),
    ;
}

/// `order` lists the positions `0..n`, each of them once.
pub open spec fn is_arrangement(order: Seq<int>, n: nat) -> bool {
    &&& order.len() == n
    &&& forall|i: int| 0 <= i < order.len() ==> 0 <= #[trigger] order[i] < n
    &&& forall|i: int, j: int|
        0 <= i < j < order.len() ==> #[trigger] order[i] != #[trigger] order[j]
}

/// `output` is `input` arranged by `order`: in the order of `rank`, and what
/// `rank` does not tell apart in the order of `input`.
pub open spec fn is_stable_arrangement<T, R: Ranking<T>>(
    rank: &R,
    input: Seq<T>,
    output: Seq<T>,
    order: Seq<int>,
) -> bool {
    &&& is_arrangement(order, input.len())
    &&& output.len() == input.len()
    &&& forall|i: int| 0 <= i < output.len() ==> #[trigger] output[i] == input[order[i]]
    &&& forall|i: int, j: int|
        #![trigger output[i], output[j]]
        0 <= i < j < output.len() ==> rank.at_most(output[i], output[j]) && (rank.at_most(
            output[j],
            output[i],
        ) ==> order[i] < order[j])
}

/// `output` is the stable sort of `input`.
pub open spec fn is_stable_sort<T, R: Ranking<T>>(rank: &R, input: Seq<T>, output: Seq<T>) -> bool {
    exists|order: Seq<int>| is_stable_arrangement(rank, input, output, order)
}

/// In a list of `n` distinct positions below `n`, every position occurs.
pub proof fn lemma_arrangement_covers(order: Seq<int>, n: nat, k: int)
    requires
        is_arrangement(order, n),
        0 <= k < n,
    ensures
        exists|i: int| 0 <= i < order.len() && order[i] == k,
{
    if !(exists|i: int| 0 <= i < order.len() && order[i] == k) {
        let seen = order.to_set();
        let all = vstd::set_lib::set_int_range(0, n as int);
        vstd::set_lib::lemma_int_range(0, n as int);
        assert(order.no_duplicates());
        order.unique_seq_to_set();
        assert(seen.subset_of(all.remove(k))) by {
            assert forall|x: int| seen.contains(x) implies all.remove(k).contains(x) by {
                let i = choose|i: int| 0 <= i < order.len() && order[i] == x;
                assert(0 <= order[i] < n);
            }
        }
        vstd::set_lib::lemma_len_subset(seen, all.remove(k));
    }
}

/// Sorting loses nothing and adds nothing.
pub proof fn lemma_stable_sort_keeps<T, R: Ranking<T>>(
    rank: &R,
    input: Seq<T>,
    output: Seq<T>,
    x: T,
)
    requires
        is_stable_sort(rank, input, output),
    ensures
        output.len() == input.len(),
        output.contains(x) <==> input.contains(x),
{
    let order = choose|order: Seq<int>| is_stable_arrangement(rank, input, output, order);
    if output.contains(x) {
        let i = choose|i: int| 0 <= i < output.len() && output[i] == x;
        assert(input[order[i]] == x);
    }
    if input.contains(x) {
        let k = choose|k: int| 0 <= k < input.len() && input[k] == x;
        lemma_arrangement_covers(order, input.len(), k);
        let i = choose|i: int| 0 <= i < order.len() && order[i] == k;
        assert(output[i] == x);
    }
}

/// There is only one stable sort: the same input always gives the same output.
pub proof fn lemma_stable_sort_unique<T, R: Ranking<T>>(
    rank: &R,
    input: Seq<T>,
    left: Seq<T>,
    right: Seq<T>,
)
    requires
        is_stable_sort(rank, input, left),
        is_stable_sort(rank, input, right),
    ensures
        left == right,
{
    let p = choose|order: Seq<int>| is_stable_arrangement(rank, input, left, order);
    let q = choose|order: Seq<int>| is_stable_arrangement(rank, input, right, order);
    assert forall|i: int| 0 <= i < p.len() implies p[i] == q[i] by {
        lemma_same_arrangement(rank, input, left, p, right, q, i);
    }
    assert(left =~= right);
}

/// Two stable arrangements of one input agree at every position.
proof fn lemma_same_arrangement<T, R: Ranking<T>>(
    rank: &R,
    input: Seq<T>,
    left: Seq<T>,
    p: Seq<int>,
    right: Seq<T>,
    q: Seq<int>,
    n: int,
)
    requires
        is_stable_arrangement(rank, input, left, p),
        is_stable_arrangement(rank, input, right, q),
        0 <= n < p.len(),
    ensures
        p[n] == q[n],
    decreases n,
{
    assert forall|i: int| 0 <= i < n implies p[i] == q[i] by {
        lemma_same_arrangement(rank, input, left, p, right, q, i);
    }
    if p[n] != q[n] {
        lemma_arrangement_covers(q, input.len(), p[n]);
        let a = choose|a: int| 0 <= a < q.len() && q[a] == p[n];
        lemma_arrangement_covers(p, input.len(), q[n]);
        let b = choose|b: int| 0 <= b < p.len() && p[b] == q[n];
        assert(a > n) by {
            if a < n {
                assert(p[a] == q[a]);
                assert(p[a] != p[n]);
            }
        }
        assert(b > n) by {
            if b < n {
                assert(p[b] == q[b]);
                assert(q[b] != q[n]);
            }
        }
        assert(left[n] == input[p[n]] && left[b] == input[q[n]]);
        assert(right[n] == input[q[n]] && right[a] == input[p[n]]);
        assert(rank.at_most(left[n], left[b]));
        assert(rank.at_most(right[n], right[a]));
        assert(p[n] < p[b]);
        assert(q[n] < q[a]);
    }
}

/// Whether every value may stand before every later one.
pub open spec fn is_ranked<T, R: Ranking<T>>(rank: &R, s: Seq<T>) -> bool {
    forall|i: int, j: int|
        #![trigger s[i], s[j]]
        0 <= i < j < s.len() ==> rank.at_most(s[i], s[j])
}

/// Merges two ranked lists; of values that are not told apart, those of `left`
/// come first.
fn merge<T, R: Ranking<T>>(rank: &R, left: Vec<T>, right: Vec<T>) -> (out: Vec<T>)
    requires
        is_ranked(rank, left@),
        is_ranked(rank, right@),
        left.len() + right.len() <= usize::MAX,
    ensures
        is_stable_sort(rank, left@ + right@, out@),
{
    let ghost ls = left@;
    let ghost rs = right@;
    let ghost all = ls + rs;
    let mut left = left;
    let mut right = right;
    let mut back: Vec<T> = Vec::new();
    // `order[k]` is the position in `all` of the value that `back[k]` holds.
    let ghost mut order: Seq<int> = Seq::empty();
    while left.len() > 0 || right.len() > 0
        invariant
            all == ls + rs,
            is_ranked(rank, ls),
            is_ranked(rank, rs),
            left.len() <= ls.len(),
            right.len() <= rs.len(),
            left@ == ls.take(left.len() as int),
            right@ == rs.take(right.len() as int),
            back.len() == order.len(),
            back.len() + left.len() + right.len() == all.len(),
            forall|k: int| 0 <= k < back.len() ==> #[trigger] back@[k] == all[order[k]],
            forall|k: int|
                0 <= k < order.len() ==> left.len() <= #[trigger] order[k] < ls.len() || ls.len()
                    + right.len() <= order[k] < all.len(),
            forall|k: int, m: int|
                0 <= k < m < order.len() ==> #[trigger] order[k] != #[trigger] order[m],
            // later in `back` is earlier in the result
            forall|k: int, m: int|
                #![trigger back@[k], back@[m]]
                0 <= k < m < back.len() ==> rank.at_most(back@[m], back@[k]) && (rank.at_most(
                    back@[k],
                    back@[m],
                ) ==> order[m] < order[k]),
            forall|k: int, m: int|
                #![trigger back@[k], left@[m]]
                0 <= k < back.len() && 0 <= m < left.len() ==> rank.at_most(left@[m], back@[k]),
            forall|k: int, m: int|
                #![trigger back@[k], right@[m]]
                0 <= k < back.len() && 0 <= m < right.len() ==> rank.at_most(right@[m], back@[k])
                    && (rank.at_most(back@[k], right@[m]) ==> order[k] >= ls.len()),
        decreases left.len() + right.len(),
    {
        let from_left = if right.len() == 0 {
            true
        } else if left.len() == 0 {
            false
        } else {
            !rank.in_order(&left[left.len() - 1], &right[right.len() - 1])
        };
        let ghost l0 = left@;
        let ghost r0 = right@;
        let ghost b0 = back@;
        let ghost o0 = order;
        if from_left {
            let ghost at = left.len() - 1;
            let taken = left.pop().unwrap();
            proof {
                assert(all[at] == taken);
                order = order.push(at);
                if right.len() > 0 {
                    rank.lemma_total(l0[at], r0[r0.len() - 1]);
                }
                assert forall|m: int| 0 <= m < right.len() implies rank.at_most(
                    #[trigger] right@[m],
                    taken,
                ) && !rank.at_most(taken, right@[m]) by {
                    let last = r0.len() - 1;
                    if m < last {
                        assert(rs[m] == right@[m] && rs[last] == right@[last]);
                        rank.lemma_transitive(right@[m], right@[last], taken);
                        if rank.at_most(taken, right@[m]) {
                            rank.lemma_transitive(taken, right@[m], right@[last]);
                        }
                    }
                }
                assert forall|m: int| 0 <= m < left.len() implies rank.at_most(
                    #[trigger] left@[m],
                    taken,
                ) by {
                    assert(ls[m] == left@[m] && ls[at] == taken);
                }
                assert forall|k: int| 0 <= k < b0.len() implies rank.at_most(
                    taken,
                    #[trigger] b0[k],
                ) && (rank.at_most(b0[k], taken) ==> at < o0[k]) by {
                    assert(l0[at] == taken);
                    assert(o0[k] >= l0.len());
                }
            }
            back.push(taken);
        } else {
            let ghost at = right.len() - 1;
            let taken = right.pop().unwrap();
            proof {
                assert(all[ls.len() + at] == taken);
                order = order.push(ls.len() + at);
                assert forall|m: int| 0 <= m < left.len() implies rank.at_most(
                    #[trigger] left@[m],
                    taken,
                ) by {
                    let last = l0.len() - 1;
                    if m < last {
                        assert(ls[m] == left@[m] && ls[last] == left@[last]);
                        rank.lemma_transitive(left@[m], left@[last], taken);
                    }
                }
                assert forall|m: int| 0 <= m < right.len() implies rank.at_most(
                    #[trigger] right@[m],
                    taken,
                ) by {
                    assert(rs[m] == right@[m] && rs[at] == taken);
                }
                assert forall|k: int| 0 <= k < b0.len() implies rank.at_most(
                    taken,
                    #[trigger] b0[k],
                ) && (rank.at_most(b0[k], taken) ==> ls.len() + at < o0[k]) by {
                    assert(r0[at] == taken);
                    assert(o0[k] < ls.len() || o0[k] >= ls.len() + r0.len());
                }
            }
            back.push(taken);
        }
    }
    let ghost total = back.len();
    let ghost whole = back@;
    let mut out: Vec<T> = Vec::new();
    while back.len() > 0
        invariant
            back.len() + out.len() == total,
            total == whole.len(),
            back@ == whole.take(back.len() as int),
            forall|k: int|
                0 <= k < out.len() ==> #[trigger] out@[k] == whole[total - 1 - k],
        decreases back.len(),
    {
        let next = back.pop().unwrap();
        out.push(next);
    }
    proof {
        let reversed = Seq::new(order.len(), |k: int| order[order.len() - 1 - k]);
        assert(is_stable_arrangement(rank, all, out@, reversed));
    }
    out
}

/// The stable sort of the parts, merged, is the stable sort of the whole.
proof fn lemma_merge_parts<T, R: Ranking<T>>(
    rank: &R,
    left: Seq<T>,
    right: Seq<T>,
    sorted_left: Seq<T>,
    sorted_right: Seq<T>,
    out: Seq<T>,
)
    requires
        is_stable_sort(rank, left, sorted_left),
        is_stable_sort(rank, right, sorted_right),
        is_stable_sort(rank, sorted_left + sorted_right, out),
    ensures
        is_stable_sort(rank, left + right, out),
{
    let p = choose|order: Seq<int>| is_stable_arrangement(rank, left, sorted_left, order);
    let q = choose|order: Seq<int>| is_stable_arrangement(rank, right, sorted_right, order);
    let middle = sorted_left + sorted_right;
    let o = choose|order: Seq<int>| is_stable_arrangement(rank, middle, out, order);
    let n = left.len();
    let m = Seq::new(middle.len(), |i: int| if i < n { p[i] } else { n + q[i - n] });
    let order = Seq::new(out.len(), |i: int| m[o[i]]);
    let input = left + right;
    assert forall|i: int| 0 <= i < m.len() implies 0 <= #[trigger] m[i] < input.len() && middle[i]
        == input[m[i]] && (i < n <==> m[i] < n) by {
        if i < n {
            assert(sorted_left[i] == left[p[i]]);
            assert(0 <= p[i] < n);
        } else {
            assert(sorted_right[i - n] == right[q[i - n]]);
            assert(0 <= q[i - n] < right.len());
        }
    }
    assert forall|i: int, j: int| 0 <= i < j < m.len() implies #[trigger] m[i] != #[trigger] m[j] by {
        if i < n && j < n {
            assert(p[i] != p[j]);
        } else if i >= n && j >= n {
            assert(q[i - n] != q[j - n]);
        }
    }
    assert forall|i: int, j: int| 0 <= i < j < out.len() implies #[trigger] order[i]
        != #[trigger] order[j] by {
        assert(o[i] != o[j]);
        assert(m[o[i]] != m[o[j]]);
    }
    assert forall|i: int| 0 <= i < out.len() implies 0 <= #[trigger] order[i] < input.len()
        && out[i] == input[order[i]] by {
        assert(out[i] == middle[o[i]]);
        assert(0 <= m[o[i]] < input.len());
    }
    assert forall|i: int, j: int|
        #![trigger out[i], out[j]]
        0 <= i < j < out.len() && rank.at_most(out[j], out[i]) implies order[i] < order[j] by {
        let a = o[i];
        let b = o[j];
        assert(a < b);
        assert(out[i] == middle[a] && out[j] == middle[b]);
        assert(m[a] == order[i] && m[b] == order[j]);
        if a < n && b < n {
            assert(sorted_left[a] == out[i] && sorted_left[b] == out[j]);
        } else if a >= n && b >= n {
            assert(sorted_right[a - n] == out[i] && sorted_right[b - n] == out[j]);
        }
    }
    assert(is_stable_arrangement(rank, input, out, order));
}

/// A list of at most one value is its own stable sort.
proof fn lemma_short_sort<T, R: Ranking<T>>(rank: &R, s: Seq<T>)
    requires
        s.len() <= 1,
    ensures
        is_stable_sort(rank, s, s),
{
    let order = Seq::new(s.len(), |i: int| i);
    assert(is_stable_arrangement(rank, s, s, order));
}

/// Sorts `values` in the order of `rank`; values that `rank` does not tell
/// apart keep their order.
pub fn stable_sort<T, R: Ranking<T>>(rank: &R, values: Vec<T>) -> (out: Vec<T>)
    ensures
        is_stable_sort(rank, values@, out@),
    decreases values.len(),
{
    let ghost input = values@;
    if values.len() <= 1 {
        proof {
            lemma_short_sort(rank, input);
        }
        return values;
    }
    let mut left = values;
    let middle: usize = left.len() / 2;
    let right = left.split_off(middle);
    let ghost l = left@;
    let ghost r = right@;
    let sorted_left = stable_sort(rank, left);
    let sorted_right = stable_sort(rank, right);
    proof {
        assert(l + r == input);
    }
    let out = merge(rank, sorted_left, sorted_right);
    proof {
        lemma_merge_parts(rank, l, r, sorted_left@, sorted_right@, out@);
    }
    out
}

/// Where two lists are ranked alike, sorting moves their values alike: the order in
/// which those of the one come is the order in which those of the other come.
pub proof fn lemma_sorts_alike<T, R: Ranking<T>>(
    rank: &R,
    a: Seq<T>,
    b: Seq<T>,
    x: Seq<T>,
    y: Seq<T>,
) -> (order: Seq<int>)
    requires
        a.len() == b.len(),
        forall|i: int, j: int|
            #![trigger a[i], a[j]]
            0 <= i < a.len() && 0 <= j < a.len() ==> rank.at_most(a[i], a[j]) == rank.at_most(
                b[i],
                b[j],
            ),
        is_stable_sort(rank, a, x),
        is_stable_sort(rank, b, y),
    ensures
        is_arrangement(order, a.len()),
        x.len() == a.len(),
        y.len() == a.len(),
        forall|i: int| 0 <= i < a.len() ==> #[trigger] x[i] == a[order[i]],
        forall|i: int| 0 <= i < a.len() ==> #[trigger] y[i] == b[order[i]],
{
    let order = choose|order: Seq<int>| is_stable_arrangement(rank, b, y, order);
    let moved = Seq::new(a.len(), |i: int| a[order[i]]);
    assert(is_stable_arrangement(rank, a, moved, order)) by {
        assert forall|i: int, j: int|
            #![trigger moved[i], moved[j]]
            0 <= i < j < moved.len() implies rank.at_most(moved[i], moved[j]) && (rank.at_most(
            moved[j],
            moved[i],
        ) ==> order[i] < order[j]) by {
            assert(0 <= order[i] < b.len() && 0 <= order[j] < b.len());
            assert(y[i] == b[order[i]] && y[j] == b[order[j]]);
            assert(moved[i] == a[order[i]] && moved[j] == a[order[j]]);
        }
    }
    lemma_stable_sort_unique(rank, a, x, moved);
    order
}

/// A list from its end to its start.
pub fn reversed<T>(list: Vec<T>) -> (r: Vec<T>)
    ensures
        r@ == list@.reverse(),
{
    let ghost all = list@;
    let mut rest = list;
    let mut r: Vec<T> = Vec::new();
    while rest.len() > 0
        invariant
            rest.len() + r.len() == all.len(),
            rest@ == all.take(rest.len() as int),
            r@ == all.reverse().take(r.len() as int),
        decreases rest.len(),
    {
        if let Some(last) = rest.pop() {
            r.push(last);
        }
        assert(r@ == all.reverse().take(r.len() as int));
    }
    assert(all.reverse().take(r.len() as int) == all.reverse());
    r
}

/// Where the rank tells all values apart, it does not matter in which order they
/// come: the sorted list is the same.
pub proof fn lemma_sort_ignores_arrival<T, R: Ranking<T>>(
    rank: &R,
    a: Seq<T>,
    b: Seq<T>,
    order: Seq<int>,
    x: Seq<T>,
    y: Seq<T>,
)
    requires
        is_arrangement(order, a.len()),
        b.len() == a.len(),
        forall|i: int| 0 <= i < b.len() ==> #[trigger] b[i] == a[order[i]],
        forall|i: int, j: int|
            #![trigger a[i], a[j]]
            0 <= i < j < a.len() ==> !(rank.at_most(a[i], a[j]) && rank.at_most(a[j], a[i])),
        is_stable_sort(rank, a, x),
        is_stable_sort(rank, b, y),
    ensures
        x == y,
{
    let inner = choose|inner: Seq<int>| is_stable_arrangement(rank, b, y, inner);
    let whole = Seq::new(a.len(), |i: int| order[inner[i]]);
    assert(is_stable_arrangement(rank, a, y, whole)) by {
        assert forall|i: int| 0 <= i < whole.len() implies 0 <= #[trigger] whole[i] < a.len() by {
            assert(0 <= inner[i] < b.len());
            assert(0 <= order[inner[i]] < a.len());
        }
        assert forall|i: int, j: int| 0 <= i < j < whole.len() implies #[trigger] whole[i]
            != #[trigger] whole[j] by {
            assert(inner[i] != inner[j]);
            assert(0 <= inner[i] < b.len() && 0 <= inner[j] < b.len());
            if inner[i] < inner[j] {
                assert(order[inner[i]] != order[inner[j]]);
            } else {
                assert(order[inner[j]] != order[inner[i]]);
            }
        }
        assert forall|i: int| 0 <= i < y.len() implies #[trigger] y[i] == a[whole[i]] by {
            assert(y[i] == b[inner[i]]);
            assert(0 <= inner[i] < b.len());
            assert(b[inner[i]] == a[order[inner[i]]]);
        }
        assert forall|i: int, j: int|
            #![trigger y[i], y[j]]
            0 <= i < j < y.len() implies rank.at_most(y[i], y[j]) && (rank.at_most(y[j], y[i])
            ==> whole[i] < whole[j]) by {
            assert(y[i] == a[whole[i]] && y[j] == a[whole[j]]);
            assert(whole[i] != whole[j]);
        }
    }
    lemma_stable_sort_unique(rank, a, x, y);
}

/// The positions of the values that satisfy a condition.
pub open spec fn places_where<T>(values: Seq<T>, wanted: spec_fn(T) -> bool) -> Set<int> {
    Set::new(|i: int| 0 <= i < values.len() && wanted(values[i]))
}

/// How many of the values satisfy a condition.
pub open spec fn how_many<T>(values: Seq<T>, wanted: spec_fn(T) -> bool) -> nat {
    places_where(values, wanted).len()
}

/// Where just the first values of a sorted list satisfy a condition, that many of
/// the values that were sorted do.
pub proof fn lemma_sorted_count<T, R: Ranking<T>>(
    rank: &R,
    input: Seq<T>,
    output: Seq<T>,
    wanted: spec_fn(T) -> bool,
    n: int,
)
    requires
        is_stable_sort(rank, input, output),
        0 <= n <= output.len(),
        forall|i: int| 0 <= i < n ==> wanted(#[trigger] output[i]),
        forall|i: int| n <= i < output.len() ==> !wanted(#[trigger] output[i]),
    ensures
        how_many(input, wanted) == n,
{
    let order = choose|order: Seq<int>| is_stable_arrangement(rank, input, output, order);
    let first = order.take(n);
    assert(first.no_duplicates());
    first.unique_seq_to_set();
    assert forall|k: int| first.to_set().contains(k) <==> places_where(input, wanted).contains(
        k,
    ) by {
        if first.to_set().contains(k) {
            let i = choose|i: int| 0 <= i < first.len() && first[i] == k;
            assert(order[i] == k);
            assert(wanted(output[i]));
        }
        if places_where(input, wanted).contains(k) {
            lemma_arrangement_covers(order, input.len(), k);
            let i = choose|i: int| 0 <= i < order.len() && order[i] == k;
            assert(output[i] == input[k]);
            assert(i < n);
            assert(first[i] == k);
        }
    }
    assert(first.to_set() =~= places_where(input, wanted));
}

/// As many values satisfy a condition however they are arranged.
pub proof fn lemma_arranged_count<T>(
    a: Seq<T>,
    b: Seq<T>,
    order: Seq<int>,
    wanted: spec_fn(T) -> bool,
)
    requires
        is_arrangement(order, a.len()),
        b.len() == a.len(),
        forall|i: int| 0 <= i < b.len() ==> #[trigger] b[i] == a[order[i]],
    ensures
        how_many(a, wanted) == how_many(b, wanted),
        places_where(a, wanted).finite(),
        places_where(b, wanted).finite(),
{
    let f = |i: int| order[i];
    let x = places_where(b, wanted);
    let y = places_where(a, wanted);
    let range = vstd::set_lib::set_int_range(0, b.len() as int);
    vstd::set_lib::lemma_int_range(0, b.len() as int);
    assert(x.subset_of(range));
    vstd::set_lib::lemma_len_subset(x, range);
    assert forall|k: int| #[trigger] x.map(f).contains(k) <==> y.contains(k) by {
        if x.map(f).contains(k) {
            let i = choose|i: int| x.contains(i) && k == f(i);
            assert(b[i] == a[order[i]]);
        }
        if y.contains(k) {
            lemma_arrangement_covers(order, a.len(), k);
            let i = choose|i: int| 0 <= i < order.len() && order[i] == k;
            assert(b[i] == a[order[i]]);
            assert(x.contains(i) && k == f(i));
        }
    }
    assert(x.map(f) =~= y);
    assert(vstd::relations::injective_on(f, x)) by {
        assert forall|i: int, j: int| x.contains(i) && x.contains(j) && #[trigger] f(i)
            == #[trigger] f(j) implies i == j by {
            if i < j {
                assert(order[i] != order[j]);
            } else if j < i {
                assert(order[j] != order[i]);
            }
        }
    }
    vstd::set_lib::lemma_map_size(x, y, f);
}

/// In two sorted arrangements of the same values no value stands before another one
/// that takes its place in the other.
proof fn lemma_no_earlier<T, R: Ranking<T>>(
    rank: &R,
    a: Seq<T>,
    b: Seq<T>,
    order: Seq<int>,
    x: Seq<T>,
    y: Seq<T>,
    i: int,
)
    requires
        is_arrangement(order, a.len()),
        b.len() == a.len(),
        forall|k: int| 0 <= k < b.len() ==> #[trigger] b[k] == a[order[k]],
        is_stable_sort(rank, a, x),
        is_stable_sort(rank, b, y),
        0 <= i < a.len(),
    ensures
        rank.at_most(y[i], x[i]),
{
    if !rank.at_most(y[i], x[i]) {
        let p = choose|p: Seq<int>| is_stable_arrangement(rank, a, x, p);
        let q = choose|q: Seq<int>| is_stable_arrangement(rank, b, y, q);
        let wanted = |v: T| rank.at_most(v, x[i]);
        lemma_arranged_count(a, x, p, wanted);
        lemma_arranged_count(b, y, q, wanted);
        lemma_arranged_count(a, b, order, wanted);
        let first = vstd::set_lib::set_int_range(0, i + 1);
        vstd::set_lib::lemma_int_range(0, i + 1);
        assert forall|k: int| first.contains(k) implies places_where(x, wanted).contains(k) by {
            if k < i {
                assert(rank.at_most(x[k], x[i]));
            } else {
                rank.lemma_total(x[i], x[i]);
            }
        }
        assert(first.subset_of(places_where(x, wanted)));
        vstd::set_lib::lemma_len_subset(first, places_where(x, wanted));
        let fewer = vstd::set_lib::set_int_range(0, i);
        vstd::set_lib::lemma_int_range(0, i);
        assert forall|k: int| places_where(y, wanted).contains(k) implies fewer.contains(k) by {
            if k > i {
                assert(rank.at_most(y[i], y[k]));
                rank.lemma_transitive(y[i], y[k], x[i]);
            }
        }
        assert(places_where(y, wanted).subset_of(fewer));
        vstd::set_lib::lemma_len_subset(places_where(y, wanted), fewer);
    }
}

/// Where values that rank alike are the same, sorting gives the same list however
/// the values are arranged.
pub proof fn lemma_sort_ignores_arrangement<T, R: Ranking<T>>(
    rank: &R,
    a: Seq<T>,
    b: Seq<T>,
    order: Seq<int>,
    x: Seq<T>,
    y: Seq<T>,
)
    requires
        is_arrangement(order, a.len()),
        b.len() == a.len(),
        forall|i: int| 0 <= i < b.len() ==> #[trigger] b[i] == a[order[i]],
        forall|u: T, v: T| #[trigger]
            rank.at_most(u, v) && #[trigger] rank.at_most(v, u) ==> u == v,
        is_stable_sort(rank, a, x),
        is_stable_sort(rank, b, y),
    ensures
        x == y,
{
    let back = lemma_arrangement_inverse(order, a.len());
    assert forall|k: int| 0 <= k < a.len() implies #[trigger] a[k] == b[back[k]] by {
        assert(order[back[k]] == k);
        assert(0 <= back[k] < b.len());
    }
    assert forall|i: int| 0 <= i < x.len() implies x[i] == y[i] by {
        lemma_no_earlier(rank, a, b, order, x, y, i);
        lemma_no_earlier(rank, b, a, back, y, x, i);
    }
    assert(x =~= y);
}

/// What an arrangement arranged can be arranged back.
proof fn lemma_arrangement_inverse(order: Seq<int>, n: nat) -> (back: Seq<int>)
    requires
        is_arrangement(order, n),
    ensures
        is_arrangement(back, n),
        forall|k: int| 0 <= k < n ==> #[trigger] order[back[k]] == k,
{
    let back = Seq::new(n, |k: int| choose|i: int| 0 <= i < order.len() && order[i] == k);
    assert forall|k: int| 0 <= k < n implies 0 <= #[trigger] back[k] < n && order[back[k]] == k by {
        lemma_arrangement_covers(order, n, k);
    }
    back
}

} // verus!

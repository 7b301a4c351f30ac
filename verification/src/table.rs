//! Sets of strings and maps from strings, kept in the order of the strings so
//! that walking them always gives the same sequence.

use crate::order::{
    is_stable_sort, lemma_stable_sort_keeps, lemma_text_le_antisymmetric, lemma_text_le_reflexive,
    lemma_text_le_total, lemma_text_le_transitive, reversed, stable_sort, text_at_most, text_le,
    text_lt, Ranking,
};
use crate::text::views;
use vstd::prelude::*;

verus! {

/// Each string comes strictly before all later ones; in particular none occurs
/// twice.
pub open spec fn ascending(list: Seq<Seq<char>>) -> bool {
    forall|i: int, j: int|
        #![trigger list[i], list[j]]
        0 <= i < j < list.len() ==> text_lt(list[i], list[j])
}

/// An ascending list holds no string twice.
pub proof fn lemma_ascending_distinct(list: Seq<Seq<char>>)
    requires
        ascending(list),
    ensures
        list.no_duplicates(),
        list.to_set().len() == list.len(),
        list.to_set().finite(),
{
    assert forall|i: int, j: int| 0 <= i < list.len() && 0 <= j < list.len() && i != j implies list[i]
        != list[j] by {
        if i < j {
            assert(text_lt(list[i], list[j]));
        } else {
            assert(text_lt(list[j], list[i]));
        }
    }
    list.unique_seq_to_set();
}

/// A set of strings has only one ascending list.
pub proof fn lemma_ascending_unique(a: Seq<Seq<char>>, b: Seq<Seq<char>>)
    requires
        ascending(a),
        ascending(b),
        forall|x: Seq<char>| #[trigger] a.contains(x) <==> b.contains(x),
    ensures
        a == b,
    decreases a.len(),
{
    if a.len() == 0 {
        if b.len() > 0 {
            assert(b.contains(b[0]));
            assert(a.contains(b[0]));
        }
        assert(a == b);
    } else {
        assert(a.contains(a[0]));
        assert(b.len() > 0);
        assert(b.contains(b[0]));
        assert(a.contains(b[0]));
        let i = choose|i: int| 0 <= i < b.len() && b[i] == a[0];
        let j = choose|j: int| 0 <= j < a.len() && a[j] == b[0];
        if i > 0 && j > 0 {
            assert(text_lt(b[0], b[i]));
            assert(text_lt(a[0], a[j]));
            lemma_text_le_antisymmetric(a[0], b[0]);
        }
        assert(a[0] == b[0]);
        let ta = a.drop_first();
        let tb = b.drop_first();
        assert(ascending(ta)) by {
            assert forall|i: int, j: int|
                #![trigger ta[i], ta[j]]
                0 <= i < j < ta.len() implies text_lt(ta[i], ta[j]) by {
                assert(ta[i] == a[i + 1] && ta[j] == a[j + 1]);
            }
        }
        assert(ascending(tb)) by {
            assert forall|i: int, j: int|
                #![trigger tb[i], tb[j]]
                0 <= i < j < tb.len() implies text_lt(tb[i], tb[j]) by {
                assert(tb[i] == b[i + 1] && tb[j] == b[j + 1]);
            }
        }
        assert forall|x: Seq<char>| #[trigger] ta.contains(x) <==> tb.contains(x) by {
            if ta.contains(x) {
                let k = choose|k: int| 0 <= k < ta.len() && ta[k] == x;
                assert(a[k + 1] == x);
                assert(text_lt(a[0], a[k + 1]));
                assert(a.contains(x));
                let m = choose|m: int| 0 <= m < b.len() && b[m] == x;
                assert(tb[m - 1] == x);
            }
            if tb.contains(x) {
                let k = choose|k: int| 0 <= k < tb.len() && tb[k] == x;
                assert(b[k + 1] == x);
                assert(text_lt(b[0], b[k + 1]));
                assert(b.contains(x));
                assert(a.contains(x));
                let m = choose|m: int| 0 <= m < a.len() && a[m] == x;
                assert(ta[m - 1] == x);
            }
        }
        lemma_ascending_unique(ta, tb);
        assert(a == seq![a[0]] + ta);
        assert(b == seq![b[0]] + tb);
    }
}

/// Strings ranked by their order.
pub struct TextOrder;

impl Ranking<String> for TextOrder {
    open spec fn at_most(&self, a: String, b: String) -> bool {
        text_le(a@, b@)
    }

    proof fn lemma_total(&self, a: String, b: String) {
        lemma_text_le_total(a@, b@);
    }

    proof fn lemma_transitive(&self, a: String, b: String, c: String) {
        lemma_text_le_transitive(a@, b@, c@);
    }

    fn in_order(&self, a: &String, b: &String) -> (r: bool) {
        text_at_most(a.as_str(), b.as_str())
    }
}

/// Sorts a list of strings and drops what occurs again.
pub fn sort_and_dedup(values: &mut Vec<String>)
    ensures
        ascending(views(final(values)@)),
        forall|x: Seq<char>| #[trigger]
            views(final(values)@).contains(x) <==> views(old(values)@).contains(x),
{
    let ghost input = values@;
    let mut taken: Vec<String> = Vec::new();
    std::mem::swap(&mut taken, values);
    let sorted = stable_sort(&TextOrder, taken);
    let ghost all = views(sorted@);
    proof {
        assert forall|x: Seq<char>| #[trigger] all.contains(x) <==> views(input).contains(x) by {
            if all.contains(x) {
                let i = choose|i: int| 0 <= i < all.len() && all[i] == x;
                lemma_stable_sort_keeps(&TextOrder, input, sorted@, sorted@[i]);
                assert(sorted@.contains(sorted@[i]));
                let k = choose|k: int| 0 <= k < input.len() && input[k] == sorted@[i];
                assert(views(input)[k] == x);
            }
            if views(input).contains(x) {
                let i = choose|i: int| 0 <= i < input.len() && views(input)[i] == x;
                lemma_stable_sort_keeps(&TextOrder, input, sorted@, input[i]);
                assert(input.contains(input[i]));
                let k = choose|k: int| 0 <= k < sorted@.len() && sorted@[k] == input[i];
                assert(all[k] == x);
            }
        }
    }
    let mut out: Vec<String> = Vec::new();
    for i in 0..sorted.len()
        invariant
            all == views(sorted@),
            is_stable_sort(&TextOrder, input, sorted@),
            ascending(views(out@)),
            out.len() > 0 <==> i > 0,
            out.len() > 0 ==> views(out@).last() == all[i - 1],
            forall|x: Seq<char>| #[trigger]
                views(out@).contains(x) <==> all.take(i as int).contains(x),
    {
        let fresh = out.len() == 0 || !out[out.len() - 1].as_str().eq(sorted[i].as_str());
        let ghost before = views(out@);
        if fresh {
            out.push(sorted[i].clone());
            proof {
                let after = views(out@);
                assert(after == before.push(all[i as int]));
                assert forall|k: int, m: int|
                    #![trigger after[k], after[m]]
                    0 <= k < m < after.len() implies text_lt(after[k], after[m]) by {
                    if m < before.len() {
                        assert(after[k] == before[k] && after[m] == before[m]);
                    } else {
                        let last = before.last();
                        assert(sorted@[i - 1]@ == last);
                        assert(text_le(last, all[i as int])) by {
                            assert(TextOrder.at_most(sorted@[i - 1], sorted@[i as int]));
                        }
                        if k < before.len() - 1 {
                            assert(text_lt(before[k], before[before.len() - 1]));
                            lemma_text_le_transitive(before[k], last, all[i as int]);
                            if before[k] == all[i as int] {
                                lemma_text_le_antisymmetric(last, before[k]);
                            }
                        }
                    }
                }
            }
        }
        proof {
            assert(all.take(i + 1) == all.take(i as int).push(all[i as int]));
            assert forall|x: Seq<char>| #[trigger]
                views(out@).contains(x) <==> all.take(i + 1).contains(x) by {
                let next = all[i as int];
                vstd::seq_lib::lemma_seq_contains_after_push(all.take(i as int), next, x);
                if fresh {
                    vstd::seq_lib::lemma_seq_contains_after_push(before, next, x);
                } else {
                    assert(before.last() == next);
                    assert(before.contains(next));
                }
            }
        }
    }
    assert(all.take(sorted.len() as int) == all);
    std::mem::swap(&mut out, values);
}

/// A map from strings, in the order of its keys.
pub struct TextMap<V> {
    entries: Vec<(String, V)>,
}

impl<V> TextMap<V> {
    /// The keys, in order.
    pub closed spec fn keys(self) -> Seq<Seq<char>> {
        self.entries@.map_values(|e: (String, V)| e.0@)
    }

    /// The values, in the order of their keys.
    pub closed spec fn values(self) -> Seq<V> {
        self.entries@.map_values(|e: (String, V)| e.1)
    }

    #[verifier::type_invariant]
    spec fn sorted(self) -> bool {
        ascending(self.keys())
    }
}

/// The map that pairs each key with the value at its position.
pub open spec fn paired<V>(keys: Seq<Seq<char>>, values: Seq<V>) -> Map<Seq<char>, V> {
    Map::new(|k: Seq<char>| keys.contains(k), |k: Seq<char>| values[keys.index_of(k)])
}

impl<V> View for TextMap<V> {
    type V = Map<Seq<char>, V>;

    open spec fn view(&self) -> Map<Seq<char>, V> {
        paired(self.keys(), self.values())
    }
}

impl<V> TextMap<V> {
    /// The keys are distinct, and the view holds each with its value.
    pub proof fn lemma_view(map: &TextMap<V>)
        requires
            ascending(map.keys()),
        ensures
            map.keys().len() == map.values().len(),
            forall|i: int|
                0 <= i < map.keys().len() ==> map@.contains_key(#[trigger] map.keys()[i])
                    && map@[map.keys()[i]] == map.values()[i],
    {
        lemma_ascending_distinct(map.keys());
        assert forall|i: int| 0 <= i < map.keys().len() implies map@.contains_key(
            #[trigger] map.keys()[i],
        ) && map@[map.keys()[i]] == map.values()[i] by {
            assert(map.keys().contains(map.keys()[i]));
            map.keys().index_of_first_ensures(map.keys()[i]);
        }
    }

    /// The map without entries.
    pub fn new() -> (map: Self)
        ensures
            map.keys() == Seq::<Seq<char>>::empty(),
            map@ == Map::<Seq<char>, V>::empty(),
    {
        let map = TextMap { entries: Vec::new() };
        assert(map.keys() =~= Seq::<Seq<char>>::empty());
        assert(map@ =~= Map::<Seq<char>, V>::empty());
        map
    }

    /// How many entries there are.
    pub fn len(&self) -> (n: usize)
        ensures
            n == self.keys().len(),
            n == self.values().len(),
            ascending(self.keys()),
    {
        proof {
            use_type_invariant(self);
        }
        self.entries.len()
    }

    /// The key at a position.
    pub fn key(&self, i: usize) -> (k: &String)
        requires
            i < self.keys().len(),
        ensures
            k@ == self.keys()[i as int],
    {
        &self.entries[i].0
    }

    /// The value at a position.
    pub fn value(&self, i: usize) -> (v: &V)
        requires
            i < self.values().len(),
        ensures
            *v == self.values()[i as int],
    {
        &self.entries[i].1
    }

    /// The position of a key, or the position at which it would stand.
    pub fn position(&self, k: &str) -> (r: Result<usize, usize>)
        ensures
            ascending(self.keys()),
            self.keys().len() == self.values().len(),
            match r {
                Ok(i) => {
                    &&& i < self.keys().len()
                    &&& self.keys()[i as int] == k@
                    &&& self@.contains_key(k@)
                    &&& self@[k@] == self.values()[i as int]
                },
                Err(i) => {
                    &&& i <= self.keys().len()
                    &&& !self@.contains_key(k@)
                    &&& forall|j: int| 0 <= j < i ==> text_lt(#[trigger] self.keys()[j], k@)
                    &&& forall|j: int|
                        i <= j < self.keys().len() ==> text_lt(k@, #[trigger] self.keys()[j])
                },
            },
    {
        proof {
            use_type_invariant(self);
            Self::lemma_view(self);
        }
        let mut lo: usize = 0;
        let mut hi: usize = self.entries.len();
        while lo < hi
            invariant
                lo <= hi <= self.entries.len(),
                ascending(self.keys()),
                forall|j: int| 0 <= j < lo ==> text_lt(#[trigger] self.keys()[j], k@),
                forall|j: int|
                    hi <= j < self.keys().len() ==> text_le(k@, #[trigger] self.keys()[j]),
            decreases hi - lo,
        {
            let mid: usize = lo + (hi - lo) / 2;
            let at = self.entries[mid].0.as_str();
            assert(at@ == self.keys()[mid as int]);
            if text_at_most(k, at) {
                proof {
                    assert forall|j: int| mid <= j < self.keys().len() implies text_le(
                        k@,
                        #[trigger] self.keys()[j],
                    ) by {
                        if j > mid {
                            assert(text_lt(self.keys()[mid as int], self.keys()[j]));
                            lemma_text_le_transitive(k@, at@, self.keys()[j]);
                        }
                    }
                }
                hi = mid;
            } else {
                proof {
                    lemma_text_le_total(k@, at@);
                    lemma_text_le_reflexive(k@);
                    assert forall|j: int| 0 <= j < mid + 1 implies text_lt(
                        #[trigger] self.keys()[j],
                        k@,
                    ) by {
                        if j < mid {
                            assert(text_lt(self.keys()[j], self.keys()[mid as int]));
                            lemma_text_le_transitive(self.keys()[j], at@, k@);
                            if self.keys()[j] == k@ {
                                lemma_text_le_antisymmetric(self.keys()[j], at@);
                            }
                        }
                    }
                }
                lo = mid + 1;
            }
        }
        if lo < self.entries.len() && self.entries[lo].0.as_str().eq(k) {
            assert(self.keys()[lo as int] == k@);
            Ok(lo)
        } else {
            proof {
                assert forall|j: int| lo <= j < self.keys().len() implies text_lt(
                    k@,
                    #[trigger] self.keys()[j],
                ) by {
                    if j > lo {
                        assert(text_lt(self.keys()[lo as int], self.keys()[j]));
                        if self.keys()[j] == k@ {
                            lemma_text_le_antisymmetric(self.keys()[lo as int], k@);
                        }
                    } else {
                        assert(self.keys()[j] == self.entries@[j].0@);
                    }
                }
            }
            Err(lo)
        }
    }

    /// The value of a key.
    pub fn get(&self, k: &str) -> (r: Option<&V>)
        ensures
            match r {
                Some(v) => self@.contains_key(k@) && *v == self@[k@],
                None => !self@.contains_key(k@),
            },
    {
        match self.position(k) {
            Ok(i) => Some(&self.entries[i].1),
            Err(_) => None,
        }
    }

    /// Sets the value of a key and hands back the one it had.
    pub fn insert(&mut self, k: String, v: V) -> (r: Option<V>)
        ensures
            final(self)@ == old(self)@.insert(k@, v),
            match r {
                Some(x) => old(self)@.contains_key(k@) && x == old(self)@[k@],
                None => !old(self)@.contains_key(k@),
            },
    {
        let found = self.position(k.as_str());
        let mut entries: Vec<(String, V)> = Vec::new();
        let ghost old_keys = self.keys();
        let ghost old_values = self.values();
        let ghost map = self@;
        proof {
            Self::lemma_view(&*self);
            assert(Seq::<(String, V)>::empty().map_values(|e: (String, V)| e.0@)
                =~= Seq::<Seq<char>>::empty());
        }
        std::mem::swap(&mut entries, &mut self.entries);
        match found {
            Ok(i) => {
                let mut value = v;
                std::mem::swap(&mut value, &mut entries[i].1);
                proof {
                    let keys = entries@.map_values(|e: (String, V)| e.0@);
                    assert(keys =~= old_keys);
                }
                self.entries = entries;
                proof {
                    assert(self.keys() =~= old_keys);
                    assert(self.values() =~= old_values.update(i as int, v));
                    lemma_ascending_distinct(old_keys);
                    assert(self@ =~= map.insert(k@, v)) by {
                        assert forall|x: Seq<char>| self@.contains_key(x) implies self@[x]
                            == map.insert(k@, v)[x] by {
                            old_keys.index_of_first_ensures(x);
                        }
                    }
                }
                Some(value)
            },
            Err(i) => {
                entries.insert(i, (k, v));
                proof {
                    let keys = entries@.map_values(|e: (String, V)| e.0@);
                    assert(keys =~= old_keys.insert(i as int, k@));
                    lemma_insert_ascending(old_keys, i as int, k@);
                }
                self.entries = entries;
                proof {
                    assert(self.keys() =~= old_keys.insert(i as int, k@));
                    assert(self.values() =~= old_values.insert(i as int, v));
                    lemma_insert_paired(old_keys, old_values, i as int, k@, v);
                }
                None
            },
        }
    }

    /// Puts another value at a position and hands back the one that stood there.
    pub fn replace(&mut self, i: usize, v: V) -> (r: V)
        requires
            i < old(self).keys().len(),
        ensures
            final(self).keys() == old(self).keys(),
            final(self).values() == old(self).values().update(i as int, v),
            final(self)@ == old(self)@.insert(old(self).keys()[i as int], v),
            r == old(self).values()[i as int],
    {
        proof {
            use_type_invariant(&*self);
            Self::lemma_view(&*self);
            assert(Seq::<(String, V)>::empty().map_values(|e: (String, V)| e.0@)
                =~= Seq::<Seq<char>>::empty());
        }
        let ghost old_keys = self.keys();
        let ghost old_values = self.values();
        let ghost map = self@;
        let mut entries: Vec<(String, V)> = Vec::new();
        std::mem::swap(&mut entries, &mut self.entries);
        let mut value = v;
        std::mem::swap(&mut value, &mut entries[i].1);
        proof {
            let keys = entries@.map_values(|e: (String, V)| e.0@);
            assert(keys =~= old_keys);
        }
        self.entries = entries;
        proof {
            assert(self.keys() =~= old_keys);
            assert(self.values() =~= old_values.update(i as int, v));
            lemma_ascending_distinct(old_keys);
            assert(self@ =~= map.insert(old_keys[i as int], v)) by {
                assert forall|x: Seq<char>| self@.contains_key(x) implies self@[x] == map.insert(
                    old_keys[i as int],
                    v,
                )[x] by {
                    old_keys.index_of_first_ensures(x);
                }
            }
        }
        value
    }

    /// The entries, in the order of their keys.
    pub fn into_entries(self) -> (r: Vec<(String, V)>)
        ensures
            r@.map_values(|e: (String, V)| e.0@) == self.keys(),
            r@.map_values(|e: (String, V)| e.1) == self.values(),
            ascending(self.keys()),
    {
        proof {
            use_type_invariant(&self);
        }
        self.entries
    }

    /// Adds the entries of another map, which replace those with their keys.
    pub fn extend(&mut self, other: TextMap<V>)
        ensures
            final(self)@ == old(self)@.union_prefer_right(other@),
    {
        let ghost before = self@;
        let ghost keys = other.keys();
        let ghost values = other.values();
        let ghost added = other@;
        proof {
            use_type_invariant(&other);
            Self::lemma_view(&other);
            lemma_ascending_distinct(keys);
        }
        let mut entries = other.entries;
        let ghost all = entries@;
        proof {
            assert(keys == all.map_values(|e: (String, V)| e.0@));
            assert(values == all.map_values(|e: (String, V)| e.1));
        }
        while entries.len() > 0
            invariant
                entries.len() <= all.len(),
                entries@ == all.take(entries.len() as int),
                keys == all.map_values(|e: (String, V)| e.0@),
                values == all.map_values(|e: (String, V)| e.1),
                forall|i: int, j: int| 0 <= i < j < keys.len() ==> keys[i] != keys[j],
                forall|k: Seq<char>| #[trigger]
                    self@.contains_key(k) <==> before.contains_key(k) || keys.skip(
                        entries.len() as int,
                    ).contains(k),
                forall|j: int|
                    entries.len() <= j < keys.len() ==> self@[#[trigger] keys[j]] == values[j],
                forall|k: Seq<char>| #[trigger]
                    before.contains_key(k) && !keys.skip(entries.len() as int).contains(k)
                        ==> self@[k] == before[k],
            decreases entries.len(),
        {
            let ghost m = entries.len() - 1;
            let ghost later = keys.skip(m + 1);
            let ghost sooner = keys.skip(m);
            let ghost current = self@;
            if let Some((k, v)) = entries.pop() {
                assert(all[m] == (k, v));
                assert(keys[m] == k@ && values[m] == v);
                proof {
                    lemma_one_sooner(keys, m);
                }
                let _replaced = self.insert(k, v);
                proof {
                    assert forall|j: int| m <= j < keys.len() implies self@[#[trigger] keys[j]]
                        == values[j] by {
                        if j > m {
                            assert(keys[m] != keys[j]);
                        }
                    }
                    assert forall|x: Seq<char>| #[trigger]
                        before.contains_key(x) && !sooner.contains(x) implies self@[x]
                        == before[x] by {
                        assert(!later.contains(x));
                    }
                }
            }
        }
        proof {
            assert(keys.skip(0) == keys);
            let right = before.union_prefer_right(added);
            assert forall|k: Seq<char>| #[trigger] right.contains_key(k) implies self@.contains_key(
                k,
            ) && self@[k] == right[k] by {
                if keys.contains(k) {
                    let j = choose|j: int| 0 <= j < keys.len() && keys[j] == k;
                    assert(added[keys[j]] == values[j]);
                    assert(self@[keys[j]] == values[j]);
                }
            }
            assert(self@ =~= right);
        }
    }

    /// The entries whose keys are in a set.
    pub fn retain(self, keep: &TextSet) -> (map: Self)
        ensures
            map@ == self@.restrict(keep@),
    {
        proof {
            use_type_invariant(&self);
            Self::lemma_view(&self);
            lemma_ascending_distinct(self.keys());
        }
        let ghost keys = self.keys();
        let ghost values = self.values();
        let ghost given = self@;
        let mut entries = self.entries;
        let ghost all = entries@;
        let mut map = TextMap::new();
        while entries.len() > 0
            invariant
                entries.len() <= all.len(),
                entries@ == all.take(entries.len() as int),
                keys == all.map_values(|e: (String, V)| e.0@),
                values == all.map_values(|e: (String, V)| e.1),
                forall|i: int, j: int| 0 <= i < j < keys.len() ==> keys[i] != keys[j],
                forall|k: Seq<char>| #[trigger]
                    map@.contains_key(k) <==> keep@.contains(k) && keys.skip(
                        entries.len() as int,
                    ).contains(k),
                forall|j: int|
                    entries.len() <= j < keys.len() && keep@.contains(#[trigger] keys[j])
                        ==> map@[keys[j]] == values[j],
            decreases entries.len(),
        {
            let ghost m = entries.len() - 1;
            let ghost later = keys.skip(m + 1);
            let ghost sooner = keys.skip(m);
            if let Some((k, v)) = entries.pop() {
                assert(all[m] == (k, v));
                assert(keys[m] == k@ && values[m] == v);
                proof {
                    lemma_one_sooner(keys, m);
                }
                if keep.contains(k.as_str()) {
                    let _none = map.insert(k, v);
                    proof {
                        assert forall|j: int|
                            m <= j < keys.len() && keep@.contains(#[trigger] keys[j]) implies map@[keys[j]]
                            == values[j] by {
                            if j > m {
                                assert(keys[m] != keys[j]);
                            }
                        }
                    }
                }
            }
        }
        proof {
            assert(keys.skip(0) == keys);
            let right = given.restrict(keep@);
            assert forall|k: Seq<char>| #[trigger] right.contains_key(k) implies map@.contains_key(
                k,
            ) && map@[k] == right[k] by {
                let j = choose|j: int| 0 <= j < keys.len() && keys[j] == k;
                assert(given[keys[j]] == values[j]);
                assert(map@[keys[j]] == values[j]);
            }
            assert(map@ =~= right);
        }
        map
    }

    /// The map that holds the given entries, a later one in place of an earlier
    /// one with its key.
    pub fn from_entries(entries: Vec<(String, V)>) -> (map: Self)
        ensures
            map@ == collected(entries@),
    {
        let mut map = TextMap::new();
        let ghost all = entries@;
        let mut queue = reversed(entries);
        while queue.len() > 0
            invariant
                queue.len() <= all.len(),
                forall|i: int| 0 <= i < queue.len() ==> #[trigger] queue@[i] == all[all.len() - 1 - i],
                map@ == collected(all.take(all.len() - queue.len())),
            decreases queue.len(),
        {
            let ghost n = all.len() - queue.len();
            let (k, v) = queue.pop().unwrap();
            map.insert(k, v);
            proof {
                assert(all.take(n + 1).drop_last() == all.take(n));
            }
        }
        assert(all.take(all.len() as int) == all);
        map
    }
}

/// What a list holds from a position on is what stands there and what it holds
/// behind it.
proof fn lemma_one_sooner(keys: Seq<Seq<char>>, m: int)
    requires
        0 <= m < keys.len(),
    ensures
        forall|x: Seq<char>| #[trigger]
            keys.skip(m).contains(x) <==> x == keys[m] || keys.skip(m + 1).contains(x),
{
    let later = keys.skip(m + 1);
    let sooner = keys.skip(m);
    assert(sooner == seq![keys[m]] + later);
    assert forall|x: Seq<char>| #[trigger] sooner.contains(x) <==> x == keys[m] || later.contains(
        x,
    ) by {
        if sooner.contains(x) {
            let a = choose|a: int| 0 <= a < sooner.len() && sooner[a] == x;
            if a > 0 {
                assert(later[a - 1] == x);
            }
        }
        if later.contains(x) {
            let a = choose|a: int| 0 <= a < later.len() && later[a] == x;
            assert(sooner[a + 1] == x);
        }
        assert(sooner[0] == keys[m]);
    }
}

/// The map that entries make one after the other.
pub open spec fn collected<V>(entries: Seq<(String, V)>) -> Map<Seq<char>, V>
    decreases entries.len(),
{
    if entries.len() == 0 {
        Map::empty()
    } else {
        collected(entries.drop_last()).insert(entries.last().0@, entries.last().1)
    }
}

/// Inserting a key where it belongs keeps the keys ascending.
proof fn lemma_insert_ascending(keys: Seq<Seq<char>>, i: int, k: Seq<char>)
    requires
        ascending(keys),
        0 <= i <= keys.len(),
        forall|j: int| 0 <= j < i ==> text_lt(#[trigger] keys[j], k),
        forall|j: int| i <= j < keys.len() ==> text_lt(k, #[trigger] keys[j]),
    ensures
        ascending(keys.insert(i, k)),
{
    let more = keys.insert(i, k);
    assert forall|a: int, b: int|
        #![trigger more[a], more[b]]
        0 <= a < b < more.len() implies text_lt(more[a], more[b]) by {
        if a == i {
            assert(more[b] == keys[b - 1]);
        } else if b == i {
            assert(more[a] == keys[a]);
        } else {
            let x = if a < i { a } else { a - 1 };
            let y = if b < i { b } else { b - 1 };
            assert(more[a] == keys[x] && more[b] == keys[y]);
        }
    }
}

/// Inserting a key and its value at one position adds that pair to the map.
proof fn lemma_insert_paired<V>(keys: Seq<Seq<char>>, values: Seq<V>, i: int, k: Seq<char>, v: V)
    requires
        ascending(keys),
        ascending(keys.insert(i, k)),
        keys.len() == values.len(),
        0 <= i <= keys.len(),
    ensures
        paired(keys.insert(i, k), values.insert(i, v)) == paired(keys, values).insert(k, v),
{
    let more = keys.insert(i, k);
    let longer = values.insert(i, v);
    lemma_ascending_distinct(keys);
    lemma_ascending_distinct(more);
    let left = paired(more, longer);
    let right = paired(keys, values).insert(k, v);
    assert forall|x: Seq<char>| left.contains_key(x) <==> right.contains_key(x) by {
        if more.contains(x) {
            let a = choose|a: int| 0 <= a < more.len() && more[a] == x;
            if a < i {
                assert(keys[a] == x);
            } else if a > i {
                assert(keys[a - 1] == x);
            }
        }
        if keys.contains(x) {
            let a = choose|a: int| 0 <= a < keys.len() && keys[a] == x;
            assert(more[if a < i { a } else { a + 1 }] == x);
        }
        assert(more[i] == k);
    }
    assert forall|x: Seq<char>| left.contains_key(x) implies left[x] == right[x] by {
        more.index_of_first_ensures(x);
        let a = more.index_of(x);
        if a == i {
            assert(x == k);
        } else {
            assert(x != k) by {
                assert(more[i] == k);
            }
            let b = if a < i { a } else { a - 1 };
            assert(keys[b] == x);
            keys.index_of_first_ensures(x);
            assert(keys.index_of(x) == b);
        }
    }
    assert(left =~= right);
}

/// A set of strings, in their order.
pub struct TextSet {
    items: Vec<String>,
}

impl TextSet {
    /// The strings, in order.
    pub closed spec fn list(self) -> Seq<Seq<char>> {
        views(self.items@)
    }

    #[verifier::type_invariant]
    spec fn sorted(self) -> bool {
        ascending(self.list())
    }
}

impl View for TextSet {
    type V = Set<Seq<char>>;

    open spec fn view(&self) -> Set<Seq<char>> {
        self.list().to_set()
    }
}

impl TextSet {
    /// The set without members.
    pub fn new() -> (set: Self)
        ensures
            set.list() == Seq::<Seq<char>>::empty(),
            set@ == Set::<Seq<char>>::empty(),
    {
        let set = TextSet { items: Vec::new() };
        assert(set.list() =~= Seq::<Seq<char>>::empty());
        assert(set@ =~= Set::<Seq<char>>::empty());
        set
    }

    /// How many members there are.
    pub fn len(&self) -> (n: usize)
        ensures
            n == self.list().len(),
            n == self@.len(),
            self@.finite(),
            ascending(self.list()),
    {
        proof {
            use_type_invariant(self);
            lemma_ascending_distinct(self.list());
        }
        self.items.len()
    }

    /// The members, in order.
    pub fn items(&self) -> (r: &Vec<String>)
        ensures
            views(r@) == self.list(),
            ascending(self.list()),
    {
        proof {
            use_type_invariant(self);
        }
        &self.items
    }

    /// The members, in order.
    pub fn into_items(self) -> (r: Vec<String>)
        ensures
            views(r@) == self.list(),
            ascending(self.list()),
    {
        proof {
            use_type_invariant(&self);
        }
        self.items
    }

    /// The set of the strings of a list.
    pub fn from_items(items: Vec<String>) -> (set: Self)
        ensures
            set@ == views(items@).to_set(),
    {
        let ghost given = views(items@);
        let mut items = items;
        sort_and_dedup(&mut items);
        let set = TextSet { items };
        assert(set@ =~= given.to_set()) by {
            assert forall|x: Seq<char>| set@.contains(x) <==> given.to_set().contains(x) by {
                assert(views(items@).contains(x) <==> given.contains(x));
            }
        }
        set
    }

    /// The position of a member, or the position at which it would stand.
    fn position(&self, x: &str) -> (r: Result<usize, usize>)
        ensures
            match r {
                Ok(i) => i < self.list().len() && self.list()[i as int] == x@ && self@.contains(x@),
                Err(i) => {
                    &&& i <= self.list().len()
                    &&& !self@.contains(x@)
                    &&& forall|j: int| 0 <= j < i ==> text_lt(#[trigger] self.list()[j], x@)
                    &&& forall|j: int|
                        i <= j < self.list().len() ==> text_lt(x@, #[trigger] self.list()[j])
                },
            },
    {
        proof {
            use_type_invariant(self);
        }
        let mut lo: usize = 0;
        let mut hi: usize = self.items.len();
        while lo < hi
            invariant
                lo <= hi <= self.items.len(),
                ascending(self.list()),
                forall|j: int| 0 <= j < lo ==> text_lt(#[trigger] self.list()[j], x@),
                forall|j: int|
                    hi <= j < self.list().len() ==> text_le(x@, #[trigger] self.list()[j]),
            decreases hi - lo,
        {
            let mid: usize = lo + (hi - lo) / 2;
            let at = self.items[mid].as_str();
            assert(at@ == self.list()[mid as int]);
            if text_at_most(x, at) {
                proof {
                    assert forall|j: int| mid <= j < self.list().len() implies text_le(
                        x@,
                        #[trigger] self.list()[j],
                    ) by {
                        if j > mid {
                            assert(text_lt(self.list()[mid as int], self.list()[j]));
                            lemma_text_le_transitive(x@, at@, self.list()[j]);
                        }
                    }
                }
                hi = mid;
            } else {
                proof {
                    lemma_text_le_total(x@, at@);
                    lemma_text_le_reflexive(x@);
                    assert forall|j: int| 0 <= j < mid + 1 implies text_lt(
                        #[trigger] self.list()[j],
                        x@,
                    ) by {
                        if j < mid {
                            assert(text_lt(self.list()[j], self.list()[mid as int]));
                            lemma_text_le_transitive(self.list()[j], at@, x@);
                            if self.list()[j] == x@ {
                                lemma_text_le_antisymmetric(self.list()[j], at@);
                            }
                        }
                    }
                }
                lo = mid + 1;
            }
        }
        if lo < self.items.len() && self.items[lo].as_str().eq(x) {
            assert(self.list()[lo as int] == x@);
            Ok(lo)
        } else {
            proof {
                assert forall|j: int| lo <= j < self.list().len() implies text_lt(
                    x@,
                    #[trigger] self.list()[j],
                ) by {
                    if j > lo {
                        assert(text_lt(self.list()[lo as int], self.list()[j]));
                        if self.list()[j] == x@ {
                            lemma_text_le_antisymmetric(self.list()[lo as int], x@);
                        }
                    } else {
                        assert(self.list()[j] == self.items@[j]@);
                    }
                }
            }
            Err(lo)
        }
    }

    /// Whether a string is a member.
    pub fn contains(&self, x: &str) -> (r: bool)
        ensures
            r == self@.contains(x@),
    {
        self.position(x).is_ok()
    }

    /// Adds a string; says whether it was new.
    pub fn insert(&mut self, x: String) -> (fresh: bool)
        ensures
            final(self)@ == old(self)@.insert(x@),
            fresh == !old(self)@.contains(x@),
    {
        proof {
            use_type_invariant(&*self);
            assert(views(Seq::<String>::empty()) =~= Seq::<Seq<char>>::empty());
        }
        let ghost old_list = self.list();
        let ghost set = self@;
        match self.position(x.as_str()) {
            Ok(_) => {
                assert(self@ =~= set.insert(x@));
                false
            },
            Err(i) => {
                let mut items: Vec<String> = Vec::new();
                std::mem::swap(&mut items, &mut self.items);
                items.insert(i, x);
                proof {
                    let more = old_list.insert(i as int, x@);
                    assert(views(items@) =~= more);
                    lemma_insert_ascending(old_list, i as int, x@);
                    assert(more.to_set() =~= set.insert(x@)) by {
                        assert(more[i as int] == x@);
                        assert forall|y: Seq<char>| more.contains(y) <==> old_list.contains(y)
                            || y == x@ by {
                            if more.contains(y) {
                                let a = choose|a: int| 0 <= a < more.len() && more[a] == y;
                                if a < i {
                                    assert(old_list[a] == y);
                                } else if a > i {
                                    assert(old_list[a - 1] == y);
                                }
                            }
                            if old_list.contains(y) {
                                let a = choose|a: int| 0 <= a < old_list.len() && old_list[a] == y;
                                assert(more[if a < i { a } else { a + 1 }] == y);
                            }
                        }
                    }
                }
                self.items = items;
                true
            },
        }
    }

    /// Adds the members of another set.
    pub fn absorb(&mut self, other: &TextSet)
        ensures
            final(self)@ == old(self)@.union(other@),
    {
        let ghost before = self@;
        let ghost all = other.list();
        for i in 0..other.items.len()
            invariant
                all == views(other.items@),
                self@ == before.union(all.take(i as int).to_set()),
        {
            self.insert(other.items[i].clone());
            proof {
                let x = all[i as int];
                assert(all.take(i + 1) == all.take(i as int).push(x));
                assert(all.take(i + 1).to_set() =~= all.take(i as int).to_set().insert(x)) by {
                    assert forall|y: Seq<char>| all.take(i + 1).to_set().contains(y) <==> all.take(
                        i as int,
                    ).to_set().insert(x).contains(y) by {
                        vstd::seq_lib::lemma_seq_contains_after_push(all.take(i as int), x, y);
                    }
                }
                assert(self@ =~= before.union(all.take(i + 1).to_set()));
            }
        }
        proof {
            assert(all.take(all.len() as int) == all);
        }
    }

    /// Another set with the same members.
    pub fn copy(&self) -> (set: Self)
        ensures
            set.list() == self.list(),
            set@ == self@,
    {
        proof {
            use_type_invariant(self);
        }
        let mut items: Vec<String> = Vec::new();
        for i in 0..self.items.len()
            invariant
                items@ == self.items@.take(i as int),
        {
            items.push(self.items[i].clone());
        }
        assert(items@ == self.items@);
        TextSet { items }
    }
}

} // verus!

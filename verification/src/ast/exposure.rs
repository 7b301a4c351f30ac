//! Who can reach a function from outside, told by all that it lies in.

use super::engine::describes;
use super::reach::{
    header_end, header_says_for, in_trait_impl, is_public, is_test_attribute, is_test_entry,
    test_attribute_before, test_attribute_inside,
};
use super::shape::{
    is_first_child, is_parent, lemma_children_ascend, lemma_first_child, lemma_is_parent,
    lemma_listed_children, lemma_within_parent, within,
};
use super::source::text_between;
use super::tree::{
    child_in_field, child_of_kind, children_before, children_of, first_where, is_preorder,
    last_named, lemma_children, lemma_parent, parent_of, previous_named_sibling, previous_sibling,
    NodeFacts,
};
use super::Rules;
use crate::metrics::FunctionMetrics;
use crate::text::{begins_with, finishes_with, has_part, occurs_at, trimmed, words_of};
use vstd::prelude::*;

verus! {

/// Whether node `s` comes before node `i` under the same parent.
pub open spec fn is_sibling_before(t: Seq<NodeFacts>, s: int, i: int) -> bool {
    s < i && exists|p: int| #[trigger] is_parent(t, p, i) && is_parent(t, p, s)
}

/// Whether node `s` comes right before node `i` under the same parent.
pub open spec fn is_right_before(t: Seq<NodeFacts>, s: int, i: int) -> bool {
    &&& is_sibling_before(t, s, i)
    &&& forall|d: int| s < d ==> !#[trigger] is_sibling_before(t, d, i)
}

/// Whether a node is exported or public by itself.
pub open spec fn is_open(t: Seq<NodeFacts>, a: int) -> bool {
    ||| t[a].kind == "export_statement"@
    ||| t[a].kind == "public_field_definition"@
    ||| t[a].kind == "visibility_modifier"@
    ||| exists|c: int| #[trigger] is_parent(t, a, c) && t[c].kind == "visibility_modifier"@
    ||| exists|s: int| #[trigger]
        is_right_before(t, s, a) && (t[s].kind == "pub"@ || t[s].kind == "export"@)
}

/// Whether anything that a node is or lies in, however far out, is exported or public.
pub open spec fn lies_open(t: Seq<NodeFacts>, f: int) -> bool {
    exists|a: int| #[trigger] within(t, a, f) && is_open(t, a)
}

/// Whether a text, but for the space around it, is an attribute that marks a test.
pub open spec fn says_test(text: Seq<char>) -> bool {
    let s = trimmed(text);
    ||| s == "#[test]"@
    ||| exists|head: Seq<char>| s == #[trigger] (head + "::test]"@)
    ||| exists|head: Seq<char>, tail: Seq<char>| s == #[trigger] (head + "::test("@ + tail)
    ||| exists|tail: Seq<char>| s == #[trigger] ("#[test("@ + tail)
}

/// Whether a node is an attribute that marks a test.
pub open spec fn is_test_mark(t: Seq<NodeFacts>, i: int, source: Seq<char>) -> bool {
    t[i].kind == "attribute_item"@ && match text_between(
        source,
        t[i].start_byte,
        t[i].end_byte,
    ) {
        Some(text) => says_test(text),
        None => false,
    }
}

/// Whether a function has an attribute that marks a test: inside it, or before it with
/// nothing but attributes in between.
pub open spec fn is_marked_test(t: Seq<NodeFacts>, f: int, source: Seq<char>) -> bool {
    ||| exists|c: int| #[trigger] is_parent(t, f, c) && is_test_mark(t, c, source)
    ||| exists|s: int| #[trigger] is_mark_before(t, s, f, source)
}

/// Whether an attribute that marks a test comes before a node, with nothing but
/// attributes in between.
pub open spec fn is_mark_before(t: Seq<NodeFacts>, s: int, f: int, source: Seq<char>) -> bool {
    &&& is_sibling_before(t, s, f)
    &&& t[s].named
    &&& is_test_mark(t, s, source)
    &&& forall|d: int| s < d && #[trigger] is_sibling_before(t, d, f) && t[d].named ==> t[d].kind
        == "attribute_item"@
}

/// Whether an implementation says which trait it is for: by a node in that role, or
/// with the word in its header.
pub open spec fn names_trait(t: Seq<NodeFacts>, p: int, source: Seq<char>) -> bool {
    ||| exists|c: int| #[trigger] is_parent(t, p, c) && t[c].field == Some("trait"@)
    ||| exists|end: nat| #[trigger]
        is_header_end(t, p, end) && match text_between(source, t[p].start_byte, end) {
            Some(header) => words_of(header).contains("for"@),
            None => false,
        }
}

/// Whether the header of an implementation ends here: where its body starts, or where
/// it ends itself if it has none.
pub open spec fn is_header_end(t: Seq<NodeFacts>, p: int, end: nat) -> bool {
    ||| exists|b: int| #[trigger] is_body_of(t, p, b) && end == t[b].start_byte
    ||| (forall|b: int| #[trigger] is_parent(t, p, b) ==> t[b].field != Some("body"@)) && end
        == t[p].end_byte
}

/// Whether a node is the first child in the role of a body.
pub open spec fn is_body_of(t: Seq<NodeFacts>, p: int, b: int) -> bool {
    &&& is_parent(t, p, b)
    &&& t[b].field == Some("body"@)
    &&& forall|d: int| #[trigger] is_parent(t, p, d) && d < b ==> t[d].field != Some("body"@)
}

/// Whether the innermost implementation that a node lies in is one of a trait.
pub open spec fn implements_trait(t: Seq<NodeFacts>, f: int, source: Seq<char>) -> bool {
    exists|p: int| #[trigger] is_innermost_impl(t, p, f) && names_trait(t, p, source)
}

/// Whether a node is the innermost implementation that another lies in.
pub open spec fn is_innermost_impl(t: Seq<NodeFacts>, p: int, f: int) -> bool {
    &&& within(t, p, f)
    &&& p < f
    &&& t[p].kind == "impl_item"@
    &&& forall|q: int| p < q < f && #[trigger] within(t, q, f) ==> t[q].kind != "impl_item"@
}

/// The children of the parent before a node are its siblings before it.
proof fn lemma_siblings(t: Seq<NodeFacts>, i: int, s: int)
    requires
        is_preorder(t),
        0 < i < t.len(),
    ensures
        children_before(t, parent_of(t, i), i).contains(s) <==> is_sibling_before(t, s, i),
{
    let p = parent_of(t, i);
    lemma_parent(t, i);
    lemma_is_parent(t, p, i);
    lemma_children(t, p, i);
    let list = children_before(t, p, i);
    if list.contains(s) {
        let k = choose|k: int| 0 <= k < list.len() && list[k] == s;
        assert(parent_of(t, list[k]) == p);
        lemma_parent(t, s);
        lemma_is_parent(t, p, s);
        assert(is_parent(t, p, i));
    }
    if is_sibling_before(t, s, i) {
        let q = choose|q: int| #[trigger] is_parent(t, q, i) && is_parent(t, q, s);
        lemma_is_parent(t, q, i);
        lemma_is_parent(t, q, s);
        assert(list.contains(s));
    }
}

proof fn lemma_right_before(t: Seq<NodeFacts>, i: int, s: int)
    requires
        is_preorder(t),
        0 <= i < t.len(),
    ensures
        is_right_before(t, s, i) <==> previous_sibling(t, i) == Some(s),
{
    lemma_parent(t, i);
    let p = parent_of(t, i);
    if i == 0 {
        if is_sibling_before(t, s, i) {
            let q = choose|q: int| #[trigger] is_parent(t, q, i) && is_parent(t, q, s);
            lemma_is_parent(t, q, i);
        }
    } else {
        let list = children_before(t, p, i);
        lemma_children_ascend(t, p, i);
        lemma_siblings(t, i, s);
        if previous_sibling(t, i) == Some(s) {
            assert(list[list.len() - 1] == s);
            assert(list.contains(s));
            assert forall|d: int| s < d implies !#[trigger] is_sibling_before(t, d, i) by {
                lemma_siblings(t, i, d);
                if list.contains(d) {
                    let k = choose|k: int| 0 <= k < list.len() && list[k] == d;
                    if k < list.len() - 1 {
                        assert(list[k] < list[list.len() - 1]);
                    }
                }
            }
        }
        if is_right_before(t, s, i) {
            assert(list.len() > 0);
            let last = list[list.len() - 1];
            assert(list.contains(last));
            lemma_siblings(t, i, last);
            let k = choose|k: int| 0 <= k < list.len() && list[k] == s;
            if k < list.len() - 1 {
                assert(list[k] < last);
            }
        }
    }
}

proof fn lemma_open(t: Seq<NodeFacts>, i: int)
    requires
        is_preorder(t),
        0 <= i < t.len(),
    ensures
        is_open(t, i) <==> {
            ||| t[i].kind == "export_statement"@ || t[i].kind == "public_field_definition"@
                || t[i].kind == "visibility_modifier"@
            ||| child_of_kind(t, i, "visibility_modifier"@) is Some
            ||| match previous_sibling(t, i) {
                Some(s) => t[s].kind == "pub"@ || t[s].kind == "export"@,
                None => false,
            }
        },
{
    let kind = "visibility_modifier"@;
    let wanted = |n: NodeFacts| n.kind == kind;
    lemma_first_child(t, i, wanted);
    let found = first_where(t, children_of(t, i), wanted);
    assert(found == child_of_kind(t, i, kind));
    if found is Some {
        assert(is_first_child(t, i, found->0, wanted));
        assert(is_parent(t, i, found->0));
    }
    if let Some(s) = previous_sibling(t, i) {
        lemma_right_before(t, i, s);
    }
    if exists|s: int| #[trigger]
        is_right_before(t, s, i) && (t[s].kind == "pub"@ || t[s].kind == "export"@) {
        let s = choose|s: int| #[trigger]
            is_right_before(t, s, i) && (t[s].kind == "pub"@ || t[s].kind == "export"@);
        lemma_right_before(t, i, s);
    }
}

/// What lies open is public.
proof fn lemma_public(t: Seq<NodeFacts>, f: int)
    requires
        is_preorder(t),
        0 <= f < t.len(),
    ensures
        is_public(t, f) <==> lies_open(t, f),
    decreases f,
{
    lemma_parent(t, f);
    lemma_open(t, f);
    let p = parent_of(t, f);
    assert(within(t, f, f));
    if f > 0 {
        lemma_public(t, p);
        if lies_open(t, p) {
            let a = choose|a: int| #[trigger] within(t, a, p) && is_open(t, a);
            lemma_within_parent(t, a, f);
            assert(within(t, a, f));
        }
        if lies_open(t, f) {
            let a = choose|a: int| #[trigger] within(t, a, f) && is_open(t, a);
            lemma_within_parent(t, a, f);
            if a != f {
                assert(within(t, a, p));
            }
        }
    }
}

proof fn lemma_parts(s: Seq<char>, part: Seq<char>)
    ensures
        finishes_with(s, part) <==> exists|head: Seq<char>| s == #[trigger] (head + part),
        begins_with(s, part) <==> exists|tail: Seq<char>| s == #[trigger] (part + tail),
        has_part(s, part) <==> exists|head: Seq<char>, tail: Seq<char>|
            s == #[trigger] (head + part + tail),
{
    let n = part.len() as int;
    if finishes_with(s, part) {
        assert(s =~= s.take(s.len() - n) + part);
    }
    if exists|head: Seq<char>| s == #[trigger] (head + part) {
        let head = choose|head: Seq<char>| s == #[trigger] (head + part);
        assert(s.subrange(s.len() - n, s.len() as int) =~= part);
    }
    if begins_with(s, part) {
        assert(s =~= part + s.skip(n));
    }
    if exists|tail: Seq<char>| s == #[trigger] (part + tail) {
        let tail = choose|tail: Seq<char>| s == #[trigger] (part + tail);
        assert(s.subrange(0, n) =~= part);
    }
    if has_part(s, part) {
        let at = choose|at: int| occurs_at(s, part, at);
        assert(s =~= s.take(at) + part + s.skip(at + n));
    }
    if exists|head: Seq<char>, tail: Seq<char>| s == #[trigger] (head + part + tail) {
        let (head, tail) = choose|head: Seq<char>, tail: Seq<char>|
            s == #[trigger] (head + part + tail);
        let at = head.len() as int;
        assert(s.subrange(at, at + n) =~= part);
        assert(occurs_at(s, part, at));
    }
}

proof fn lemma_test_mark(t: Seq<NodeFacts>, i: int, source: Seq<char>)
    ensures
        is_test_mark(t, i, source) <==> t[i].kind == "attribute_item"@ && is_test_attribute(
            t,
            i,
            source,
        ),
{
    if let Some(text) = text_between(source, t[i].start_byte, t[i].end_byte) {
        let s = trimmed(text);
        lemma_parts(s, "::test]"@);
        lemma_parts(s, "::test("@);
        lemma_parts(s, "#[test("@);
    }
}

/// The last named node of a list: it is named, and none behind it is.
proof fn lemma_last_named(t: Seq<NodeFacts>, list: Seq<int>)
    ensures
        match last_named(t, list) {
            Some(c) => exists|k: int|
                0 <= k < list.len() && #[trigger] list[k] == c && t[c].named && forall|j: int|
                    k < j < list.len() ==> !t[#[trigger] list[j]].named,
            None => forall|j: int| 0 <= j < list.len() ==> !t[#[trigger] list[j]].named,
        },
    decreases list.len(),
{
    if list.len() > 0 {
        let n = list.len() - 1;
        if t[list[n]].named {
            assert(list[n] == list.last());
        } else {
            let rest = list.drop_last();
            lemma_last_named(t, rest);
            match last_named(t, rest) {
                Some(c) => {
                    let k = choose|k: int|
                        0 <= k < rest.len() && #[trigger] rest[k] == c && t[c].named && forall|
                            j: int,
                        |
                            k < j < rest.len() ==> !t[#[trigger] rest[j]].named;
                    assert(list[k] == c);
                    assert forall|j: int| k < j < list.len() implies !t[#[trigger] list[j]].named by {
                        if j < n {
                            assert(rest[j] == list[j]);
                        }
                    }
                },
                None => {
                    assert forall|j: int| 0 <= j < list.len() implies !t[#[trigger] list[j]].named by {
                        if j < n {
                            assert(rest[j] == list[j]);
                        }
                    }
                },
            }
        }
    }
}

/// The last named sibling before a node.
pub proof fn lemma_named_before(t: Seq<NodeFacts>, i: int)
    requires
        is_preorder(t),
        0 <= i < t.len(),
    ensures
        match previous_named_sibling(t, i) {
            Some(s) => is_sibling_before(t, s, i) && t[s].named && 0 <= s < i && forall|d: int|
                s < d && #[trigger] is_sibling_before(t, d, i) ==> !t[d].named,
            None => forall|d: int| #[trigger] is_sibling_before(t, d, i) ==> !t[d].named,
        },
{
    lemma_parent(t, i);
    let p = parent_of(t, i);
    if i == 0 {
        assert forall|d: int| #[trigger] is_sibling_before(t, d, i) implies !t[d].named by {
            let q = choose|q: int| #[trigger] is_parent(t, q, i) && is_parent(t, q, d);
            lemma_is_parent(t, q, i);
        }
    } else {
        let list = children_before(t, p, i);
        lemma_children_ascend(t, p, i);
        lemma_children(t, p, i);
        lemma_last_named(t, list);
        match last_named(t, list) {
            Some(s) => {
                let k = choose|k: int|
                    0 <= k < list.len() && #[trigger] list[k] == s && t[s].named && forall|j: int|
                        k < j < list.len() ==> !t[#[trigger] list[j]].named;
                assert(list.contains(s));
                lemma_siblings(t, i, s);
                assert forall|d: int| s < d && #[trigger] is_sibling_before(
                    t,
                    d,
                    i,
                ) implies !t[d].named by {
                    lemma_siblings(t, i, d);
                    let j = choose|j: int| 0 <= j < list.len() && list[j] == d;
                    if j < k {
                        assert(list[j] < list[k]);
                    }
                    assert(!t[list[j]].named);
                }
            },
            None => {
                assert forall|d: int| #[trigger] is_sibling_before(t, d, i) implies !t[d].named by {
                    lemma_siblings(t, i, d);
                    let j = choose|j: int| 0 <= j < list.len() && list[j] == d;
                    assert(!t[list[j]].named);
                }
            },
        }
    }
}

/// Siblings before a sibling are siblings.
proof fn lemma_earlier_siblings(t: Seq<NodeFacts>, d: int, s: int, i: int)
    requires
        is_preorder(t),
        0 <= i < t.len(),
        is_sibling_before(t, s, i),
    ensures
        d < s ==> (is_sibling_before(t, d, s) <==> is_sibling_before(t, d, i)),
{
    let p = choose|p: int| #[trigger] is_parent(t, p, i) && is_parent(t, p, s);
    lemma_is_parent(t, p, i);
    lemma_is_parent(t, p, s);
    if d < s && is_sibling_before(t, d, s) {
        let q = choose|q: int| #[trigger] is_parent(t, q, s) && is_parent(t, q, d);
        lemma_is_parent(t, q, s);
        assert(is_parent(t, p, i) && is_parent(t, p, d));
    }
    if d < s && is_sibling_before(t, d, i) {
        let q = choose|q: int| #[trigger] is_parent(t, q, i) && is_parent(t, q, d);
        lemma_is_parent(t, q, i);
        assert(is_parent(t, p, s) && is_parent(t, p, d));
    }
}

proof fn lemma_mark_before(t: Seq<NodeFacts>, f: int, source: Seq<char>)
    requires
        is_preorder(t),
        0 <= f < t.len(),
    ensures
        test_attribute_before(t, f, source) <==> exists|s: int| #[trigger]
            is_mark_before(t, s, f, source),
    decreases f,
{
    lemma_named_before(t, f);
    match previous_named_sibling(t, f) {
        Some(s) => {
            lemma_test_mark(t, s, source);
            lemma_mark_before(t, s, source);
            if t[s].kind == "attribute_item"@ {
                if is_test_attribute(t, s, source) {
                    assert(is_mark_before(t, s, f, source));
                } else {
                    if exists|r: int| #[trigger] is_mark_before(t, r, s, source) {
                        let r = choose|r: int| #[trigger] is_mark_before(t, r, s, source);
                        lemma_earlier_siblings(t, r, s, f);
                        assert forall|d: int| r < d && #[trigger] is_sibling_before(t, d, f)
                            && t[d].named implies t[d].kind == "attribute_item"@ by {
                            lemma_earlier_siblings(t, d, s, f);
                        }
                        assert(is_mark_before(t, r, f, source));
                    }
                    if exists|r: int| #[trigger] is_mark_before(t, r, f, source) {
                        let r = choose|r: int| #[trigger] is_mark_before(t, r, f, source);
                        assert(r != s);
                        assert(r < s);
                        lemma_earlier_siblings(t, r, s, f);
                        assert forall|d: int| r < d && #[trigger] is_sibling_before(t, d, s)
                            && t[d].named implies t[d].kind == "attribute_item"@ by {
                            lemma_earlier_siblings(t, d, s, f);
                            assert(is_sibling_before(t, d, f));
                        }
                        assert(is_mark_before(t, r, s, source));
                    }
                }
            } else {
                assert forall|r: int| !#[trigger] is_mark_before(t, r, f, source) by {
                    if is_mark_before(t, r, f, source) {
                        assert(r <= s);
                        assert(is_sibling_before(t, s, f));
                    }
                }
            }
        },
        None => {},
    }
}

proof fn lemma_test(t: Seq<NodeFacts>, f: int, source: Seq<char>)
    requires
        is_preorder(t),
        0 <= f < t.len(),
    ensures
        is_test_entry(t, f, source) <==> is_marked_test(t, f, source),
{
    lemma_mark_before(t, f, source);
    let list = children_of(t, f);
    if test_attribute_inside(t, f, source) {
        let k = choose|k: int|
            0 <= k < list.len() && t[#[trigger] children_of(t, f)[k]].kind == "attribute_item"@
                && is_test_attribute(t, children_of(t, f)[k], source);
        let c = list[k];
        assert(list.contains(c));
        lemma_listed_children(t, f, c);
        lemma_test_mark(t, c, source);
        assert(is_parent(t, f, c));
    }
    if exists|c: int| #[trigger] is_parent(t, f, c) && is_test_mark(t, c, source) {
        let c = choose|c: int| #[trigger] is_parent(t, f, c) && is_test_mark(t, c, source);
        lemma_listed_children(t, f, c);
        lemma_test_mark(t, c, source);
        let k = choose|k: int| 0 <= k < list.len() && list[k] == c;
        assert(t[children_of(t, f)[k]].kind == "attribute_item"@);
    }
}

proof fn lemma_trait_named(t: Seq<NodeFacts>, p: int, source: Seq<char>)
    requires
        is_preorder(t),
        0 <= p < t.len(),
    ensures
        names_trait(t, p, source) <==> child_in_field(t, p, "trait"@) is Some || header_says_for(
            t,
            p,
            source,
        ),
{
    let a = "trait"@;
    let b = "body"@;
    let is_trait = |n: NodeFacts| n.field == Some(a);
    let is_body = |n: NodeFacts| n.field == Some(b);
    lemma_first_child(t, p, is_trait);
    lemma_first_child(t, p, is_body);
    let x = first_where(t, children_of(t, p), is_trait);
    let y = first_where(t, children_of(t, p), is_body);
    assert(x == child_in_field(t, p, "trait"@));
    assert(y == child_in_field(t, p, "body"@));
    if x is Some {
        assert(is_first_child(t, p, x->0, is_trait));
        assert(is_parent(t, p, x->0));
    }
    assert forall|c: int| #[trigger] is_body_of(t, p, c) <==> is_first_child(t, p, c, is_body) by {}
    assert forall|end: nat| #[trigger] is_header_end(t, p, end) <==> end == header_end(t, p) by {
        if y is Some {
            assert(is_first_child(t, p, y->0, is_body));
            assert(is_body_of(t, p, y->0));
            assert(is_parent(t, p, y->0));
        }
        if is_header_end(t, p, end) {
            if exists|c: int| #[trigger] is_body_of(t, p, c) && end == t[c].start_byte {
                let c = choose|c: int| #[trigger] is_body_of(t, p, c) && end == t[c].start_byte;
                assert(is_first_child(t, p, c, is_body));
            }
        }
    }
    assert(is_header_end(t, p, header_end(t, p)));
}

proof fn lemma_trait(t: Seq<NodeFacts>, f: int, source: Seq<char>)
    requires
        is_preorder(t),
        0 <= f < t.len(),
    ensures
        in_trait_impl(t, f, source) <==> implements_trait(t, f, source),
    decreases f,
{
    lemma_parent(t, f);
    let p = parent_of(t, f);
    if f == 0 {
        assert forall|q: int| !#[trigger] is_innermost_impl(t, q, f) by {}
    } else {
        lemma_is_parent(t, p, f);
        lemma_trait_named(t, p, source);
        assert forall|q: int| q < f implies (#[trigger] within(t, q, f) <==> within(t, q, p)) by {
            lemma_within_parent(t, q, f);
        }
        if t[p].kind == "impl_item"@ {
            assert forall|q: int| p < q < f && #[trigger] within(t, q, f) implies t[q].kind
                != "impl_item"@ by {
                assert(within(t, q, p));
            }
            assert(is_innermost_impl(t, p, f));
            assert forall|q: int| #[trigger] is_innermost_impl(t, q, f) implies q == p by {
                assert(within(t, q, p));
                assert(within(t, p, f));
            }
            if implements_trait(t, f, source) {
                let q = choose|q: int| #[trigger]
                    is_innermost_impl(t, q, f) && names_trait(t, q, source);
                assert(q == p);
            }
        } else {
            lemma_trait(t, p, source);
            assert forall|q: int| #[trigger] is_innermost_impl(t, q, f) <==> is_innermost_impl(
                t,
                q,
                p,
            ) by {
                if is_innermost_impl(t, q, f) {
                    assert(within(t, q, p));
                    assert(q != p);
                    assert forall|r: int| q < r < p && #[trigger] within(t, r, p) implies t[r].kind
                        != "impl_item"@ by {
                        assert(within(t, r, f));
                    }
                }
                if is_innermost_impl(t, q, p) {
                    assert(within(t, q, f));
                    assert forall|r: int| q < r < f && #[trigger] within(t, r, f) implies t[r].kind
                        != "impl_item"@ by {
                        assert(within(t, r, p));
                    }
                }
            }
            if implements_trait(t, f, source) {
                let q = choose|q: int| #[trigger]
                    is_innermost_impl(t, q, f) && names_trait(t, q, source);
                assert(is_innermost_impl(t, q, p));
            }
            if implements_trait(t, p, source) {
                let q = choose|q: int| #[trigger]
                    is_innermost_impl(t, q, p) && names_trait(t, q, source);
                assert(is_innermost_impl(t, q, f));
            }
            assert(in_trait_impl(t, f, source) == in_trait_impl(t, p, source));
        }
    }
}

/// What is known at first of who reaches a function: it is a test if an attribute marks
/// it; otherwise it is open to others if anything around it, however far out, is
/// exported or public, or if it implements a trait; otherwise it is private.
pub proof fn lemma_first_kind_goes_by_all_around(
    m: FunctionMetrics,
    t: Seq<NodeFacts>,
    rules: Rules,
    f: int,
    source: Seq<char>,
    file: Seq<char>,
)
    requires
        is_preorder(t),
        0 <= f < t.len(),
        describes(m, t, rules, f, source, file),
    ensures
        !m.reachability.is_reachable,
        m.reachability.kind@ == "test_entry"@ <==> is_marked_test(t, f, source),
        m.reachability.kind@ == "unreachable_export"@ <==> !is_marked_test(t, f, source) && (
        lies_open(t, f) || implements_trait(t, f, source)),
        m.reachability.kind@ == "unreachable_private"@ <==> !is_marked_test(t, f, source)
            && !lies_open(t, f) && !implements_trait(t, f, source),
{
    lemma_public(t, f);
    lemma_test(t, f, source);
    lemma_trait(t, f, source);
    reveal_strlit("test_entry");
    reveal_strlit("unreachable_export");
    reveal_strlit("unreachable_private");
    assert("test_entry"@.len() == 10);
    assert("unreachable_export"@.len() == 18);
    assert("unreachable_private"@.len() == 19);
}

} // verus!

//! What the syntax around a function tells of who can reach it.

use super::source::{slice_text, text_between};
use super::tree::{
    child_in_field, child_of_kind, children_of, parent_of, places,
    previous_named_sibling, previous_sibling, NodeFacts, SyntaxTree,
};
use crate::text::{
    begins_with, chars_of, contains, ends_with, finishes_with, has_part, slice_views, starts_with,
    string_of, trim, trimmed, words, words_of,
};
use vstd::prelude::*;

verus! {

/// Whether an attribute marks a test.
pub open spec fn is_test_attribute(t: Seq<NodeFacts>, i: int, source: Seq<char>) -> bool {
    match text_between(source, t[i].start_byte, t[i].end_byte) {
        Some(text) => {
            let attribute = trimmed(text);
            ||| attribute == "#[test]"@
            ||| finishes_with(attribute, "::test]"@)
            ||| has_part(attribute, "::test("@)
            ||| begins_with(attribute, "#[test("@)
        },
        None => false,
    }
}

/// Whether one of the attributes that stand in a row just before a node marks a
/// test.
pub open spec fn test_attribute_before(t: Seq<NodeFacts>, i: int, source: Seq<char>) -> bool
    decreases i,
{
    match previous_named_sibling(t, i) {
        Some(p) => t[p].kind == "attribute_item"@ && (is_test_attribute(t, p, source) || (0 <= p < i
            && test_attribute_before(t, p, source))),
        None => false,
    }
}

/// Whether an attribute inside a node marks a test.
pub open spec fn test_attribute_inside(t: Seq<NodeFacts>, i: int, source: Seq<char>) -> bool {
    exists|k: int|
        0 <= k < children_of(t, i).len() && t[#[trigger] children_of(t, i)[k]].kind
            == "attribute_item"@ && is_test_attribute(t, children_of(t, i)[k], source)
}

/// Whether a function is a test.
pub open spec fn is_test_entry(t: Seq<NodeFacts>, f: int, source: Seq<char>) -> bool {
    test_attribute_inside(t, f, source) || test_attribute_before(t, f, source)
}

fn test_attribute(tree: &SyntaxTree, i: usize, source: &str) -> (r: bool)
    requires
        i < tree@.len(),
    ensures
        r == is_test_attribute(tree@, i as int, source@),
{
    let node = tree.node(i);
    match slice_text(source, node.start_byte, node.end_byte) {
        Some(text) => {
            let chars = chars_of(text);
            let attribute = trim(chars.as_slice());
            string_of(attribute).as_str().eq("#[test]") || ends_with(attribute, "::test]")
                || contains(attribute, "::test(") || starts_with(attribute, "#[test(")
        },
        None => false,
    }
}

fn test_entry(tree: &SyntaxTree, f: usize, source: &str) -> (r: bool)
    requires
        f < tree@.len(),
    ensures
        r == is_test_entry(tree@, f as int, source@),
{
    let ghost t = tree@;
    let list = tree.children(f);
    let ghost all = children_of(t, f as int);
    for k in 0..list.len()
        invariant
            t == tree@,
            all == children_of(t, f as int),
            places(list@) == all,
            forall|j: int| 0 <= j < list.len() ==> f < #[trigger] list@[j] < t.len(),
            forall|j: int|
                0 <= j < k ==> !(t[#[trigger] all[j]].kind == "attribute_item"@
                    && is_test_attribute(t, all[j], source@)),
    {
        let c: usize = list[k];
        assert(all[k as int] == c);
        if tree.node(c).kind.eq("attribute_item") && test_attribute(tree, c, source) {
            assert(test_attribute_inside(t, f as int, source@));
            return true;
        }
    }
    assert(!test_attribute_inside(t, f as int, source@));
    let mut i: usize = f;
    loop
        invariant
            t == tree@,
            i < t.len(),
            test_attribute_before(t, f as int, source@) == test_attribute_before(
                t,
                i as int,
                source@,
            ),
            !test_attribute_inside(t, f as int, source@),
        decreases i,
    {
        match tree.previous_named_sibling(i) {
            Some(p) => {
                if !tree.node(p).kind.eq("attribute_item") {
                    return false;
                }
                if test_attribute(tree, p, source) {
                    return true;
                }
                i = p;
            },
            None => {
                return false;
            },
        }
    }
}

/// Whether a node, or one around it, is exported or public.
pub open spec fn is_public(t: Seq<NodeFacts>, i: int) -> bool
    decreases i,
{
    let p = parent_of(t, i);
    ||| t[i].kind == "export_statement"@ || t[i].kind == "public_field_definition"@ || t[i].kind
        == "visibility_modifier"@
    ||| child_of_kind(t, i, "visibility_modifier"@) is Some
    ||| match previous_sibling(t, i) {
        Some(s) => t[s].kind == "pub"@ || t[s].kind == "export"@,
        None => false,
    }
    ||| 0 <= p < i && is_public(t, p)
}

fn public(tree: &SyntaxTree, f: usize) -> (r: bool)
    requires
        f < tree@.len(),
    ensures
        r == is_public(tree@, f as int),
{
    let mut i: usize = f;
    loop
        invariant
            i < tree@.len(),
            is_public(tree@, f as int) == is_public(tree@, i as int),
        decreases i,
    {
        let kind = tree.node(i).kind;
        if kind.eq("export_statement") || kind.eq("public_field_definition") || kind.eq(
            "visibility_modifier",
        ) {
            return true;
        }
        if tree.child_of_kind(i, "visibility_modifier").is_some() {
            return true;
        }
        if let Some(s) = tree.previous_sibling(i) {
            let before = tree.node(s).kind;
            if before.eq("pub") || before.eq("export") {
                return true;
            }
        }
        match tree.parent(i) {
            Some(p) => {
                i = p;
            },
            None => {
                return false;
            },
        }
    }
}

/// Where the body of an implementation starts, or else where the node ends.
pub open spec fn header_end(t: Seq<NodeFacts>, i: int) -> nat {
    match child_in_field(t, i, "body"@) {
        Some(b) => t[b].start_byte,
        None => t[i].end_byte,
    }
}

/// Whether the header of an implementation says what it is for.
pub open spec fn header_says_for(t: Seq<NodeFacts>, i: int, source: Seq<char>) -> bool {
    match text_between(source, t[i].start_byte, header_end(t, i)) {
        Some(header) => words_of(header).contains("for"@),
        None => false,
    }
}

/// Whether the innermost implementation around a node is one of a trait.
pub open spec fn in_trait_impl(t: Seq<NodeFacts>, i: int, source: Seq<char>) -> bool
    decreases i,
{
    let p = parent_of(t, i);
    if !(0 <= p < i) {
        false
    } else if t[p].kind == "impl_item"@ {
        child_in_field(t, p, "trait"@) is Some || header_says_for(t, p, source)
    } else {
        in_trait_impl(t, p, source)
    }
}

fn says_for(header: &str) -> (r: bool)
    ensures
        r == words_of(header@).contains("for"@),
{
    let chars = chars_of(header);
    let list = words(chars.as_slice());
    let ghost all = slice_views(list@);
    for k in 0..list.len()
        invariant
            all == slice_views(list@),
            all == words_of(header@),
            forall|j: int| 0 <= j < k ==> #[trigger] all[j] != "for"@,
    {
        assert(all[k as int] == list@[k as int]@);
        if string_of(list[k]).as_str().eq("for") {
            return true;
        }
    }
    false
}

fn impl_header_declares_trait(tree: &SyntaxTree, i: usize, source: &str) -> (r: bool)
    requires
        i < tree@.len(),
    ensures
        r == header_says_for(tree@, i as int, source@),
{
    let node = tree.node(i);
    let end: usize = match tree.child_in_field(i, "body") {
        Some(b) => tree.node(b).start_byte,
        None => node.end_byte,
    };
    match slice_text(source, node.start_byte, end) {
        Some(header) => says_for(header),
        None => false,
    }
}

fn trait_impl_method(tree: &SyntaxTree, f: usize, source: &str) -> (r: bool)
    requires
        f < tree@.len(),
    ensures
        r == in_trait_impl(tree@, f as int, source@),
{
    let mut i: usize = f;
    loop
        invariant
            i < tree@.len(),
            in_trait_impl(tree@, f as int, source@) == in_trait_impl(tree@, i as int, source@),
        decreases i,
    {
        match tree.parent(i) {
            Some(p) => {
                if tree.node(p).kind.eq("impl_item") {
                    return tree.child_in_field(p, "trait").is_some() || impl_header_declares_trait(
                        tree,
                        p,
                        source,
                    );
                }
                i = p;
            },
            None => {
                return false;
            },
        }
    }
}

/// What is known at first of who reaches a function.
pub open spec fn initial_kind(t: Seq<NodeFacts>, f: int, source: Seq<char>) -> Seq<char> {
    if is_test_entry(t, f, source) {
        "test_entry"@
    } else if is_public(t, f) || in_trait_impl(t, f, source) {
        "unreachable_export"@
    } else {
        "unreachable_private"@
    }
}

/// Tells what is known at first of who reaches a function.
pub fn initial_reachability_kind(tree: &SyntaxTree, f: usize, source: &str) -> (s: String)
    requires
        f < tree@.len(),
    ensures
        s@ == initial_kind(tree@, f as int, source@),
{
    if test_entry(tree, f, source) {
        "test_entry".to_string()
    } else if public(tree, f) || trait_impl_method(tree, f, source) {
        "unreachable_export".to_string()
    } else {
        "unreachable_private".to_string()
    }
}

} // verus!

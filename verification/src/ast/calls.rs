//! The statements, identifiers and calls in the body of a function.

use super::complexity::{owner, place, Tally};
use super::source::{slice_text, text_between};
use super::tree::{child_in_field, end_of, found, named_child, NodeFacts, SyntaxTree};
use super::{LanguageSupport, Rules};
use crate::table::{ascending, sort_and_dedup};
use crate::text::{chars_of, string_of, views};
use vstd::prelude::*;
use vstd::slice::slice_subrange;

verus! {

/// Whether node `j` lies in the body of the function at `f`, and in no function
/// inside it.
pub open spec fn in_body(t: Seq<NodeFacts>, rules: Rules, f: int, j: int) -> bool {
    f < j < end_of(t, f) && owner(t, rules, j) == f
}

/// The kinds of nodes that are statements.
pub open spec fn is_executable_kind(kind: Seq<char>) -> bool {
    ||| kind == "return_statement"@
    ||| kind == "expression_statement"@
    ||| kind == "lexical_declaration"@
    ||| kind == "variable_declaration"@
    ||| kind == "let_declaration"@
    ||| kind == "assignment_expression"@
    ||| kind == "augmented_assignment_expression"@
    ||| kind == "call_expression"@
    ||| kind == "await_expression"@
    ||| kind == "yield_expression"@
    ||| kind == "throw_statement"@
    ||| kind == "break_statement"@
    ||| kind == "continue_statement"@
    ||| kind == "for_statement"@
    ||| kind == "while_statement"@
    ||| kind == "do_statement"@
    ||| kind == "if_statement"@
    ||| kind == "switch_statement"@
    ||| kind == "for_expression"@
    ||| kind == "while_expression"@
    ||| kind == "loop_expression"@
    ||| kind == "if_expression"@
    ||| kind == "match_expression"@
    ||| kind == "macro_invocation"@
    ||| kind == "declaration"@
}

fn executable_kind(kind: &str) -> (r: bool)
    ensures
        r == is_executable_kind(kind@),
{
    kind.eq("return_statement") || kind.eq("expression_statement") || kind.eq("lexical_declaration")
        || kind.eq("variable_declaration") || kind.eq("let_declaration") || kind.eq(
        "assignment_expression",
    ) || kind.eq("augmented_assignment_expression") || kind.eq("call_expression") || kind.eq(
        "await_expression",
    ) || kind.eq("yield_expression") || kind.eq("throw_statement") || kind.eq("break_statement")
        || kind.eq("continue_statement") || kind.eq("for_statement") || kind.eq("while_statement")
        || kind.eq("do_statement") || kind.eq("if_statement") || kind.eq("switch_statement")
        || kind.eq("for_expression") || kind.eq("while_expression") || kind.eq("loop_expression")
        || kind.eq("if_expression") || kind.eq("match_expression") || kind.eq("macro_invocation")
        || kind.eq("declaration")
}

/// The kinds of nodes that are identifiers.
pub open spec fn is_identifier_kind(kind: Seq<char>) -> bool {
    ||| kind == "identifier"@
    ||| kind == "property_identifier"@
    ||| kind == "field_identifier"@
    ||| kind == "type_identifier"@
    ||| kind == "scoped_identifier"@
}

fn identifier_kind(kind: &str) -> (r: bool)
    ensures
        r == is_identifier_kind(kind@),
{
    kind.eq("identifier") || kind.eq("property_identifier") || kind.eq("field_identifier")
        || kind.eq("type_identifier") || kind.eq("scoped_identifier")
}

/// The kinds of nodes that are calls.
pub open spec fn is_call_kind(kind: Seq<char>) -> bool {
    kind == "call_expression"@ || kind == "macro_invocation"@
}

/// The text of a node.
pub open spec fn node_text(t: Seq<NodeFacts>, i: int, source: Seq<char>) -> Option<Seq<char>> {
    text_between(source, t[i].start_byte, t[i].end_byte)
}

/// Whether a node is an identifier that can be read.
pub open spec fn is_identifier_at(t: Seq<NodeFacts>, i: int, source: Seq<char>) -> bool {
    is_identifier_kind(t[i].kind) && node_text(t, i, source) is Some
}

/// How many statements the body of `f` holds before node `n`.
pub open spec fn statements_before(t: Seq<NodeFacts>, rules: Rules, f: int, n: int) -> nat
    decreases n,
{
    if n <= f || n <= 0 {
        0
    } else {
        statements_before(t, rules, f, n - 1) + if in_body(t, rules, f, n - 1)
            && is_executable_kind(t[n - 1].kind) {
            1nat
        } else {
            0nat
        }
    }
}

/// How many identifiers the body of `f` holds before node `n`.
pub open spec fn identifiers_before(
    t: Seq<NodeFacts>,
    rules: Rules,
    source: Seq<char>,
    f: int,
    n: int,
) -> nat
    decreases n,
{
    if n <= f || n <= 0 {
        0
    } else {
        identifiers_before(t, rules, source, f, n - 1) + if in_body(t, rules, f, n - 1)
            && is_identifier_at(t, n - 1, source) {
            1nat
        } else {
            0nat
        }
    }
}

/// How many bytes those identifiers have together.
pub open spec fn identifier_bytes_before(
    t: Seq<NodeFacts>,
    rules: Rules,
    source: Seq<char>,
    f: int,
    n: int,
) -> nat
    decreases n,
{
    if n <= f || n <= 0 {
        0
    } else {
        identifier_bytes_before(t, rules, source, f, n - 1) + if in_body(t, rules, f, n - 1)
            && is_identifier_at(t, n - 1, source) {
            (t[n - 1].end_byte - t[n - 1].start_byte) as nat
        } else {
            0nat
        }
    }
}

/// What a function's body is made of.
pub struct BodyCounts {
    pub statements: u32,
    pub identifiers: usize,
    pub identifier_bytes: u128,
}

/// Counts the statements and identifiers in the body of a function.
pub fn count_body<L: LanguageSupport + ?Sized>(
    tree: &SyntaxTree,
    lang: &L,
    tallies: &Vec<Tally>,
    f: usize,
    source: &str,
) -> (r: BodyCounts)
    requires
        f < tree@.len(),
        tallies.len() == tree@.len(),
        forall|i: int|
            0 <= i < tallies.len() ==> owner(tree@, lang.rules(), i) == place(
                (#[trigger] tallies@[i]).owner,
            ),
    ensures
        r.statements == statements_before(
            tree@,
            lang.rules(),
            f as int,
            end_of(tree@, f as int),
        ),
        r.identifiers == identifiers_before(
            tree@,
            lang.rules(),
            source@,
            f as int,
            end_of(tree@, f as int),
        ),
        r.identifier_bytes == identifier_bytes_before(
            tree@,
            lang.rules(),
            source@,
            f as int,
            end_of(tree@, f as int),
        ),
{
    let ghost t = tree@;
    let ghost rules = lang.rules();
    let n = tree.len();
    let end = tree.end(f);
    let mut statements: u32 = 0;
    let mut identifiers: usize = 0;
    let mut identifier_bytes: u128 = 0;
    let mut j: usize = f + 1;
    assert(!in_body(t, rules, f as int, f as int));
    assert(statements_before(t, rules, f as int, f as int) == 0);
    assert(identifiers_before(t, rules, source@, f as int, f as int) == 0);
    assert(identifier_bytes_before(t, rules, source@, f as int, f as int) == 0);
    while j < end
        invariant
            t == tree@,
            rules == lang.rules(),
            tallies.len() == t.len(),
            forall|i: int|
                0 <= i < tallies.len() ==> owner(t, rules, i) == place(
                    (#[trigger] tallies@[i]).owner,
                ),
            f < j <= end <= t.len() <= u32::MAX,
            end == end_of(t, f as int),
            statements == statements_before(t, rules, f as int, j as int),
            identifiers == identifiers_before(t, rules, source@, f as int, j as int),
            identifier_bytes == identifier_bytes_before(t, rules, source@, f as int, j as int),
            statements <= j,
            identifiers <= j,
            identifier_bytes <= j * 0xffff_ffff_ffff_ffff,
        decreases end - j,
    {
        let node = tree.node(j);
        let mine = match tallies[j].owner {
            Some(g) => g == f,
            None => false,
        };
        assert(mine == in_body(t, rules, f as int, j as int));
        if mine {
            if executable_kind(node.kind) {
                statements = statements + 1;
            }
            if identifier_kind(node.kind) {
                if let Some(_text) = slice_text(source, node.start_byte, node.end_byte) {
                    identifiers = identifiers + 1;
                    identifier_bytes = identifier_bytes + (node.end_byte - node.start_byte) as u128;
                }
            }
        }
        j = j + 1;
    }
    BodyCounts { statements, identifiers, identifier_bytes }
}

/// Whether a character can stand in a name.
pub open spec fn is_word_char(c: char) -> bool {
    'a' <= c <= 'z' || 'A' <= c <= 'Z' || '0' <= c <= '9' || c == '_'
}

/// A text without what cannot stand in a name at its end.
pub open spec fn up_to_word(s: Seq<char>) -> Seq<char>
    decreases s.len(),
{
    if s.len() > 0 && !is_word_char(s.last()) {
        up_to_word(s.drop_last())
    } else {
        s
    }
}

/// The name that a text ends with.
pub open spec fn ending_word(s: Seq<char>) -> Seq<char>
    decreases s.len(),
{
    if s.len() > 0 && is_word_char(s.last()) {
        ending_word(s.drop_last()).push(s.last())
    } else {
        Seq::empty()
    }
}

/// The last name in a text.
pub open spec fn last_word(s: Seq<char>) -> Seq<char> {
    ending_word(up_to_word(s))
}

fn word_char(c: char) -> (r: bool)
    ensures
        r == is_word_char(c),
{
    ('a' <= c && c <= 'z') || ('A' <= c && c <= 'Z') || ('0' <= c && c <= '9') || c == '_'
}

/// The last name in a text, which is what is called in it.
pub fn normalize_call_name(text: &str) -> (name: String)
    ensures
        name@ == last_word(text@),
{
    let chars = chars_of(text);
    let ghost s = chars@;
    let mut end: usize = chars.len();
    assert(s.take(end as int) == s);
    while end > 0 && !word_char(chars[end - 1])
        invariant
            s == chars@,
            end <= chars.len(),
            up_to_word(s) == up_to_word(s.take(end as int)),
        decreases end,
    {
        assert(s.take(end as int).last() == s[end - 1]);
        assert(s.take(end as int).drop_last() == s.take(end - 1));
        end = end - 1;
    }
    assert(end > 0 ==> s.take(end as int).last() == s[end - 1]);
    assert(up_to_word(s) == s.take(end as int));
    let mut start: usize = end;
    assert(s.take(end as int) == s.take(start as int) && s.subrange(start as int, end as int)
        == Seq::<char>::empty());
    assert(last_word(s) == ending_word(s.take(start as int)) + s.subrange(
        start as int,
        end as int,
    ));
    while start > 0 && word_char(chars[start - 1])
        invariant
            s == chars@,
            start <= end <= chars.len(),
            last_word(s) == ending_word(s.take(start as int)) + s.subrange(
                start as int,
                end as int,
            ),
        decreases start,
    {
        assert(s.take(start as int).last() == s[start - 1]);
        assert(s.take(start as int).drop_last() == s.take(start - 1));
        assert(ending_word(s.take(start - 1)).push(s[start - 1]) + s.subrange(
            start as int,
            end as int,
        ) == ending_word(s.take(start - 1)) + s.subrange(start - 1, end as int));
        start = start - 1;
    }
    assert(start > 0 ==> s.take(start as int).last() == s[start - 1]);
    assert(ending_word(s.take(start as int)) == Seq::<char>::empty());
    assert(last_word(s) == s.subrange(start as int, end as int));
    string_of(slice_subrange(chars.as_slice(), start, end))
}

/// The node that tells what is called.
pub open spec fn call_target(t: Seq<NodeFacts>, i: int) -> Option<int> {
    match child_in_field(t, i, "function"@) {
        Some(c) => Some(c),
        None => match child_in_field(t, i, "name"@) {
            Some(c) => Some(c),
            None => named_child(t, i),
        },
    }
}

/// Whether the text of a node ends in a name.
pub open spec fn ends_in_name(
    t: Seq<NodeFacts>,
    i: int,
    source: Seq<char>,
    name: Seq<char>,
) -> bool {
    node_text(t, i, source) is Some && name == last_word(node_text(t, i, source)->0) && name.len()
        > 0
}

/// Whether a node mentions a name: as an identifier, or as what is called.
pub open spec fn mentions(
    t: Seq<NodeFacts>,
    j: int,
    source: Seq<char>,
    name: Seq<char>,
) -> bool {
    ||| is_identifier_kind(t[j].kind) && ends_in_name(t, j, source, name)
    ||| is_call_kind(t[j].kind) && call_target(t, j) is Some && ends_in_name(
        t,
        call_target(t, j)->0,
        source,
        name,
    )
}

/// Whether the body of the function at `f` mentions a name before node `n`.
pub open spec fn mentioned_before(
    t: Seq<NodeFacts>,
    rules: Rules,
    source: Seq<char>,
    f: int,
    n: int,
    name: Seq<char>,
) -> bool {
    exists|j: int| j < n && #[trigger] in_body(t, rules, f, j) && mentions(t, j, source, name)
}

/// Whether the body of the function at `f` mentions a name.
pub open spec fn mentioned(
    t: Seq<NodeFacts>,
    rules: Rules,
    source: Seq<char>,
    f: int,
    name: Seq<char>,
) -> bool {
    mentioned_before(t, rules, source, f, end_of(t, f), name)
}

/// The name that the text of a node ends in.
fn name_at(tree: &SyntaxTree, i: usize, source: &str) -> (r: Option<String>)
    requires
        i < tree@.len(),
    ensures
        match r {
            Some(name) => ends_in_name(tree@, i as int, source@, name@),
            None => forall|name: Seq<char>| !ends_in_name(tree@, i as int, source@, name),
        },
{
    let node = tree.node(i);
    match slice_text(source, node.start_byte, node.end_byte) {
        Some(text) => {
            let name = normalize_call_name(text);
            if name.as_str().is_empty() {
                None
            } else {
                Some(name)
            }
        },
        None => None,
    }
}

fn find_call_target(tree: &SyntaxTree, i: usize) -> (r: Option<usize>)
    requires
        i < tree@.len(),
    ensures
        found(r) == call_target(tree@, i as int),
        r matches Some(c) ==> c < tree@.len(),
{
    if let Some(c) = tree.child_in_field(i, "function") {
        return Some(c);
    }
    if let Some(c) = tree.child_in_field(i, "name") {
        return Some(c);
    }
    tree.named_child(i)
}

/// The names that a node mentions.
fn names_at(tree: &SyntaxTree, j: usize, source: &str) -> (r: Vec<String>)
    requires
        j < tree@.len(),
    ensures
        forall|name: Seq<char>| #[trigger]
            views(r@).contains(name) <==> mentions(tree@, j as int, source@, name),
{
    let mut list: Vec<String> = Vec::new();
    let kind = tree.node(j).kind;
    let mut first: Option<String> = None;
    let mut second: Option<String> = None;
    if identifier_kind(kind) {
        first = name_at(tree, j, source);
    }
    if kind.eq("call_expression") || kind.eq("macro_invocation") {
        if let Some(c) = find_call_target(tree, j) {
            second = name_at(tree, c, source);
        }
    }
    let ghost a = first;
    let ghost b = second;
    if let Some(name) = first {
        list.push(name);
        assert(views(list@)[0] == name@);
    }
    if let Some(name) = second {
        list.push(name);
        assert(views(list@).last() == name@);
    }
    proof {
        assert forall|name: Seq<char>| #[trigger] views(list@).contains(name) <==> mentions(
            tree@,
            j as int,
            source@,
            name,
        ) by {
            let all = views(list@);
            if all.contains(name) {
                let k = choose|k: int| 0 <= k < all.len() && all[k] == name;
                assert(list@[k]@ == name);
            }
            if mentions(tree@, j as int, source@, name) {
                if a is Some && a->0@ == name {
                    assert(all[0] == name);
                } else {
                    assert(b is Some && b->0@ == name);
                    assert(all[all.len() - 1] == name);
                }
            }
        }
    }
    list
}

/// The names that the body of a function mentions, in order and each once.
pub fn collect_call_names<L: LanguageSupport + ?Sized>(
    tree: &SyntaxTree,
    lang: &L,
    tallies: &Vec<Tally>,
    f: usize,
    source: &str,
) -> (calls: Vec<String>)
    requires
        f < tree@.len(),
        tallies.len() == tree@.len(),
        forall|i: int|
            0 <= i < tallies.len() ==> owner(tree@, lang.rules(), i) == place(
                (#[trigger] tallies@[i]).owner,
            ),
    ensures
        ascending(views(calls@)),
        forall|name: Seq<char>| #[trigger]
            views(calls@).contains(name) <==> mentioned(
                tree@,
                lang.rules(),
                source@,
                f as int,
                name,
            ),
{
    let ghost t = tree@;
    let ghost rules = lang.rules();
    let end = tree.end(f);
    let mut calls: Vec<String> = Vec::new();
    let mut j: usize = f + 1;
    assert(views(calls@) == Seq::<Seq<char>>::empty());
    while j < end
        invariant
            t == tree@,
            rules == lang.rules(),
            tallies.len() == t.len(),
            forall|i: int|
                0 <= i < tallies.len() ==> owner(t, rules, i) == place(
                    (#[trigger] tallies@[i]).owner,
                ),
            f < j <= end <= t.len(),
            end == end_of(t, f as int),
            forall|name: Seq<char>| #[trigger]
                views(calls@).contains(name) <==> mentioned_before(
                    t,
                    rules,
                    source@,
                    f as int,
                    j as int,
                    name,
                ),
        decreases end - j,
    {
        let mine = match tallies[j].owner {
            Some(g) => g == f,
            None => false,
        };
        assert(mine == in_body(t, rules, f as int, j as int));
        let ghost before = views(calls@);
        if mine {
            let mut more = names_at(tree, j, source);
            let ghost added = views(more@);
            calls.append(&mut more);
            proof {
                assert(views(calls@) == before + added);
                assert forall|name: Seq<char>| #[trigger]
                    views(calls@).contains(name) <==> mentioned_before(
                        t,
                        rules,
                        source@,
                        f as int,
                        j + 1,
                        name,
                    ) by {
                    vstd::seq_lib::lemma_seq_concat_contains_all_elements(before, added, name);
                    if mentioned_before(t, rules, source@, f as int, j as int, name) {
                        let k = choose|k: int|
                            k < j && #[trigger] in_body(t, rules, f as int, k) && mentions(
                                t,
                                k,
                                source@,
                                name,
                            );
                        assert(k < j + 1 && in_body(t, rules, f as int, k));
                    }
                    if mentioned_before(t, rules, source@, f as int, j + 1, name) {
                        let k = choose|k: int|
                            k < j + 1 && #[trigger] in_body(t, rules, f as int, k) && mentions(
                                t,
                                k,
                                source@,
                                name,
                            );
                        if k < j {
                            assert(mentioned_before(t, rules, source@, f as int, j as int, name));
                        } else {
                            assert(added.contains(name));
                        }
                    }
                    if added.contains(name) {
                        assert(in_body(t, rules, f as int, j as int));
                    }
                }
            }
        } else {
            proof {
                assert forall|name: Seq<char>| #[trigger]
                    views(calls@).contains(name) <==> mentioned_before(
                        t,
                        rules,
                        source@,
                        f as int,
                        j + 1,
                        name,
                    ) by {
                    if mentioned_before(t, rules, source@, f as int, j + 1, name) {
                        let k = choose|k: int|
                            k < j + 1 && #[trigger] in_body(t, rules, f as int, k) && mentions(
                                t,
                                k,
                                source@,
                                name,
                            );
                        assert(k < j);
                    }
                    if mentioned_before(t, rules, source@, f as int, j as int, name) {
                        let k = choose|k: int|
                            k < j && #[trigger] in_body(t, rules, f as int, k) && mentions(
                                t,
                                k,
                                source@,
                                name,
                            );
                        assert(k < j + 1 && in_body(t, rules, f as int, k));
                    }
                }
            }
        }
        j = j + 1;
    }
    sort_and_dedup(&mut calls);
    calls
}

} // verus!

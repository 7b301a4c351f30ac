//! What is read off the text and the nodes of a function, told by counting.

use super::calls::{
    call_target, identifier_bytes_before, identifiers_before, in_body, is_identifier_at, last_word,
    ending_word, statements_before, up_to_word,
};
use super::engine::describes;
use super::measures::{lemma_owns, owns};
use super::shape::{is_parent, lemma_first_child, lemma_within_end};
use super::source::text_between;
use super::tables::{is_first_as, lemma_first_as};
use super::tree::{end_of, is_preorder, named_child, NodeFacts};
use super::Rules;
use crate::liveness::is_listed;
use crate::metrics::FunctionMetrics;
use crate::text::views;
use vstd::prelude::*;

verus! {

/// Whether a node lies in a function, not being it, and in no function inside it.
pub open spec fn is_inside(t: Seq<NodeFacts>, rules: Rules, f: int, i: int) -> bool {
    i != f && owns(t, rules, f, i)
}

proof fn lemma_inside(t: Seq<NodeFacts>, rules: Rules, f: int, i: int)
    requires
        is_preorder(t),
        0 <= f < t.len(),
    ensures
        is_inside(t, rules, f, i) <==> in_body(t, rules, f, i),
        in_body(t, rules, f, i) ==> i < t.len(),
{
    super::tree::lemma_first_back_at(t, f + 1, t[f].depth);
    if is_inside(t, rules, f, i) || in_body(t, rules, f, i) {
        lemma_owns(t, rules, f, i);
        lemma_within_end(t, f, i);
    }
}

/// The kinds of nodes that do something.
pub open spec fn doing_kinds() -> Set<Seq<char>> {
    set![
        "return_statement"@,
        "expression_statement"@,
        "lexical_declaration"@,
        "variable_declaration"@,
        "let_declaration"@,
        "assignment_expression"@,
        "augmented_assignment_expression"@,
        "call_expression"@,
        "await_expression"@,
        "yield_expression"@,
        "throw_statement"@,
        "break_statement"@,
        "continue_statement"@,
        "for_statement"@,
        "while_statement"@,
        "do_statement"@,
        "if_statement"@,
        "switch_statement"@,
        "for_expression"@,
        "while_expression"@,
        "loop_expression"@,
        "if_expression"@,
        "match_expression"@,
        "macro_invocation"@,
        "declaration"@,
    ]
}

/// The kinds of nodes that name something.
pub open spec fn naming_kinds() -> Set<Seq<char>> {
    set![
        "identifier"@,
        "property_identifier"@,
        "field_identifier"@,
        "type_identifier"@,
        "scoped_identifier"@,
    ]
}

/// The nodes of a function that do something.
pub open spec fn doings(t: Seq<NodeFacts>, rules: Rules, f: int) -> Set<int> {
    Set::new(|i: int| is_inside(t, rules, f, i) && doing_kinds().contains(t[i].kind))
}

/// Whether a node names something and its text can be read.
pub open spec fn is_readable_name(t: Seq<NodeFacts>, i: int, source: Seq<char>) -> bool {
    naming_kinds().contains(t[i].kind) && text_between(source, t[i].start_byte, t[i].end_byte)
        is Some
}

/// The nodes of a function that name something.
pub open spec fn namings(t: Seq<NodeFacts>, rules: Rules, f: int, source: Seq<char>) -> Set<int> {
    Set::new(|i: int| is_inside(t, rules, f, i) && is_readable_name(t, i, source))
}

/// Their bytes, one by one.
pub open spec fn naming_bytes(t: Seq<NodeFacts>, rules: Rules, f: int, source: Seq<char>) -> Set<
    (int, int),
> {
    Set::new(
        |u: (int, int)|
            is_inside(t, rules, f, u.0) && is_readable_name(t, u.0, source)
                && t[u.0].start_byte <= u.1 < t[u.0].end_byte,
    )
}

proof fn lemma_doings_before(t: Seq<NodeFacts>, rules: Rules, f: int, n: int)
    requires
        is_preorder(t),
        0 <= f < t.len(),
    ensures
        ({
            let s = doings(t, rules, f).filter(|i: int| i < n);
            s.finite() && s.len() == statements_before(t, rules, f, n)
        }),
    decreases n,
{
    let s = doings(t, rules, f).filter(|i: int| i < n);
    if n <= f || n <= 0 {
        assert(s =~= Set::<int>::empty());
    } else {
        lemma_doings_before(t, rules, f, n - 1);
        let had = doings(t, rules, f).filter(|i: int| i < n - 1);
        lemma_inside(t, rules, f, n - 1);
        if is_inside(t, rules, f, n - 1) && doing_kinds().contains(t[n - 1].kind) {
            assert(s =~= had.insert(n - 1));
        } else {
            assert(s =~= had);
        }
    }
}

proof fn lemma_namings_before(t: Seq<NodeFacts>, rules: Rules, f: int, source: Seq<char>, n: int)
    requires
        is_preorder(t),
        0 <= f < t.len(),
    ensures
        ({
            let s = namings(t, rules, f, source).filter(|i: int| i < n);
            s.finite() && s.len() == identifiers_before(t, rules, source, f, n)
        }),
        ({
            let s = naming_bytes(t, rules, f, source).filter(|u: (int, int)| u.0 < n);
            s.finite() && s.len() == identifier_bytes_before(t, rules, source, f, n)
        }),
    decreases n,
{
    let s = namings(t, rules, f, source).filter(|i: int| i < n);
    let b = naming_bytes(t, rules, f, source).filter(|u: (int, int)| u.0 < n);
    if n <= f || n <= 0 {
        assert(s =~= Set::<int>::empty());
        assert(b =~= Set::<(int, int)>::empty());
    } else {
        lemma_namings_before(t, rules, f, source, n - 1);
        let had = namings(t, rules, f, source).filter(|i: int| i < n - 1);
        let held = naming_bytes(t, rules, f, source).filter(|u: (int, int)| u.0 < n - 1);
        lemma_inside(t, rules, f, n - 1);
        assert(is_readable_name(t, n - 1, source) == is_identifier_at(t, n - 1, source));
        if is_inside(t, rules, f, n - 1) && is_readable_name(t, n - 1, source) {
            assert(s =~= had.insert(n - 1));
            let lo = t[n - 1].start_byte as int;
            let hi = t[n - 1].end_byte as int;
            lemma_readable(t, n - 1, source);
            let range = vstd::set_lib::set_int_range(lo, hi);
            vstd::set_lib::lemma_int_range(lo, hi);
            let put = |k: int| (n - 1, k);
            let new = range.map(put);
            vstd::set_lib::lemma_map_size(range, new, put);
            assert forall|u: (int, int)| b.contains(u) <==> (held + new).contains(u) by {
                if b.contains(u) && u.0 == n - 1 {
                    assert(range.contains(u.1));
                    assert(put(u.1) == u);
                }
            }
            assert(b =~= held + new);
            assert(held.disjoint(new));
            vstd::set_lib::lemma_set_disjoint_lens(held, new);
        } else {
            assert(s =~= had);
            assert(b =~= held);
        }
    }
}

proof fn lemma_readable(t: Seq<NodeFacts>, i: int, source: Seq<char>)
    requires
        text_between(source, t[i].start_byte, t[i].end_byte) is Some,
    ensures
        t[i].start_byte <= t[i].end_byte,
{
}

/// A function is told with the number of things that its own nodes do, those of
/// functions inside it left out, and is hollow if there are none. Its identifiers are
/// counted in the same way, and their bytes.
pub proof fn lemma_statements_and_names_are_counted(
    m: FunctionMetrics,
    t: Seq<NodeFacts>,
    rules: Rules,
    f: int,
    source: Seq<char>,
    file: Seq<char>,
)
    requires
        is_preorder(t),
        0 <= f < t.len(),
        describes(m, t, rules, f, source, file),
    ensures
        m.executable_statements == doings(t, rules, f).len(),
        m.is_hollow <==> forall|i: int| #[trigger]
            is_inside(t, rules, f, i) ==> !doing_kinds().contains(t[i].kind),
        m.identifier_verbosity.denominator == namings(t, rules, f, source).len(),
        m.identifier_verbosity.numerator == naming_bytes(t, rules, f, source).len(),
{
    let end = end_of(t, f);
    lemma_doings_before(t, rules, f, end);
    lemma_namings_before(t, rules, f, source, end);
    assert forall|i: int| is_inside(t, rules, f, i) implies i < end by {
        lemma_inside(t, rules, f, i);
    }
    assert(doings(t, rules, f).filter(|i: int| i < end) =~= doings(t, rules, f));
    assert(namings(t, rules, f, source).filter(|i: int| i < end) =~= namings(t, rules, f, source));
    assert(naming_bytes(t, rules, f, source).filter(|u: (int, int)| u.0 < end) =~= naming_bytes(
        t,
        rules,
        f,
        source,
    ));
    if m.is_hollow {
        assert forall|i: int| #[trigger]
            is_inside(t, rules, f, i) implies !doing_kinds().contains(t[i].kind) by {
            assert(doings(t, rules, f) =~= Set::<int>::empty());
            assert(!doings(t, rules, f).contains(i));
        }
    } else if forall|i: int| #[trigger]
        is_inside(t, rules, f, i) ==> !doing_kinds().contains(t[i].kind) {
        assert(doings(t, rules, f) =~= Set::<int>::empty());
    }
}

/// Whether a character can stand in a name.
pub open spec fn can_stand_in_name(c: char) -> bool {
    'a' <= c <= 'z' || 'A' <= c <= 'Z' || '0' <= c <= '9' || c == '_'
}

/// Whether this part of a text is its last name: nothing behind it can stand in a name,
/// and it begins as early as it can.
pub open spec fn is_last_name(s: Seq<char>, from: int, to: int) -> bool {
    &&& 0 <= from < to <= s.len()
    &&& forall|k: int| from <= k < to ==> can_stand_in_name(#[trigger] s[k])
    &&& forall|k: int| to <= k < s.len() ==> !can_stand_in_name(#[trigger] s[k])
    &&& from == 0 || !can_stand_in_name(s[from - 1])
}

proof fn lemma_ending_word(s: Seq<char>)
    ensures
        ({
            let n = s.len() - ending_word(s).len();
            &&& 0 <= n <= s.len()
            &&& ending_word(s) == s.skip(n)
            &&& forall|k: int| n <= k < s.len() ==> can_stand_in_name(#[trigger] s[k])
            &&& n == 0 || !can_stand_in_name(s[n - 1])
        }),
    decreases s.len(),
{
    if s.len() > 0 && can_stand_in_name(s.last()) {
        let d = s.drop_last();
        lemma_ending_word(d);
        let n = d.len() - ending_word(d).len();
        assert(ending_word(s) =~= s.skip(n));
        assert forall|k: int| n <= k < s.len() implies can_stand_in_name(#[trigger] s[k]) by {
            if k < d.len() {
                assert(d[k] == s[k]);
            }
        }
    } else {
        assert(ending_word(s) =~= s.skip(s.len() as int));
    }
}

proof fn lemma_up_to_word(s: Seq<char>)
    ensures
        ({
            let n = up_to_word(s).len() as int;
            &&& 0 <= n <= s.len()
            &&& up_to_word(s) == s.take(n)
            &&& forall|k: int| n <= k < s.len() ==> !can_stand_in_name(#[trigger] s[k])
            &&& n == 0 || can_stand_in_name(s[n - 1])
        }),
    decreases s.len(),
{
    if s.len() > 0 && !can_stand_in_name(s.last()) {
        let d = s.drop_last();
        lemma_up_to_word(d);
        let n = up_to_word(d).len() as int;
        assert(d.take(n) =~= s.take(n));
        assert forall|k: int| n <= k < s.len() implies !can_stand_in_name(#[trigger] s[k]) by {
            if k < d.len() {
                assert(d[k] == s[k]);
            }
        }
    } else {
        assert(s.take(s.len() as int) =~= s);
    }
}

/// Whether a text has a name as its last.
pub open spec fn has_last_name(s: Seq<char>, name: Seq<char>) -> bool {
    exists|from: int, to: int| #[trigger] is_last_name(s, from, to) && name == s.subrange(from, to)
}

proof fn lemma_last_name(s: Seq<char>, name: Seq<char>)
    ensures
        has_last_name(s, name) <==> name == last_word(s) && name.len() > 0,
{
    lemma_up_to_word(s);
    let u = up_to_word(s);
    let to = u.len() as int;
    lemma_ending_word(u);
    let from = u.len() - ending_word(u).len();
    if last_word(s).len() > 0 {
        assert(u.skip(from) =~= s.subrange(from, to));
        assert forall|k: int| from <= k < to implies can_stand_in_name(#[trigger] s[k]) by {
            assert(u[k] == s[k]);
        }
        if from > 0 {
            assert(u[from - 1] == s[from - 1]);
        }
        assert(is_last_name(s, from, to));
    }
    if has_last_name(s, name) {
        let (a, b) = choose|a: int, b: int| #[trigger]
            is_last_name(s, a, b) && name == s.subrange(a, b);
        assert(can_stand_in_name(s[b - 1]));
        if b < to {
            assert(can_stand_in_name(s[to - 1]));
        }
        if to < b {
            assert(!can_stand_in_name(s[b - 1]));
        }
        assert(b == to);
        if a < from {
            assert(u[from - 1] == s[from - 1]);
            assert(!can_stand_in_name(s[from - 1]));
        }
        if from < a {
            assert(u[a - 1] == s[a - 1]);
            assert(can_stand_in_name(u[a - 1]));
        }
        assert(a == from);
        assert(u.skip(from) =~= s.subrange(from, to));
    }
}

/// Whether a node is the first right below another that is named.
pub open spec fn is_first_named(t: Seq<NodeFacts>, p: int, c: int) -> bool {
    &&& is_parent(t, p, c)
    &&& t[c].named
    &&& forall|d: int| #[trigger] is_parent(t, p, d) && d < c ==> !t[d].named
}

/// Whether a node has no child in a role.
pub open spec fn has_none_as(t: Seq<NodeFacts>, p: int, role: Seq<char>) -> bool {
    forall|d: int| #[trigger] is_parent(t, p, d) ==> t[d].field != Some(role)
}

/// Whether a node says what a call is of: the function, else the name, else what comes
/// first.
pub open spec fn is_called_by(t: Seq<NodeFacts>, j: int, c: int) -> bool {
    ||| is_first_as(t, j, c, "function"@)
    ||| has_none_as(t, j, "function"@) && is_first_as(t, j, c, "name"@)
    ||| has_none_as(t, j, "function"@) && has_none_as(t, j, "name"@) && is_first_named(t, j, c)
}

/// Whether the text of a node ends in a name.
pub open spec fn ends_in(t: Seq<NodeFacts>, i: int, source: Seq<char>, name: Seq<char>) -> bool {
    match text_between(source, t[i].start_byte, t[i].end_byte) {
        Some(text) => has_last_name(text, name),
        None => false,
    }
}

/// Whether a node says a name: as an identifier, or as what is called.
pub open spec fn says_name(t: Seq<NodeFacts>, j: int, source: Seq<char>, name: Seq<char>) -> bool {
    ||| naming_kinds().contains(t[j].kind) && ends_in(t, j, source, name)
    ||| (t[j].kind == "call_expression"@ || t[j].kind == "macro_invocation"@) && exists|c: int|
        #[trigger] is_called_by(t, j, c) && ends_in(t, c, source, name)
}

proof fn lemma_called_by(t: Seq<NodeFacts>, j: int)
    requires
        is_preorder(t),
        0 <= j < t.len(),
    ensures
        forall|c: int| #[trigger] is_called_by(t, j, c) <==> call_target(t, j) == Some(c),
{
    lemma_first_as(t, j, "function"@);
    lemma_first_as(t, j, "name"@);
    let wanted = |n: NodeFacts| n.named;
    lemma_first_child(t, j, wanted);
    assert forall|c: int| #[trigger] is_first_named(t, j, c) <==> named_child(t, j) == Some(c) by {
        assert(is_first_named(t, j, c) <==> super::shape::is_first_child(t, j, c, wanted));
    }
    assert forall|c: int| #[trigger] is_called_by(t, j, c) <==> call_target(t, j) == Some(c) by {
        assert(is_first_as(t, j, c, "function"@) <==> super::tree::child_in_field(
            t,
            j,
            "function"@,
        ) == Some(c));
        assert(is_first_as(t, j, c, "name"@) <==> super::tree::child_in_field(t, j, "name"@)
            == Some(c));
        assert(is_first_named(t, j, c) <==> named_child(t, j) == Some(c));
    }
}

proof fn lemma_says_name(t: Seq<NodeFacts>, j: int, source: Seq<char>, name: Seq<char>)
    requires
        is_preorder(t),
        0 <= j < t.len(),
    ensures
        says_name(t, j, source, name) <==> super::calls::mentions(t, j, source, name),
{
    lemma_called_by(t, j);
    if let Some(text) = text_between(source, t[j].start_byte, t[j].end_byte) {
        lemma_last_name(text, name);
    }
    if let Some(c) = call_target(t, j) {
        assert(is_called_by(t, j, c));
        if let Some(text) = text_between(source, t[c].start_byte, t[c].end_byte) {
            lemma_last_name(text, name);
        }
    }
}

/// A function is first told with exactly the names that its own nodes say, those of
/// functions inside it left out.
pub proof fn lemma_said_names_are_told(
    m: FunctionMetrics,
    t: Seq<NodeFacts>,
    rules: Rules,
    f: int,
    source: Seq<char>,
    file: Seq<char>,
    name: Seq<char>,
)
    requires
        is_preorder(t),
        0 <= f < t.len(),
        describes(m, t, rules, f, source, file),
    ensures
        is_listed(m.coupling.callees@, name) <==> exists|j: int| #[trigger]
            is_inside(t, rules, f, j) && says_name(t, j, source, name),
{
    let list = m.coupling.callees@;
    assert(views(list).contains(name) <==> super::calls::mentioned(t, rules, source, f, name));
    if is_listed(list, name) {
        let k = choose|k: int| 0 <= k < list.len() && (#[trigger] list[k])@ == name;
        assert(views(list)[k] == name);
        let j = choose|j: int| #[trigger]
            in_body(t, rules, f, j) && super::calls::mentions(t, j, source, name);
        lemma_inside(t, rules, f, j);
        lemma_says_name(t, j, source, name);
        assert(is_inside(t, rules, f, j));
    }
    if exists|j: int| #[trigger] is_inside(t, rules, f, j) && says_name(t, j, source, name) {
        let j = choose|j: int| #[trigger]
            is_inside(t, rules, f, j) && says_name(t, j, source, name);
        lemma_inside(t, rules, f, j);
        lemma_says_name(t, j, source, name);
        assert(in_body(t, rules, f, j));
        let k = choose|k: int| 0 <= k < views(list).len() && views(list)[k] == name;
        assert(list[k]@ == name);
    }
}

} // verus!

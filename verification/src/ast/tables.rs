//! What each language counts, and by which ending a file is told to be of it.

use crate::ast::engine::is_measurable;
use crate::ast::parser::refusal;
use crate::ast::shape::{is_first_child, is_parent, lemma_first_child, lemma_is_parent};
use crate::ast::source::{lemma_encode_adds, text_between, text_or_unknown};
use crate::ast::tree::{child_in_field, child_of_kind, in_range, is_preorder, NodeFacts};
use crate::ast::typescript::{identifier_child, is_identifier};
use crate::ast::{Grammar, Rules};
use crate::path::{after_last, extension_of};
use crate::registry::{grammar_at, rules_of};
use crate::text::{first_index, lemma_first_index, split_on};
use vstd::prelude::*;
use vstd::utf8::{encode_utf8, is_char_boundary};

verus! {

/// Which nodes of Rust count: functions and methods are measured; conditions and loops
/// count by their depth, a `match` by itself, and operators by their chains; arms and
/// `?` open another path as all of those but the operators do.
pub proof fn lemma_what_counts_in_rust(kind: Seq<char>)
    ensures
        ({
            let rules = rules_of(Grammar::Rust);
            &&& (rules.function)(kind) <==> set!["function_item"@, "method_declaration"@].contains(
                kind,
            )
            &&& (rules.cognitive)(kind) is Nesting <==> set![
                "if_expression"@,
                "if_let_expression"@,
                "for_expression"@,
                "while_expression"@,
                "loop_expression"@,
            ].contains(kind)
            &&& (rules.cognitive)(kind) is Structure <==> kind == "match_expression"@
            &&& (rules.cognitive)(kind) is Logical <==> kind == "binary_expression"@
            &&& (rules.increment)(kind) <==> (rules.cognitive)(kind) is Nesting || set![
                "match_expression"@,
                "match_arm"@,
                "match_pattern"@,
                "?"@,
            ].contains(kind)
            &&& (rules.function)(kind) ==> (rules.cognitive)(kind) is Nothing
                && !(rules.increment)(kind)
        }),
{
    reveal_strlit("if_expression");
    reveal_strlit("if_let_expression");
    reveal_strlit("for_expression");
    reveal_strlit("while_expression");
    reveal_strlit("loop_expression");
    reveal_strlit("match_expression");
    reveal_strlit("binary_expression");
    reveal_strlit("function_item");
    reveal_strlit("method_declaration");
    reveal_strlit("match_arm");
    reveal_strlit("match_pattern");
    reveal_strlit("?");
    assert("if_expression"@.len() == 13 && "if_expression"@[0] == 'i');
    assert("if_let_expression"@.len() == 17 && "if_let_expression"@[0] == 'i');
    assert("for_expression"@.len() == 14 && "for_expression"@[0] == 'f');
    assert("while_expression"@.len() == 16 && "while_expression"@[0] == 'w');
    assert("loop_expression"@.len() == 15 && "loop_expression"@[0] == 'l');
    assert("match_expression"@.len() == 16 && "match_expression"@[0] == 'm');
    assert("binary_expression"@.len() == 17 && "binary_expression"@[0] == 'b');
    assert("function_item"@.len() == 13 && "function_item"@[0] == 'f');
    assert("method_declaration"@.len() == 18);
    assert("match_arm"@.len() == 9);
    assert("match_pattern"@.len() == 13 && "match_pattern"@[0] == 'm');
    assert("?"@.len() == 1);
}

/// Which nodes of C count.
pub proof fn lemma_what_counts_in_c(kind: Seq<char>)
    ensures
        ({
            let rules = rules_of(Grammar::C);
            &&& (rules.function)(kind) <==> kind == "function_definition"@
            &&& (rules.cognitive)(kind) is Nesting <==> set![
                "if_statement"@,
                "for_statement"@,
                "while_statement"@,
                "do_statement"@,
                "conditional_expression"@,
            ].contains(kind)
            &&& (rules.cognitive)(kind) is Structure <==> kind == "switch_statement"@
            &&& (rules.cognitive)(kind) is Logical <==> kind == "binary_expression"@
            &&& (rules.increment)(kind) <==> (rules.cognitive)(kind) is Nesting || set![
                "case_statement"@,
                "&&"@,
                "||"@,
            ].contains(kind)
            &&& (rules.function)(kind) ==> (rules.cognitive)(kind) is Nothing
                && !(rules.increment)(kind)
        }),
{
    reveal_strlit("function_definition");
    reveal_strlit("if_statement");
    reveal_strlit("for_statement");
    reveal_strlit("while_statement");
    reveal_strlit("do_statement");
    reveal_strlit("conditional_expression");
    reveal_strlit("switch_statement");
    reveal_strlit("binary_expression");
    reveal_strlit("case_statement");
    reveal_strlit("&&");
    reveal_strlit("||");
    assert("function_definition"@.len() == 19);
    assert("if_statement"@.len() == 12 && "if_statement"@[0] == 'i');
    assert("for_statement"@.len() == 13);
    assert("while_statement"@.len() == 15);
    assert("do_statement"@.len() == 12 && "do_statement"@[0] == 'd');
    assert("conditional_expression"@.len() == 22);
    assert("switch_statement"@.len() == 16);
    assert("binary_expression"@.len() == 17);
    assert("case_statement"@.len() == 14);
    assert("&&"@.len() == 2 && "||"@.len() == 2);
}

/// Which nodes of TypeScript and JavaScript count, with JSX and without it.
pub proof fn lemma_what_counts_in_typescript(kind: Seq<char>)
    ensures
        ({
            let rules = rules_of(Grammar::TypeScript);
            &&& rules_of(Grammar::Tsx) == rules
            &&& (rules.function)(kind) <==> set![
                "function_declaration"@,
                "function_expression"@,
                "arrow_function"@,
                "method_definition"@,
            ].contains(kind)
            &&& (rules.cognitive)(kind) is Nesting <==> set![
                "if_statement"@,
                "for_statement"@,
                "while_statement"@,
                "do_statement"@,
                "catch_clause"@,
                "ternary_expression"@,
            ].contains(kind)
            &&& (rules.cognitive)(kind) is Structure <==> kind == "switch_statement"@
            &&& (rules.cognitive)(kind) is Logical <==> kind == "binary_expression"@
            &&& (rules.increment)(kind) <==> set![
                "if"@,
                "for"@,
                "while"@,
                "do"@,
                "case"@,
                "catch"@,
                "&&"@,
                "||"@,
                "?"@,
            ].contains(kind)
            &&& (rules.function)(kind) ==> (rules.cognitive)(kind) is Nothing
                && !(rules.increment)(kind)
        }),
{
    reveal_strlit("function_declaration");
    reveal_strlit("function_expression");
    reveal_strlit("arrow_function");
    reveal_strlit("method_definition");
    reveal_strlit("if_statement");
    reveal_strlit("for_statement");
    reveal_strlit("while_statement");
    reveal_strlit("do_statement");
    reveal_strlit("catch_clause");
    reveal_strlit("ternary_expression");
    reveal_strlit("switch_statement");
    reveal_strlit("binary_expression");
    reveal_strlit("if");
    reveal_strlit("for");
    reveal_strlit("while");
    reveal_strlit("do");
    reveal_strlit("case");
    reveal_strlit("catch");
    reveal_strlit("&&");
    reveal_strlit("||");
    reveal_strlit("?");
    assert("function_declaration"@.len() == 20);
    assert("function_expression"@.len() == 19);
    assert("arrow_function"@.len() == 14);
    assert("method_definition"@.len() == 17 && "method_definition"@[0] == 'm');
    assert("if_statement"@.len() == 12);
    assert("for_statement"@.len() == 13);
    assert("while_statement"@.len() == 15);
    assert("do_statement"@.len() == 12);
    assert("catch_clause"@.len() == 12);
    assert("ternary_expression"@.len() == 18);
    assert("switch_statement"@.len() == 16);
    assert("binary_expression"@.len() == 17 && "binary_expression"@[0] == 'b');
    assert("if"@.len() == 2 && "do"@.len() == 2 && "&&"@.len() == 2 && "||"@.len() == 2);
    assert("for"@.len() == 3 && "while"@.len() == 5 && "case"@.len() == 4 && "catch"@.len() == 5);
    assert("?"@.len() == 1);
}

/// Whether a node is the first of a kind right below another.
pub open spec fn is_first_of(t: Seq<NodeFacts>, p: int, c: int, kind: Seq<char>) -> bool {
    &&& is_parent(t, p, c)
    &&& t[c].kind == kind
    &&& forall|d: int| #[trigger] is_parent(t, p, d) && d < c ==> t[d].kind != kind
}

/// Whether a node names something.
pub open spec fn is_name(n: NodeFacts) -> bool {
    n.kind == "identifier"@ || n.kind == "property_identifier"@
}

/// Whether a node is the first right below another that names something.
pub open spec fn is_first_name(t: Seq<NodeFacts>, p: int, c: int) -> bool {
    &&& is_parent(t, p, c)
    &&& is_name(t[c])
    &&& forall|d: int| #[trigger] is_parent(t, p, d) && d < c ==> !is_name(t[d])
}

/// Whether a node is the first right below another in a role.
pub open spec fn is_first_as(t: Seq<NodeFacts>, p: int, c: int, role: Seq<char>) -> bool {
    &&& is_parent(t, p, c)
    &&& t[c].field == Some(role)
    &&& forall|d: int| #[trigger] is_parent(t, p, d) && d < c ==> t[d].field != Some(role)
}

/// A child is found by its kind.
pub proof fn lemma_first_of(t: Seq<NodeFacts>, p: int, kind: Seq<char>)
    requires
        is_preorder(t),
        0 <= p < t.len(),
    ensures
        forall|c: int| #[trigger]
            is_first_of(t, p, c, kind) <==> child_of_kind(t, p, kind) == Some(c),
        child_of_kind(t, p, kind) is None <==> forall|c: int| #[trigger]
            is_parent(t, p, c) ==> t[c].kind != kind,
{
    let wanted = |n: NodeFacts| n.kind == kind;
    lemma_first_child(t, p, wanted);
    assert forall|c: int| #[trigger]
        is_first_of(t, p, c, kind) <==> child_of_kind(t, p, kind) == Some(c) by {
        assert(is_first_of(t, p, c, kind) <==> is_first_child(t, p, c, wanted));
    }
}

/// A child is found by its role.
pub proof fn lemma_first_as(t: Seq<NodeFacts>, p: int, role: Seq<char>)
    requires
        is_preorder(t),
        0 <= p < t.len(),
    ensures
        forall|c: int| #[trigger]
            is_first_as(t, p, c, role) <==> child_in_field(t, p, role) == Some(c),
        child_in_field(t, p, role) is None <==> forall|c: int| #[trigger]
            is_parent(t, p, c) ==> t[c].field != Some(role),
{
    let wanted = |n: NodeFacts| n.field == Some(role);
    lemma_first_child(t, p, wanted);
    assert forall|c: int| #[trigger]
        is_first_as(t, p, c, role) <==> child_in_field(t, p, role) == Some(c) by {
        assert(is_first_as(t, p, c, role) <==> is_first_child(t, p, c, wanted));
    }
}

proof fn lemma_first_name(t: Seq<NodeFacts>, p: int)
    requires
        is_preorder(t),
        0 <= p < t.len(),
    ensures
        forall|c: int| #[trigger] is_first_name(t, p, c) <==> identifier_child(t, p) == Some(c),
        identifier_child(t, p) is None <==> forall|c: int| #[trigger]
            is_parent(t, p, c) ==> !is_name(t[c]),
{
    let wanted = |n: NodeFacts| is_identifier(n);
    lemma_first_child(t, p, wanted);
    assert forall|c: int| #[trigger]
        is_first_name(t, p, c) <==> identifier_child(t, p) == Some(c) by {
        assert(is_first_name(t, p, c) <==> is_first_child(t, p, c, wanted));
    }
}

/// A function of Rust has the name of the first identifier in it, or none.
pub proof fn lemma_name_in_rust(t: Seq<NodeFacts>, i: int, source: Seq<char>)
    requires
        is_preorder(t),
        0 <= i < t.len(),
    ensures
        forall|c: int| #[trigger]
            is_first_of(t, i, c, "identifier"@) ==> (rules_of(Grammar::Rust).name)(t, i, source)
                == text_or_unknown(t, c, source),
        (forall|c: int| #[trigger] is_parent(t, i, c) ==> t[c].kind != "identifier"@) ==> (rules_of(
            Grammar::Rust,
        ).name)(t, i, source) == "<anonymous>"@,
{
    lemma_first_of(t, i, "identifier"@);
}

/// A function of C has the name of the first identifier in its declarator, or none.
pub proof fn lemma_name_in_c(t: Seq<NodeFacts>, i: int, source: Seq<char>)
    requires
        is_preorder(t),
        0 <= i < t.len(),
    ensures
        forall|d: int, c: int| #[trigger]
            is_first_of(t, i, d, "function_declarator"@) && #[trigger] is_first_of(
                t,
                d,
                c,
                "identifier"@,
            ) ==> (rules_of(Grammar::C).name)(t, i, source) == text_or_unknown(t, c, source),
        (forall|d: int| #[trigger]
            is_parent(t, i, d) ==> t[d].kind != "function_declarator"@) ==> (rules_of(
            Grammar::C,
        ).name)(t, i, source) == "<anonymous>"@,
{
    lemma_first_of(t, i, "function_declarator"@);
    assert forall|d: int, c: int| #[trigger]
        is_first_of(t, i, d, "function_declarator"@) && #[trigger] is_first_of(
            t,
            d,
            c,
            "identifier"@,
        ) implies (rules_of(Grammar::C).name)(t, i, source) == text_or_unknown(t, c, source) by {
        lemma_first_of(t, d, "identifier"@);
    }
}

/// A function of TypeScript has the name of the first identifier in it; without one that
/// of what it is declared as, or else what it is assigned to.
pub proof fn lemma_name_in_typescript(t: Seq<NodeFacts>, i: int, p: int, source: Seq<char>)
    requires
        is_preorder(t),
        0 <= i < t.len(),
        is_parent(t, p, i),
    ensures
        ({
            let name = (rules_of(Grammar::TypeScript).name)(t, i, source);
            let unnamed = forall|c: int| #[trigger] is_parent(t, i, c) ==> !is_name(t[c]);
            let declared = t[p].kind == "variable_declarator"@ || t[p].kind
                == "public_field_definition"@;
            &&& forall|c: int| #[trigger]
                is_first_name(t, i, c) ==> name == text_or_unknown(t, c, source)
            &&& forall|c: int|
                unnamed && declared && #[trigger] is_first_name(t, p, c) ==> name
                    == text_or_unknown(t, c, source)
            &&& forall|c: int|
                unnamed && t[p].kind == "assignment_expression"@ && #[trigger] is_first_as(
                    t,
                    p,
                    c,
                    "left"@,
                ) ==> name == text_or_unknown(t, c, source)
            &&& unnamed && !declared && t[p].kind != "assignment_expression"@ ==> name
                == "<anonymous>"@
        }),
{
    lemma_is_parent(t, p, i);
    lemma_first_name(t, i);
    lemma_first_name(t, p);
    lemma_first_as(t, p, "left"@);
    reveal_strlit("variable_declarator");
    reveal_strlit("public_field_definition");
    reveal_strlit("assignment_expression");
    assert("variable_declarator"@.len() == 19);
    assert("public_field_definition"@.len() == 23);
    assert("assignment_expression"@.len() == 21);
}

/// The last piece of a path is what stands behind the last stroke.
proof fn lemma_last_piece(front: Seq<char>, name: Seq<char>)
    requires
        !name.contains('/'),
        front.len() == 0 || front.last() == '/',
    ensures
        split_on(front + name, '/').len() > 0,
        split_on(front + name, '/').last() == name,
    decreases front.len(),
{
    let s = front + name;
    lemma_first_index(s, '/');
    let n = first_index(s, '/');
    if front.len() == 0 {
        assert(s =~= name);
        if n < s.len() {
            assert(name.contains(s[n]));
        }
    } else {
        assert(s[front.len() - 1] == '/');
        assert(n <= front.len() - 1);
        let rest = front.skip(n + 1);
        assert(s.skip(n + 1) =~= rest + name);
        if rest.len() > 0 {
            assert(rest.last() == front.last());
        }
        lemma_last_piece(rest, name);
        let more = split_on(rest + name, '/');
        assert(split_on(s, '/') =~= seq![s.take(n)] + more);
    }
}

proof fn lemma_after_last(stem: Seq<char>, ending: Seq<char>)
    requires
        !ending.contains('.'),
    ensures
        after_last(stem + seq!['.'] + ending, '.') == stem.len() + 1,
    decreases ending.len(),
{
    let s = stem + seq!['.'] + ending;
    if ending.len() > 0 {
        assert(ending.contains(ending.last()));
        assert(s.last() == ending.last());
        assert(s.drop_last() =~= stem + seq!['.'] + ending.drop_last());
        assert forall|c: char| ending.drop_last().contains(c) implies ending.contains(c) by {
            let k = choose|k: int|
                0 <= k < ending.drop_last().len() && ending.drop_last()[k] == c;
            assert(ending[k] == c);
        }
        lemma_after_last(stem, ending.drop_last());
    } else {
        assert(s.last() == '.');
    }
}

/// The ending of a file is what stands behind the last dot of its name, whatever
/// directory it lies in and whatever else its name holds.
pub proof fn lemma_ending_stands_behind_the_last_dot(
    front: Seq<char>,
    stem: Seq<char>,
    ending: Seq<char>,
)
    requires
        front.len() == 0 || front.last() == '/',
        stem.len() > 0,
        !stem.contains('/'),
        !ending.contains('/'),
        !ending.contains('.'),
        !(stem == seq!['.'] && ending.len() == 0),
    ensures
        extension_of(front + (stem + seq!['.'] + ending)) == Some(ending),
{
    let name = stem + seq!['.'] + ending;
    if name.contains('/') {
        let k = choose|k: int| 0 <= k < name.len() && name[k] == '/';
        if k < stem.len() {
            assert(stem[k] == '/');
        } else {
            assert(ending[k - stem.len() - 1] == '/');
        }
    }
    lemma_last_piece(front, name);
    lemma_after_last(stem, ending);
    assert(name.skip((stem.len() + 1) as int) =~= ending);
    assert(name.len() >= 2);
    if name == seq!['.', '.'] {
        assert(name[0] == '.' && name.len() == 2);
        assert(stem =~= seq!['.']);
    }
}

/// Files are taken for what their ending says: Rust, C, TypeScript or JavaScript, with
/// JSX or without it; others are left alone.
pub proof fn lemma_ending_says_the_language(
    front: Seq<char>,
    stem: Seq<char>,
    ending: Seq<char>,
)
    requires
        front.len() == 0 || front.last() == '/',
        stem.len() > 0,
        !stem.contains('/'),
        !ending.contains('/'),
        !ending.contains('.'),
        !(stem == seq!['.'] && ending.len() == 0),
    ensures
        ({
            let told = grammar_at(front + (stem + seq!['.'] + ending));
            &&& told == Some(Grammar::Rust) <==> ending == seq!['r', 's']
            &&& told == Some(Grammar::C) <==> ending == seq!['c'] || ending == seq!['h']
            &&& told == Some(Grammar::TypeScript) <==> ending == seq!['t', 's'] || ending == seq![
                'j',
                's',
            ]
            &&& told == Some(Grammar::Tsx) <==> ending == seq!['t', 's', 'x'] || ending == seq![
                'j',
                's',
                'x',
            ]
        }),
{
    lemma_ending_stands_behind_the_last_dot(front, stem, ending);
    reveal_strlit("rs");
    reveal_strlit("c");
    reveal_strlit("h");
    reveal_strlit("ts");
    reveal_strlit("js");
    reveal_strlit("tsx");
    reveal_strlit("jsx");
    assert("rs"@ =~= seq!['r', 's']);
    assert("c"@ =~= seq!['c']);
    assert("h"@ =~= seq!['h']);
    assert("ts"@ =~= seq!['t', 's']);
    assert("js"@ =~= seq!['j', 's']);
    assert("tsx"@ =~= seq!['t', 's', 'x']);
    assert("jsx"@ =~= seq!['j', 's', 'x']);
    assert("rs"@.len() == 2 && "rs"@[0] == 'r');
    assert("ts"@[0] == 't' && "js"@[0] == 'j');
}

/// A source is refused if it was not parsed, has syntax errors, or is out of range; and
/// each of these is told. No other source is.
pub proof fn lemma_only_sound_sources_are_measured(
    parsed: Option<Seq<NodeFacts>>,
    rules: Rules,
    file: Seq<char>,
)
    ensures
        parsed is None ==> refusal(parsed, rules, file) == Some("Failed to parse "@ + file),
        parsed is Some && parsed->0.len() > 0 && parsed->0[0].broken ==> refusal(
            parsed,
            rules,
            file,
        ) == Some("Failed to parse "@ + file + ": syntax errors detected"@),
        refusal(parsed, rules, file) is None <==> parsed is Some && (parsed->0.len() == 0
            || !parsed->0[0].broken) && is_preorder(parsed->0) && in_range(parsed->0)
            && is_measurable(parsed->0, rules),
{
}

/// The text between two places is what stands there: what comes before it and behind it
/// does not matter.
pub proof fn lemma_text_stands_between(before: Seq<char>, text: Seq<char>, behind: Seq<char>)
    ensures
        text_between(
            before + text + behind,
            encode_utf8(before).len(),
            encode_utf8(before).len() + encode_utf8(text).len(),
        ) == Some(text),
{
    let source = before + text + behind;
    let a = encode_utf8(before);
    let b = encode_utf8(text);
    let c = encode_utf8(behind);
    lemma_encode_adds(before + text, behind);
    lemma_encode_adds(before, text);
    let bytes = encode_utf8(source);
    assert(bytes =~= a + b + c);
    if b.len() == 0 {
        if text.len() > 0 {
            reveal_with_fuel(encode_utf8, 2);
        }
        assert(text =~= Seq::<char>::empty());
    } else {
        lemma_encode_adds(text, behind);
        assert(before + (text + behind) =~= source);
        lemma_place_of_text(before, text + behind);
        lemma_place_of_text(before + text, behind);
        assert(bytes.subrange(a.len() as int, (a.len() + b.len()) as int) =~= b);
        vstd::utf8::encode_utf8_decode_utf8(text);
    }
}

proof fn lemma_place_of_text(before: Seq<char>, behind: Seq<char>)
    ensures
        is_char_boundary(encode_utf8(before + behind), encode_utf8(before).len() as int),
{
    let bytes = encode_utf8(before + behind);
    let n = encode_utf8(before).len() as int;
    lemma_encode_adds(before, behind);
    vstd::utf8::encode_utf8_valid_utf8(before + behind);
    vstd::utf8::encode_utf8_valid_utf8(behind);
    let b = encode_utf8(behind);
    if b.len() == 0 {
        vstd::utf8::is_char_boundary_start_end_of_seq(bytes);
    } else {
        vstd::utf8::is_char_boundary_start_end_of_seq(b);
        vstd::utf8::is_char_boundary_iff_not_is_continuation_byte(b, 0);
        vstd::utf8::is_char_boundary_iff_not_is_continuation_byte(bytes, n);
        assert(bytes[n] == b[0]);
    }
}

} // verus!

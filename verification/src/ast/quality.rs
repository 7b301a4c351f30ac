//! What the text of a function tells of its quality.

use super::source::{lemma_encode_part, slice_text, text_between};
use super::tree::{previous_named_sibling, NodeFacts, SyntaxTree};
use crate::text::{
    ascii_lower, begins_with, chars_of, count_matches, count_of, is_space, lines, lines_of,
    occurs_at, slice_views, starts_with, string_of, to_ascii_lowercase, trim, trimmed,
    without_leading_space, without_trailing_space,
};
use vstd::prelude::*;
use vstd::utf8::encode_utf8;

verus! {

/// Whether a line, without the space around it, is a comment.
pub open spec fn is_comment_line(line: Seq<char>) -> bool {
    begins_with(line, "//"@) || begins_with(line, "/*"@) || begins_with(line, "*"@)
}

fn comment_line(line: &[char]) -> (r: bool)
    ensures
        r == is_comment_line(line@),
{
    starts_with(line, "//") || starts_with(line, "/*") || starts_with(line, "*")
}

/// How many of the lines are comments.
pub open spec fn comment_lines(lines: Seq<Seq<char>>) -> nat
    decreases lines.len(),
{
    if lines.len() == 0 {
        0
    } else {
        comment_lines(lines.drop_last()) + if is_comment_line(trimmed(lines.last())) {
            1nat
        } else {
            0nat
        }
    }
}

/// How many of the lines hold anything but space.
pub open spec fn filled_lines(lines: Seq<Seq<char>>) -> nat
    decreases lines.len(),
{
    if lines.len() == 0 {
        0
    } else {
        filled_lines(lines.drop_last()) + if trimmed(lines.last()).len() > 0 {
            1nat
        } else {
            0nat
        }
    }
}

/// Counts comment lines and lines that are not blank.
pub fn count_lines(text: &[char]) -> (r: (usize, usize))
    ensures
        r.0 == comment_lines(lines_of(text@)),
        r.1 == filled_lines(lines_of(text@)),
{
    let list = lines(text);
    let ghost all = slice_views(list@);
    let mut comments: usize = 0;
    let mut filled: usize = 0;
    for i in 0..list.len()
        invariant
            all == slice_views(list@),
            comments == comment_lines(all.take(i as int)),
            filled == filled_lines(all.take(i as int)),
            comments <= i,
            filled <= i,
    {
        assert(all.take(i + 1).drop_last() == all.take(i as int));
        assert(all.take(i + 1).last() == list@[i as int]@);
        let line = trim(list[i]);
        if comment_line(line) {
            comments = comments + 1;
        }
        if line.len() > 0 {
            filled = filled + 1;
        }
    }
    assert(all.take(all.len() as int) == all);
    (comments, filled)
}

/// How often words that stand for missing code occur, in any case.
pub open spec fn placeholders(text: Seq<char>) -> nat {
    let s = ascii_lower(text);
    count_of(s, "todo"@) + count_of(s, "fixme"@) + count_of(s, "placeholder"@) + count_of(
        s,
        "insert code here"@,
    ) + count_of(s, "not implemented"@) + count_of(s, "arg1"@) + count_of(s, "arg2"@) + count_of(
        s,
        "foo"@,
    ) + count_of(s, "bar"@) + count_of(s, "baz"@)
}

/// At how many places from the front a text occurs.
spec fn places_of(s: Seq<char>, needle: Seq<char>, n: int) -> nat
    decreases n,
{
    if n <= 0 {
        0
    } else {
        places_of(s, needle, n - 1) + if occurs_at(s, needle, n - 1) {
            1nat
        } else {
            0nat
        }
    }
}

/// Occurrences at different places of the rest are so of the whole.
proof fn lemma_places_shift(s: Seq<char>, needle: Seq<char>, k: int, n: int)
    requires
        0 <= k <= s.len(),
        0 <= n <= s.len() - k,
        needle.len() > 0,
    ensures
        places_of(s.skip(k), needle, n) + places_of(s, needle, k) == places_of(s, needle, k + n),
    decreases n,
{
    if n > 0 {
        lemma_places_shift(s, needle, k, n - 1);
        let at = n - 1;
        assert(occurs_at(s.skip(k), needle, at) == occurs_at(s, needle, k + at)) by {
            if k + at + needle.len() <= s.len() {
                assert(s.skip(k).subrange(at, at + needle.len()) == s.subrange(
                    k + at,
                    k + at + needle.len(),
                ));
            }
        }
    }
}

/// Matches that do not overlap are no more than the places of occurrence.
proof fn lemma_count_at_most_places(s: Seq<char>, needle: Seq<char>)
    requires
        needle.len() > 0,
    ensures
        count_of(s, needle) <= places_of(s, needle, s.len() as int),
    decreases s.len(),
{
    if s.len() > 0 {
        let n = s.len() as int;
        if occurs_at(s, needle, 0) {
            let k = needle.len() as int;
            lemma_count_at_most_places(s.skip(k), needle);
            lemma_places_shift(s, needle, k, n - k);
            lemma_places_shift(s, needle, 1, k - 1);
            assert(places_of(s, needle, 1) == 1) by {
                assert(places_of(s, needle, 0) == 0);
            }
        } else {
            lemma_count_at_most_places(s.drop_first(), needle);
            assert(s.drop_first() == s.skip(1));
            lemma_places_shift(s, needle, 1, n - 1);
            assert(places_of(s, needle, 1) == 0) by {
                assert(places_of(s, needle, 0) == 0);
            }
        }
    }
}

/// One where a text occurs, else zero.
spec fn here(s: Seq<char>, needle: Seq<char>, at: int) -> nat {
    if occurs_at(s, needle, at) {
        1
    } else {
        0
    }
}

/// Where a text occurs, its letters stand.
proof fn lemma_letter(s: Seq<char>, needle: Seq<char>, at: int, k: int)
    requires
        0 <= k < needle.len(),
    ensures
        occurs_at(s, needle, at) ==> s[at + k] == needle[k],
{
    if occurs_at(s, needle, at) {
        assert(s.subrange(at, at + needle.len())[k] == s[at + k]);
    }
}

/// At one place at most one of the words occurs.
proof fn lemma_one_word(s: Seq<char>, at: int)
    ensures
        here(s, "todo"@, at)
            + here(s, "fixme"@, at)
            + here(s, "placeholder"@, at)
            + here(s, "insert code here"@, at)
            + here(s, "not implemented"@, at)
            + here(s, "arg1"@, at)
            + here(s, "arg2"@, at)
            + here(s, "foo"@, at)
            + here(s, "bar"@, at)
            + here(s, "baz"@, at) <= 1,
{
    reveal_strlit("todo");
    reveal_strlit("fixme");
    reveal_strlit("placeholder");
    reveal_strlit("insert code here");
    reveal_strlit("not implemented");
    reveal_strlit("arg1");
    reveal_strlit("arg2");
    reveal_strlit("foo");
    reveal_strlit("bar");
    reveal_strlit("baz");
    lemma_letter(s, "todo"@, at, 0);
    lemma_letter(s, "todo"@, at, 1);
    lemma_letter(s, "todo"@, at, 2);
    lemma_letter(s, "fixme"@, at, 0);
    lemma_letter(s, "fixme"@, at, 1);
    lemma_letter(s, "fixme"@, at, 2);
    lemma_letter(s, "placeholder"@, at, 0);
    lemma_letter(s, "placeholder"@, at, 1);
    lemma_letter(s, "placeholder"@, at, 2);
    lemma_letter(s, "insert code here"@, at, 0);
    lemma_letter(s, "insert code here"@, at, 1);
    lemma_letter(s, "insert code here"@, at, 2);
    lemma_letter(s, "not implemented"@, at, 0);
    lemma_letter(s, "not implemented"@, at, 1);
    lemma_letter(s, "not implemented"@, at, 2);
    lemma_letter(s, "arg1"@, at, 0);
    lemma_letter(s, "arg1"@, at, 1);
    lemma_letter(s, "arg1"@, at, 2);
    lemma_letter(s, "arg1"@, at, 3);
    lemma_letter(s, "arg2"@, at, 0);
    lemma_letter(s, "arg2"@, at, 1);
    lemma_letter(s, "arg2"@, at, 2);
    lemma_letter(s, "arg2"@, at, 3);
    lemma_letter(s, "foo"@, at, 0);
    lemma_letter(s, "foo"@, at, 1);
    lemma_letter(s, "foo"@, at, 2);
    lemma_letter(s, "bar"@, at, 0);
    lemma_letter(s, "bar"@, at, 1);
    lemma_letter(s, "bar"@, at, 2);
    lemma_letter(s, "baz"@, at, 0);
    lemma_letter(s, "baz"@, at, 1);
    lemma_letter(s, "baz"@, at, 2);
}

/// The words occur at no more places than there are characters.
proof fn lemma_words_bound(s: Seq<char>, n: int)
    requires
        0 <= n,
    ensures
        places_of(s, "todo"@, n)
            + places_of(s, "fixme"@, n)
            + places_of(s, "placeholder"@, n)
            + places_of(s, "insert code here"@, n)
            + places_of(s, "not implemented"@, n)
            + places_of(s, "arg1"@, n)
            + places_of(s, "arg2"@, n)
            + places_of(s, "foo"@, n)
            + places_of(s, "bar"@, n)
            + places_of(s, "baz"@, n) <= n,
    decreases n,
{
    if n > 0 {
        lemma_words_bound(s, n - 1);
        lemma_one_word(s, n - 1);
    }
}

/// There are no more placeholders than characters.
pub proof fn lemma_placeholders_bound(text: Seq<char>)
    ensures
        placeholders(text) <= text.len(),
{
    let s = ascii_lower(text);
    reveal_strlit("todo");
    reveal_strlit("fixme");
    reveal_strlit("placeholder");
    reveal_strlit("insert code here");
    reveal_strlit("not implemented");
    reveal_strlit("arg1");
    reveal_strlit("arg2");
    reveal_strlit("foo");
    reveal_strlit("bar");
    reveal_strlit("baz");
    lemma_count_at_most_places(s, "todo"@);
    lemma_count_at_most_places(s, "fixme"@);
    lemma_count_at_most_places(s, "placeholder"@);
    lemma_count_at_most_places(s, "insert code here"@);
    lemma_count_at_most_places(s, "not implemented"@);
    lemma_count_at_most_places(s, "arg1"@);
    lemma_count_at_most_places(s, "arg2"@);
    lemma_count_at_most_places(s, "foo"@);
    lemma_count_at_most_places(s, "bar"@);
    lemma_count_at_most_places(s, "baz"@);
    lemma_words_bound(s, s.len() as int);
}

/// Counts the placeholders in a text.
pub fn count_placeholders(text: &[char]) -> (n: usize)
    ensures
        n == placeholders(text@),
{
    let lower = to_ascii_lowercase(text);
    proof {
        lemma_placeholders_bound(text@);
        assert(text@.len() == text.len());
        reveal_strlit("todo");
        reveal_strlit("fixme");
        reveal_strlit("placeholder");
        reveal_strlit("insert code here");
        reveal_strlit("not implemented");
        reveal_strlit("arg1");
        reveal_strlit("arg2");
        reveal_strlit("foo");
        reveal_strlit("bar");
        reveal_strlit("baz");
    }
    let n0: usize = count_matches(lower.as_slice(), "todo");
    let n1: usize = count_matches(lower.as_slice(), "fixme");
    let n2: usize = count_matches(lower.as_slice(), "placeholder");
    let n3: usize = count_matches(lower.as_slice(), "insert code here");
    let n4: usize = count_matches(lower.as_slice(), "not implemented");
    let n5: usize = count_matches(lower.as_slice(), "arg1");
    let n6: usize = count_matches(lower.as_slice(), "arg2");
    let n7: usize = count_matches(lower.as_slice(), "foo");
    let n8: usize = count_matches(lower.as_slice(), "bar");
    let n9: usize = count_matches(lower.as_slice(), "baz");
    n0 + n1 + n2 + n3 + n4 + n5 + n6 + n7 + n8 + n9
}

/// Whether a comment documents what follows it.
pub open spec fn is_doc_comment(text: Seq<char>) -> bool {
    begins_with(text, "///"@) || begins_with(text, "/**"@) || begins_with(text, "//!"@)
        || begins_with(text, "/*!"@)
}

fn doc_comment(text: &[char]) -> (r: bool)
    ensures
        r == is_doc_comment(text@),
{
    starts_with(text, "///") || starts_with(text, "/**") || starts_with(text, "//!")
        || starts_with(text, "/*!")
}

/// The kinds of nodes that are comments.
pub open spec fn is_comment_kind(kind: Seq<char>) -> bool {
    kind == "comment"@ || kind == "line_comment"@ || kind == "block_comment"@
}

/// How many bytes of documentation stand just before a function: in the comment
/// that ends on its line or the line before.
pub open spec fn docstring_bytes(t: Seq<NodeFacts>, f: int, source: Seq<char>) -> nat {
    match previous_named_sibling(t, f) {
        None => 0,
        Some(p) => if t[p].end_row + 1 < t[f].start_row || !is_comment_kind(t[p].kind) {
            0
        } else {
            match text_between(source, t[p].start_byte, t[p].end_byte) {
                None => 0,
                Some(text) => if is_doc_comment(trimmed(text)) {
                    encode_utf8(trimmed(text)).len()
                } else {
                    0
                },
            }
        },
    }
}

proof fn lemma_leading_bytes(s: Seq<char>)
    ensures
        encode_utf8(without_leading_space(s)).len() <= encode_utf8(s).len(),
    decreases s.len(),
{
    if s.len() > 0 && is_space(s[0]) {
        lemma_leading_bytes(s.drop_first());
        assert(s.drop_first() == s.subrange(1, s.len() as int));
        lemma_encode_part(s, 1, s.len() as int);
    }
}

proof fn lemma_trailing_bytes(s: Seq<char>)
    ensures
        encode_utf8(without_trailing_space(s)).len() <= encode_utf8(s).len(),
    decreases s.len(),
{
    if s.len() > 0 && is_space(s.last()) {
        lemma_trailing_bytes(s.drop_last());
        assert(s.drop_last() == s.subrange(0, s.len() - 1));
        lemma_encode_part(s, 0, s.len() - 1);
    }
}

/// Counts the bytes of documentation just before a function.
pub fn leading_docstring_chars(tree: &SyntaxTree, f: usize, source: &str) -> (n: usize)
    requires
        f < tree@.len(),
    ensures
        n == docstring_bytes(tree@, f as int, source@),
{
    let n = tree.len();
    let previous = match tree.previous_named_sibling(f) {
        Some(p) => p,
        None => {
            return 0;
        },
    };
    let node = tree.node(previous);
    if node.end_row + 1 < tree.node(f).start_row {
        return 0;
    }
    if !node.kind.eq("comment") && !node.kind.eq("line_comment") && !node.kind.eq("block_comment") {
        return 0;
    }
    match slice_text(source, node.start_byte, node.end_byte) {
        Some(text) => {
            let chars = chars_of(text);
            let comment = trim(chars.as_slice());
            if doc_comment(comment) {
                proof {
                    lemma_leading_bytes(text@);
                    lemma_trailing_bytes(without_leading_space(text@));
                }
                string_of(comment).as_str().len()
            } else {
                0
            }
        },
        None => 0,
    }
}

/// How well a function is documented, by the size of its documentation and its
/// cognitive complexity.
pub open spec fn documentation_grade(docstring: nat, cognitive: nat) -> Seq<char> {
    if docstring == 0 {
        "missing"@
    } else if cognitive >= 8 && docstring < 80 {
        "sparse"@
    } else {
        "adequate"@
    }
}

/// Grades the documentation of a function.
pub fn documentation_quality(docstring_chars: usize, cognitive_complexity: u32) -> (s: String)
    ensures
        s@ == documentation_grade(docstring_chars as nat, cognitive_complexity as nat),
{
    if docstring_chars == 0 {
        "missing".to_string()
    } else if cognitive_complexity >= 8 && docstring_chars < 80 {
        "sparse".to_string()
    } else {
        "adequate".to_string()
    }
}

/// What a function without statements holds.
pub open spec fn hollow_grade(is_hollow: bool, comment_lines: nat) -> Seq<char> {
    if !is_hollow {
        "none"@
    } else if comment_lines > 0 {
        "comment_only"@
    } else {
        "empty"@
    }
}

/// Tells what a function without statements holds.
pub fn hollow_kind(is_hollow: bool, comment_lines: usize) -> (s: String)
    ensures
        s@ == hollow_grade(is_hollow, comment_lines as nat),
{
    if is_hollow {
        if comment_lines > 0 {
            "comment_only".to_string()
        } else {
            "empty".to_string()
        }
    } else {
        "none".to_string()
    }
}

} // verus!

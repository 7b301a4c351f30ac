//! What the text of a function and the comment before it say, told place by place.

use super::engine::{describes, function_text};
use super::exposure::{is_sibling_before, lemma_named_before};
use super::quality::{comment_lines, docstring_bytes, filled_lines, is_comment_line, is_doc_comment};
use super::shape::{is_first_child, is_parent, lemma_first_child};
use super::source::text_between;
use super::tree::{is_preorder, previous_named_sibling, NodeFacts};
use super::Rules;
use crate::digest::digest_of;
use crate::liveness::stands_at;
use crate::metrics::FunctionMetrics;
use crate::text::{
    ascii_lower, begins_with, count_of, first_index, is_space, join_with, lemma_first_index,
    lines_of, occurs_at, words_of, trimmed, without_carriage_return, without_leading_space,
    without_trailing_space,
};
use vstd::prelude::*;
use vstd::utf8::encode_utf8;

verus! {

/// Whether a line begins here: at the front, or behind a line feed.
pub open spec fn is_line_start(s: Seq<char>, from: int) -> bool {
    0 <= from < s.len() && (from == 0 || s[from - 1] == '\n')
}

/// Whether nothing but space stands from one place to another, all on one line.
pub open spec fn is_indent(s: Seq<char>, from: int, at: int) -> bool {
    from <= at && forall|k: int| from <= k < at ==> is_space(#[trigger] s[k]) && s[k] != '\n'
}

/// Whether a text stands first on its line, but for space, where the line begins here.
pub open spec fn is_first_on_line(s: Seq<char>, from: int, part: Seq<char>, at: int) -> bool {
    is_indent(s, from, at) && stands_at(s, part, at)
}

/// Whether the line that begins here says so first.
pub open spec fn line_says_first(s: Seq<char>, from: int, part: Seq<char>) -> bool {
    exists|at: int| #[trigger] is_first_on_line(s, from, part, at)
}

/// Whether the line that begins here is a comment.
pub open spec fn is_remark(s: Seq<char>, from: int) -> bool {
    ||| line_says_first(s, from, "//"@)
    ||| line_says_first(s, from, "/*"@)
    ||| line_says_first(s, from, "*"@)
}

/// Whether something stands here, on the line that begins at a place.
pub open spec fn is_ink(s: Seq<char>, from: int, at: int) -> bool {
    &&& from <= at < s.len()
    &&& !is_space(s[at])
    &&& forall|k: int| from <= k < at ==> #[trigger] s[k] != '\n'
}

/// Where lines begin that are comments.
pub open spec fn remarks(s: Seq<char>) -> Set<int> {
    Set::new(|from: int| is_line_start(s, from) && is_remark(s, from))
}

/// Where lines begin that hold anything but space.
pub open spec fn inked_lines(s: Seq<char>) -> Set<int> {
    Set::new(|from: int| is_line_start(s, from) && exists|at: int| #[trigger] is_ink(s, from, at))
}

/// Where a string stands once the space around it is gone.
proof fn lemma_trim(s: Seq<char>) -> (r: (int, int))
    ensures
        0 <= r.0 <= r.1 <= s.len(),
        trimmed(s) == s.subrange(r.0, r.1),
        forall|k: int| 0 <= k < r.0 ==> is_space(#[trigger] s[k]),
        forall|k: int| r.1 <= k < s.len() ==> is_space(#[trigger] s[k]),
        r.0 < r.1 ==> !is_space(s[r.0]) && !is_space(s[r.1 - 1]),
{
    let a = lemma_lead(s);
    let u = without_leading_space(s);
    let b = lemma_trail(u);
    assert(trimmed(s) =~= s.subrange(a, a + b));
    assert forall|k: int| a + b <= k < s.len() implies is_space(#[trigger] s[k]) by {
        assert(u[k - a] == s[k]);
    }
    if b > 0 {
        assert(u[b - 1] == s[a + b - 1]);
    }
    (a, a + b)
}

proof fn lemma_lead(s: Seq<char>) -> (a: int)
    ensures
        0 <= a <= s.len(),
        without_leading_space(s) == s.skip(a),
        forall|k: int| 0 <= k < a ==> is_space(#[trigger] s[k]),
        a < s.len() ==> !is_space(s[a]),
    decreases s.len(),
{
    if s.len() > 0 && is_space(s[0]) {
        let d = s.drop_first();
        let a = lemma_lead(d);
        assert(d.skip(a) =~= s.skip(a + 1));
        assert forall|k: int| 0 <= k < a + 1 implies is_space(#[trigger] s[k]) by {
            if k > 0 {
                assert(d[k - 1] == s[k]);
            }
        }
        a + 1
    } else {
        assert(s.skip(0) =~= s);
        0
    }
}

proof fn lemma_trail(s: Seq<char>) -> (b: int)
    ensures
        0 <= b <= s.len(),
        without_trailing_space(s) == s.take(b),
        forall|k: int| b <= k < s.len() ==> is_space(#[trigger] s[k]),
        b > 0 ==> !is_space(s[b - 1]),
    decreases s.len(),
{
    if s.len() > 0 && is_space(s.last()) {
        let d = s.drop_last();
        let b = lemma_trail(d);
        assert(d.take(b) =~= s.take(b));
        assert forall|k: int| b <= k < s.len() implies is_space(#[trigger] s[k]) by {
            if k < d.len() {
                assert(d[k] == s[k]);
            }
        }
        b
    } else {
        assert(s.take(s.len() as int) =~= s);
        s.len() as int
    }
}

/// The first line of a text.
spec fn first_line(s: Seq<char>) -> Seq<char> {
    let n = first_index(s, '\n');
    if 0 <= n < s.len() {
        without_carriage_return(s.take(n))
    } else {
        s
    }
}

proof fn lemma_first_line(s: Seq<char>)
    requires
        s.len() > 0,
    ensures
        ({
            let n = first_index(s, '\n');
            let line = first_line(s);
            &&& 0 <= line.len() <= n <= s.len()
            &&& forall|k: int| 0 <= k < line.len() ==> #[trigger] line[k] == s[k]
            &&& forall|k: int| 0 <= k < n ==> #[trigger] s[k] != '\n'
            &&& n < s.len() ==> s[n] == '\n'
            &&& forall|k: int| line.len() <= k < n ==> #[trigger] s[k] == '\r'
        }),
{
    lemma_first_index(s, '\n');
}

proof fn lemma_first_on_first_line(s: Seq<char>, part: Seq<char>)
    requires
        s.len() > 0,
        part.len() > 0,
        forall|k: int| 0 <= k < part.len() ==> !is_space(#[trigger] part[k]),
    ensures
        begins_with(trimmed(first_line(s)), part) <==> line_says_first(s, 0, part),
{
    let n = first_index(s, '\n');
    let line = first_line(s);
    lemma_first_line(s);
    let (a, b) = lemma_trim(line);
    let m = part.len() as int;
    if begins_with(trimmed(line), part) {
        assert(a + m <= b);
        assert(s.subrange(a, a + m) =~= part) by {
            assert forall|k: int| 0 <= k < m implies s.subrange(a, a + m)[k] == part[k] by {
                assert(trimmed(line).subrange(0, m)[k] == part[k]);
                assert(line[a + k] == s[a + k]);
            }
        }
        assert forall|k: int| 0 <= k < a implies is_space(#[trigger] s[k]) && s[k] != '\n' by {
            assert(line[k] == s[k]);
        }
        assert(is_first_on_line(s, 0, part, a));
    }
    if line_says_first(s, 0, part) {
        let at = choose|at: int| #[trigger] is_first_on_line(s, 0, part, at);
        assert forall|k: int| 0 <= k < m implies !is_space(#[trigger] s[at + k]) by {
            assert(s.subrange(at, at + m)[k] == part[k]);
        }
        assert(is_space('\n') && is_space('\r'));
        assert(at + m <= n) by {
            if n < at + m {
                if n < at {
                    assert(s[n] != '\n');
                } else {
                    assert(!is_space(s[at + (n - at)]));
                }
            }
        }
        assert(at + m <= line.len()) by {
            if line.len() < at + m {
                assert(!is_space(s[at + (m - 1)]));
                assert(s[at + m - 1] == '\r');
            }
        }
        assert(!is_space(s[at + 0]));
        assert(line[at] == s[at]);
        if a < at {
            assert(is_space(s[a]));
            assert(line[a] == s[a]);
            assert(!is_space(line[a]));
        }
        if at < a {
            assert(is_space(line[at]));
        }
        assert(a == at);
        if b < at + m {
            assert(line[at + m - 1] == s[at + (m - 1)]);
            assert(is_space(line[at + m - 1]));
        }
        assert(trimmed(line).subrange(0, m) =~= part) by {
            assert forall|k: int| 0 <= k < m implies trimmed(line).subrange(0, m)[k]
                == part[k] by {
                assert(line[a + k] == s[a + k]);
                assert(s.subrange(at, at + m)[k] == part[k]);
            }
        }
    }
}

proof fn lemma_first_remark(s: Seq<char>)
    requires
        s.len() > 0,
    ensures
        is_comment_line(trimmed(first_line(s))) <==> is_remark(s, 0),
        trimmed(first_line(s)).len() > 0 <==> exists|at: int| #[trigger] is_ink(s, 0, at),
{
    reveal_strlit("//");
    reveal_strlit("/*");
    reveal_strlit("*");
    lemma_first_on_first_line(s, "//"@);
    lemma_first_on_first_line(s, "/*"@);
    lemma_first_on_first_line(s, "*"@);
    let line = first_line(s);
    let n = first_index(s, '\n');
    lemma_first_line(s);
    let (a, b) = lemma_trim(line);
    if trimmed(line).len() > 0 {
        assert(line[a] == s[a]);
        assert(is_ink(s, 0, a));
    }
    if exists|at: int| #[trigger] is_ink(s, 0, at) {
        let at = choose|at: int| #[trigger] is_ink(s, 0, at);
        assert(is_space('\n') && is_space('\r'));
        if n < at {
            assert(s[n] != '\n');
        }
        if line.len() <= at {
            assert(at < n);
            assert(s[at] == '\r');
        }
        assert(line[at] == s[at]);
        if a == b {
            if at < a {
                assert(is_space(line[at]));
            } else {
                assert(is_space(line[at]));
            }
        }
    }
}

/// What is said of a line stays so in what is left behind a line feed.
proof fn lemma_behind(s: Seq<char>, n: int, from: int)
    requires
        0 <= n < s.len(),
        s[n] == '\n',
        0 <= from,
    ensures
        is_line_start(s.skip(n + 1), from) <==> is_line_start(s, from + n + 1),
        is_remark(s.skip(n + 1), from) <==> is_remark(s, from + n + 1),
        (exists|at: int| #[trigger] is_ink(s.skip(n + 1), from, at)) <==> exists|at: int|
            #[trigger] is_ink(s, from + n + 1, at),
{
    let u = s.skip(n + 1);
    let m = n + 1;
    lemma_said_behind(s, m, from, "//"@);
    lemma_said_behind(s, m, from, "/*"@);
    lemma_said_behind(s, m, from, "*"@);
    if exists|at: int| #[trigger] is_ink(u, from, at) {
        let at = choose|at: int| #[trigger] is_ink(u, from, at);
        assert forall|k: int| from + m <= k < at + m implies #[trigger] s[k] != '\n' by {
            assert(u[k - m] == s[k]);
        }
        assert(is_ink(s, from + m, at + m));
    }
    if exists|at: int| #[trigger] is_ink(s, from + m, at) {
        let at = choose|at: int| #[trigger] is_ink(s, from + m, at);
        assert forall|k: int| from <= k < at - m implies #[trigger] u[k] != '\n' by {
            assert(u[k] == s[k + m]);
        }
        assert(is_ink(u, from, at - m));
    }
}

proof fn lemma_said_behind(s: Seq<char>, m: int, from: int, part: Seq<char>)
    requires
        0 <= m <= s.len(),
        0 <= from,
    ensures
        line_says_first(s.skip(m), from, part) <==> line_says_first(s, from + m, part),
{
    let u = s.skip(m);
    if line_says_first(u, from, part) {
        let at = choose|at: int| #[trigger] is_first_on_line(u, from, part, at);
        assert forall|k: int| from + m <= k < at + m implies is_space(#[trigger] s[k]) && s[k]
            != '\n' by {
            assert(u[k - m] == s[k]);
        }
        assert(s.subrange(at + m, at + m + part.len()) =~= u.subrange(at, at + part.len()));
        assert(is_first_on_line(s, from + m, part, at + m));
    }
    if line_says_first(s, from + m, part) {
        let at = choose|at: int| #[trigger] is_first_on_line(s, from + m, part, at);
        assert forall|k: int| from <= k < at - m implies is_space(#[trigger] u[k]) && u[k]
            != '\n' by {
            assert(u[k] == s[k + m]);
        }
        assert(u.subrange(at - m, at - m + part.len()) =~= s.subrange(at, at + part.len()));
        assert(is_first_on_line(u, from, part, at - m));
    }
}

proof fn lemma_add_front(lines: Seq<Seq<char>>, line: Seq<char>)
    ensures
        comment_lines(seq![line] + lines) == comment_lines(lines) + if is_comment_line(
            trimmed(line),
        ) {
            1nat
        } else {
            0nat
        },
        filled_lines(seq![line] + lines) == filled_lines(lines) + if trimmed(line).len() > 0 {
            1nat
        } else {
            0nat
        },
    decreases lines.len(),
{
    let all = seq![line] + lines;
    if lines.len() == 0 {
        let none = Seq::<Seq<char>>::empty();
        assert(lines =~= none);
        assert(comment_lines(none) == 0 && filled_lines(none) == 0);
        assert(all.drop_last() =~= Seq::<Seq<char>>::empty());
        assert(all.last() == line);
    } else {
        assert(all.drop_last() =~= seq![line] + lines.drop_last());
        assert(all.last() == lines.last());
        lemma_add_front(lines.drop_last(), line);
    }
}

proof fn lemma_lines_counted(s: Seq<char>)
    ensures
        remarks(s).finite(),
        remarks(s).len() == comment_lines(lines_of(s)),
        inked_lines(s).finite(),
        inked_lines(s).len() == filled_lines(lines_of(s)),
    decreases s.len(),
{
    if s.len() == 0 {
        assert(remarks(s) =~= Set::<int>::empty());
        assert(inked_lines(s) =~= Set::<int>::empty());
    } else {
        lemma_first_index(s, '\n');
        let n = first_index(s, '\n');
        lemma_first_remark(s);
        let m = n + 1;
        let shift = |k: int| k + m;
        if n < s.len() {
            let u = s.skip(m);
            lemma_lines_counted(u);
            lemma_add_front(lines_of(u), first_line(s));
            assert(lines_of(s) =~= seq![first_line(s)] + lines_of(u));
            let old_remarks = remarks(u).map(shift);
            let old_inked = inked_lines(u).map(shift);
            vstd::set_lib::lemma_map_size(remarks(u), old_remarks, shift);
            vstd::set_lib::lemma_map_size(inked_lines(u), old_inked, shift);
            assert forall|from: int| from > 0 implies (remarks(s).contains(from)
                <==> #[trigger] old_remarks.contains(from)) by {
                if from >= m {
                    lemma_behind(s, n, from - m);
                    assert(shift(from - m) == from);
                    if remarks(s).contains(from) {
                        assert(remarks(u).contains(from - m));
                    }
                } else {
                    assert(s[from - 1] != '\n');
                }
            }
            assert forall|from: int| from > 0 implies (inked_lines(s).contains(from)
                <==> #[trigger] old_inked.contains(from)) by {
                if from >= m {
                    lemma_behind(s, n, from - m);
                    assert(shift(from - m) == from);
                    if inked_lines(s).contains(from) {
                        assert(inked_lines(u).contains(from - m));
                    }
                } else {
                    assert(s[from - 1] != '\n');
                }
            }
            assert(!old_remarks.contains(0));
            assert(!old_inked.contains(0));
            if is_remark(s, 0) {
                assert(remarks(s) =~= old_remarks.insert(0));
            } else {
                assert(remarks(s) =~= old_remarks);
            }
            if exists|at: int| #[trigger] is_ink(s, 0, at) {
                assert(inked_lines(s) =~= old_inked.insert(0));
            } else {
                assert(inked_lines(s) =~= old_inked);
            }
        } else {
            let none = Seq::<Seq<char>>::empty();
            lemma_add_front(none, s);
            assert(lines_of(s) =~= seq![s] + none);
            assert(comment_lines(none) == 0 && filled_lines(none) == 0);
            assert forall|from: int| #[trigger] is_line_start(s, from) implies from == 0 by {
                if from > 0 {
                    assert(s[from - 1] != '\n');
                }
            }
            if is_remark(s, 0) {
                assert(remarks(s) =~= Set::<int>::empty().insert(0));
            } else {
                assert(remarks(s) =~= Set::<int>::empty());
            }
            if exists|at: int| #[trigger] is_ink(s, 0, at) {
                assert(inked_lines(s) =~= Set::<int>::empty().insert(0));
            } else {
                assert(inked_lines(s) =~= Set::<int>::empty());
            }
        }
    }
}

/// How many lines of a function are comments, of those that are not blank, and what a
/// function that does nothing holds: comments, or nothing at all.
pub proof fn lemma_comments_are_counted(
    m: FunctionMetrics,
    t: Seq<NodeFacts>,
    rules: Rules,
    f: int,
    source: Seq<char>,
    file: Seq<char>,
    text: Seq<char>,
)
    requires
        describes(m, t, rules, f, source, file),
        text_between(source, t[f].start_byte, t[f].end_byte) == Some(text),
    ensures
        m.comment_ratio.numerator == remarks(text).len(),
        m.comment_ratio.denominator == inked_lines(text).len(),
        m.hollow_kind@ == "none"@ <==> !m.is_hollow,
        m.hollow_kind@ == "comment_only"@ <==> m.is_hollow && exists|from: int|
            is_line_start(text, from) && #[trigger] is_remark(text, from),
        m.hollow_kind@ == "empty"@ <==> m.is_hollow && !exists|from: int|
            is_line_start(text, from) && #[trigger] is_remark(text, from),
{
    assert(function_text(t, f, source) == text);
    lemma_lines_counted(text);
    if exists|from: int| is_line_start(text, from) && #[trigger] is_remark(text, from) {
        let from = choose|from: int|
            is_line_start(text, from) && #[trigger] is_remark(text, from);
        assert(remarks(text).contains(from));
        if remarks(text).len() == 0 {
            assert(remarks(text) =~= Set::<int>::empty());
        }
    } else {
        assert(remarks(text) =~= Set::<int>::empty());
    }
    reveal_strlit("none");
    reveal_strlit("comment_only");
    reveal_strlit("empty");
    assert("none"@.len() == 4 && "comment_only"@.len() == 12 && "empty"@.len() == 5);
}

/// Whether a word, which is in lower case, stands at a place, in whatever case.
pub open spec fn says_at(s: Seq<char>, word: Seq<char>, at: int) -> bool {
    &&& 0 <= at
    &&& at + word.len() <= s.len()
    &&& forall|k: int|
        0 <= k < word.len() ==> {
            let c = s[at + k];
            c == #[trigger] word[k] || 'A' <= c <= 'Z' && c as u32 + 32 == word[k] as u32
        }
}

/// Where a word stands.
pub open spec fn places_said(s: Seq<char>, word: Seq<char>) -> Set<int> {
    Set::new(|at: int| says_at(s, word, at))
}

/// Whether no word can begin inside another one like it.
spec fn is_apart(word: Seq<char>) -> bool {
    word.len() > 0 && forall|d: int| 0 < d < word.len() ==> #[trigger] differs(word, d)
}

spec fn differs(word: Seq<char>, d: int) -> bool {
    exists|k: int| 0 <= k < word.len() - d && #[trigger] word[k] != word[k + d]
}

spec fn occurrences(s: Seq<char>, word: Seq<char>) -> Set<int> {
    Set::new(|at: int| occurs_at(s, word, at))
}

proof fn lemma_occurs_behind(s: Seq<char>, word: Seq<char>, m: int, at: int)
    requires
        0 <= m <= s.len(),
        0 <= at,
    ensures
        occurs_at(s.skip(m), word, at) <==> occurs_at(s, word, at + m),
{
    let u = s.skip(m);
    if at + word.len() <= u.len() {
        assert(u.subrange(at, at + word.len()) =~= s.subrange(at + m, at + m + word.len()));
    }
}

proof fn lemma_occurrences(s: Seq<char>, word: Seq<char>)
    requires
        is_apart(word),
    ensures
        occurrences(s, word).finite(),
        occurrences(s, word).len() == count_of(s, word),
    decreases s.len(),
{
    let w = word.len() as int;
    if s.len() < word.len() {
        assert(occurrences(s, word) =~= Set::<int>::empty());
    } else {
        let m = if begins_with(s, word) {
            w
        } else {
            1
        };
        let u = s.skip(m);
        if !begins_with(s, word) {
            assert(s.drop_first() =~= u);
        }
        lemma_occurrences(u, word);
        let shift = |k: int| k + m;
        let later = occurrences(u, word).map(shift);
        vstd::set_lib::lemma_map_size(occurrences(u, word), later, shift);
        assert forall|at: int| at > 0 implies (occurrences(s, word).contains(at)
            <==> #[trigger] later.contains(at)) by {
            if at >= m {
                lemma_occurs_behind(s, word, m, at - m);
                assert(shift(at - m) == at);
                if occurrences(s, word).contains(at) {
                    assert(occurrences(u, word).contains(at - m));
                }
            } else if occurs_at(s, word, at) {
                assert(differs(word, at));
                let k = choose|k: int| 0 <= k < word.len() - at && #[trigger] word[k] != word[k
                    + at];
                assert(s.subrange(at, at + w)[k] == word[k]);
                assert(s.subrange(0, w)[k + at] == word[k + at]);
            }
        }
        assert(!later.contains(0));
        if begins_with(s, word) {
            assert(occurrences(s, word) =~= later.insert(0));
        } else {
            assert(occurrences(s, word) =~= later);
        }
    }
}

proof fn lemma_any_case(s: Seq<char>, word: Seq<char>, at: int)
    requires
        forall|k: int| 0 <= k < word.len() ==> !('A' <= #[trigger] word[k] <= 'Z'),
    ensures
        says_at(s, word, at) <==> occurs_at(ascii_lower(s), word, at),
{
    let low = ascii_lower(s);
    let w = word.len() as int;
    if says_at(s, word, at) {
        assert forall|k: int| 0 <= k < w implies low.subrange(at, at + w)[k] == word[k] by {
            let c = s[at + k];
            assert(c == word[k] || 'A' <= c <= 'Z' && c as u32 + 32 == word[k] as u32);
            lemma_lower(c, word[k]);
        }
        assert(low.subrange(at, at + w) =~= word);
    }
    if occurs_at(low, word, at) {
        assert forall|k: int| 0 <= k < w implies {
            let c = s[at + k];
            c == #[trigger] word[k] || 'A' <= c <= 'Z' && c as u32 + 32 == word[k] as u32
        } by {
            assert(low.subrange(at, at + w)[k] == word[k]);
            lemma_lower(s[at + k], word[k]);
        }
    }
}

proof fn lemma_lower(c: char, w: char)
    requires
        !('A' <= w <= 'Z'),
    ensures
        crate::text::ascii_lower_char(c) == w <==> c == w || 'A' <= c <= 'Z' && c as u32 + 32
            == w as u32,
{
}

proof fn lemma_word_counted(s: Seq<char>, word: Seq<char>)
    requires
        is_apart(word),
        forall|k: int| 0 <= k < word.len() ==> !('A' <= #[trigger] word[k] <= 'Z'),
    ensures
        places_said(s, word).len() == count_of(ascii_lower(s), word),
{
    lemma_occurrences(ascii_lower(s), word);
    assert forall|at: int| says_at(s, word, at) <==> occurs_at(ascii_lower(s), word, at) by {
        lemma_any_case(s, word, at);
    }
    assert(places_said(s, word) =~= occurrences(ascii_lower(s), word));
}

/// A word whose first character does not come again is apart.
proof fn lemma_apart(word: Seq<char>)
    requires
        word.len() > 0,
        forall|d: int| 0 < d < word.len() ==> word[0] != #[trigger] word[d],
    ensures
        is_apart(word),
{
    assert forall|d: int| 0 < d < word.len() implies #[trigger] differs(word, d) by {
        assert(word[0] != word[0 + d]);
    }
}

/// The words that stand for missing code are counted wherever they stand and in
/// whatever case.
pub proof fn lemma_missing_code_is_counted(
    m: FunctionMetrics,
    t: Seq<NodeFacts>,
    rules: Rules,
    f: int,
    source: Seq<char>,
    file: Seq<char>,
    text: Seq<char>,
)
    requires
        describes(m, t, rules, f, source, file),
        text_between(source, t[f].start_byte, t[f].end_byte) == Some(text),
    ensures
        m.placeholder_count == places_said(text, "todo"@).len() + places_said(
            text,
            "fixme"@,
        ).len() + places_said(text, "placeholder"@).len() + places_said(
            text,
            "insert code here"@,
        ).len() + places_said(text, "not implemented"@).len() + places_said(text, "arg1"@).len()
            + places_said(text, "arg2"@).len() + places_said(text, "foo"@).len() + places_said(
            text,
            "bar"@,
        ).len() + places_said(text, "baz"@).len(),
{
    assert(function_text(t, f, source) == text);
    reveal_strlit("todo");
    reveal_strlit("fixme");
    reveal_strlit("placeholder");
    reveal_strlit("insert code here");
    reveal_strlit("not implemented");
    reveal_strlit("arg1");
    reveal_strlit("arg2");
    reveal_strlit("foo");
    reveal_strlit("bar");
    reveal_strlit("baz");
    lemma_apart("todo"@);
    lemma_apart("fixme"@);
    lemma_apart("placeholder"@);
    lemma_apart("insert code here"@);
    lemma_apart("arg1"@);
    lemma_apart("arg2"@);
    lemma_apart("foo"@);
    lemma_apart("bar"@);
    lemma_apart("baz"@);
    let word = "not implemented"@;
    assert(word[1] == 'o' && word[12] == 't');
    assert forall|d: int| 0 < d < word.len() implies #[trigger] differs(word, d) by {
        if d == 11 {
            assert(word[1] != word[1 + d]);
        } else {
            assert(word[0] != word[0 + d]);
        }
    }
    lemma_word_counted(text, "todo"@);
    lemma_word_counted(text, "fixme"@);
    lemma_word_counted(text, "placeholder"@);
    lemma_word_counted(text, "insert code here"@);
    lemma_word_counted(text, "not implemented"@);
    lemma_word_counted(text, "arg1"@);
    lemma_word_counted(text, "arg2"@);
    lemma_word_counted(text, "foo"@);
    lemma_word_counted(text, "bar"@);
    lemma_word_counted(text, "baz"@);
}

/// Whether a text, but for the space around it, begins as documentation does.
pub open spec fn is_documentation(text: Seq<char>) -> bool {
    exists|tail: Seq<char>|
        trimmed(text) == #[trigger] ("///"@ + tail) || trimmed(text) == "/**"@ + tail || trimmed(
            text,
        ) == "//!"@ + tail || trimmed(text) == "/*!"@ + tail
}

/// Whether a node is the documentation of a function: the last named node before it
/// under the same parent, a comment that ends on the line before the function or later,
/// and documentation by what it says.
pub open spec fn is_documentation_of(
    t: Seq<NodeFacts>,
    d: int,
    f: int,
    source: Seq<char>,
    text: Seq<char>,
) -> bool {
    &&& is_sibling_before(t, d, f)
    &&& t[d].named
    &&& forall|e: int| d < e && #[trigger] is_sibling_before(t, e, f) ==> !t[e].named
    &&& set!["comment"@, "line_comment"@, "block_comment"@].contains(t[d].kind)
    &&& t[d].end_row + 1 >= t[f].start_row
    &&& text_between(source, t[d].start_byte, t[d].end_byte) == Some(text)
    &&& is_documentation(text)
}

proof fn lemma_documentation(text: Seq<char>)
    ensures
        is_documentation(text) <==> is_doc_comment(trimmed(text)),
        is_documentation(text) ==> encode_utf8(trimmed(text)).len() > 0,
{
    let s = trimmed(text);
    reveal_strlit("///");
    reveal_strlit("/**");
    reveal_strlit("//!");
    reveal_strlit("/*!");
    if is_doc_comment(s) {
        let tail = s.skip(3);
        if begins_with(s, "///"@) {
            assert(s =~= s.subrange(0, 3) + tail);
            assert(s == "///"@ + tail);
        } else if begins_with(s, "/**"@) {
            assert(s =~= s.subrange(0, 3) + tail);
            assert(s == "/**"@ + tail);
        } else if begins_with(s, "//!"@) {
            assert(s =~= s.subrange(0, 3) + tail);
            assert(s == "//!"@ + tail);
        } else {
            assert(s =~= s.subrange(0, 3) + tail);
            assert(s == "/*!"@ + tail);
        }
        let x = "///"@ + tail;
        assert(is_documentation(text));
    }
    if is_documentation(text) {
        let tail = choose|tail: Seq<char>|
            s == #[trigger] ("///"@ + tail) || s == "/**"@ + tail || s == "//!"@ + tail || s
                == "/*!"@ + tail;
        if s == "///"@ + tail {
            assert(s.subrange(0, 3) =~= "///"@);
        } else if s == "/**"@ + tail {
            assert(s.subrange(0, 3) =~= "/**"@);
        } else if s == "//!"@ + tail {
            assert(s.subrange(0, 3) =~= "//!"@);
        } else {
            assert(s.subrange(0, 3) =~= "/*!"@);
        }
        assert(s.len() > 0);
        lemma_some_bytes(s);
    }
}

proof fn lemma_some_bytes(s: Seq<char>)
    requires
        s.len() > 0,
    ensures
        encode_utf8(s).len() > 0,
{
    reveal_with_fuel(encode_utf8, 2);
}

/// A function is documented exactly if a comment that documents it comes before it. Its
/// documentation is missing without one, and sparse where the function has a cognitive
/// complexity of eight or more and the comment has fewer than eighty bytes.
pub proof fn lemma_documentation_is_told(
    m: FunctionMetrics,
    t: Seq<NodeFacts>,
    rules: Rules,
    f: int,
    source: Seq<char>,
    file: Seq<char>,
)
    requires
        is_preorder(t),
        0 <= f < t.len(),
        describes(m, t, rules, f, source, file),
    ensures
        m.has_docstring <==> exists|d: int, text: Seq<char>| #[trigger]
            is_documentation_of(t, d, f, source, text),
        m.documentation_quality@ == "missing"@ <==> !m.has_docstring,
        m.documentation_quality@ == "sparse"@ <==> m.cognitive_complexity >= 8 && exists|
            d: int,
            text: Seq<char>,
        | #[trigger]
            is_documentation_of(t, d, f, source, text) && encode_utf8(trimmed(text)).len() < 80,
        m.documentation_quality@ == "adequate"@ <==> m.has_docstring
            && m.documentation_quality@ != "sparse"@,
{
    lemma_named_before(t, f);
    reveal_strlit("missing");
    reveal_strlit("sparse");
    reveal_strlit("adequate");
    assert("missing"@.len() == 7 && "sparse"@.len() == 6 && "adequate"@.len() == 8);
    let bytes = docstring_bytes(t, f, source);
    if bytes > 0 {
        let p = previous_named_sibling(t, f)->0;
        let text = text_between(source, t[p].start_byte, t[p].end_byte)->0;
        lemma_documentation(text);
        assert(is_documentation_of(t, p, f, source, text));
        assert(bytes == encode_utf8(trimmed(text)).len());
    }
    assert forall|d: int, text: Seq<char>| #[trigger]
        is_documentation_of(t, d, f, source, text) implies bytes > 0 && bytes == encode_utf8(
        trimmed(text),
    ).len() by {
        lemma_documentation(text);
        let p = previous_named_sibling(t, f)->0;
        assert(previous_named_sibling(t, f) is Some);
        if p < d {
            assert(!t[d].named);
        }
        if d < p {
            assert(!t[p].named);
        }
        assert(d == p);
    }
}

/// Whether a node is the first right below a function that is its body.
pub open spec fn is_first_body(t: Seq<NodeFacts>, f: int, b: int) -> bool {
    &&& is_parent(t, f, b)
    &&& body_kinds().contains(t[b].kind)
    &&& forall|d: int| #[trigger] is_parent(t, f, d) && d < b ==> !body_kinds().contains(t[d].kind)
}

/// The kinds of nodes that are bodies.
pub open spec fn body_kinds() -> Set<Seq<char>> {
    set!["statement_block"@, "block"@, "compound_statement"@, "declaration_list"@]
}

/// Whether the signature of a function ends here: where its body begins, or where the
/// function itself ends if it has none.
pub open spec fn is_signature_end(t: Seq<NodeFacts>, f: int, end: nat) -> bool {
    ||| exists|b: int| #[trigger] is_first_body(t, f, b) && end == t[b].start_byte
    ||| (forall|b: int| #[trigger] is_parent(t, f, b) ==> !body_kinds().contains(t[b].kind)) && end
        == t[f].end_byte
}

/// A function is identified by its file, its name, and the digest of its signature with
/// one blank between the words, so that its body and the space in it do not matter. Its
/// body is told by the digest of the whole text.
pub proof fn lemma_identity_goes_by_the_signature(
    m: FunctionMetrics,
    t: Seq<NodeFacts>,
    rules: Rules,
    f: int,
    source: Seq<char>,
    file: Seq<char>,
    end: nat,
    signature: Seq<char>,
    text: Seq<char>,
)
    requires
        is_preorder(t),
        0 <= f < t.len(),
        describes(m, t, rules, f, source, file),
        is_signature_end(t, f, end),
        text_between(source, t[f].start_byte, end) == Some(signature),
        text_between(source, t[f].start_byte, t[f].end_byte) == Some(text),
    ensures
        m.id@ == file + ":"@ + m.name@ + ":"@ + digest_of(
            encode_utf8(join_with(words_of(signature), " "@)),
        ),
        m.body_hash@ == digest_of(encode_utf8(text)),
{
    reveal_strlit(":");
    reveal_strlit(" ");
    assert(":"@ =~= seq![':']);
    assert(" "@ =~= seq![' ']);
    let wanted = |n: NodeFacts| super::engine::is_body(n);
    lemma_first_child(t, f, wanted);
    if exists|b: int| #[trigger] is_first_body(t, f, b) && end == t[b].start_byte {
        let b = choose|b: int| #[trigger] is_first_body(t, f, b) && end == t[b].start_byte;
        assert(is_first_child(t, f, b, wanted));
    }
    assert(super::engine::signature_end(t, f) == end);
    assert(function_text(t, f, source) == text);
}

/// A function stands from the row of its first byte to the row of its last, counted
/// from one, and is as long as those rows are many.
pub proof fn lemma_rows_are_told(
    m: FunctionMetrics,
    t: Seq<NodeFacts>,
    rules: Rules,
    f: int,
    source: Seq<char>,
    file: Seq<char>,
)
    requires
        describes(m, t, rules, f, source, file),
    ensures
        m.file@ == file,
        m.line == t[f].start_row + 1,
        m.end_line == t[f].end_row + 1,
        m.lines_of_code == m.end_line - m.line + 1,
{
}

} // verus!

//! Text as sequences of characters: the small vocabulary of string operations
//! that the rest of the library is specified with.

use vstd::prelude::*;
use vstd::slice::slice_subrange;
use vstd::string::StringExecFns;

verus! {

/// `str::eq` holds exactly when both strings have the same characters.
pub assume_specification[ <str as PartialEq>::eq ](a: &str, b: &str) -> (same: bool)
    ensures
        same == (a@ == b@),
;

/// `String::push` appends one character.
pub assume_specification[ String::push ](s: &mut String, c: char)
    ensures
        final(s)@ == old(s)@.push(c),
;

/// The characters of a string.
pub fn chars_of(s: &str) -> (chars: Vec<char>)
    ensures
        chars@ == s@,
{
    let mut chars: Vec<char> = Vec::new();
    for c in it: s.chars()
        invariant
            it.seq() == s@,
            chars@ == s@.take(it.index()),
    {
        chars.push(c);
    }
    chars
}

/// The string with the given characters.
pub fn string_of(chars: &[char]) -> (s: String)
    ensures
        s@ == chars@,
{
    let mut s = String::new();
    for i in 0..chars.len()
        invariant
            s@ == chars@.take(i as int),
    {
        s.push(chars[i]);
    }
    s
}

/// `a` followed by `b`.
pub fn joined(a: &str, b: &str) -> (s: String)
    ensures
        s@ == a@ + b@,
{
    let mut s = a.to_string();
    s.append(b);
    s
}

/// `a`, `b` and `c` in a row.
pub fn joined3(a: &str, b: &str, c: &str) -> (s: String)
    ensures
        s@ == a@ + b@ + c@,
{
    let mut s = a.to_string();
    s.append(b);
    s.append(c);
    s
}

/// The characters with the Unicode property `White_Space`.
pub open spec fn is_space(c: char) -> bool {
    let u = c as u32;
    ||| 0x9 <= u <= 0xd
    ||| u == 0x20
    ||| u == 0x85
    ||| u == 0xa0
    ||| u == 0x1680
    ||| 0x2000 <= u <= 0x200a
    ||| u == 0x2028
    ||| u == 0x2029
    ||| u == 0x202f
    ||| u == 0x205f
    ||| u == 0x3000
}

/// Whether `c` is white space.
pub fn space(c: char) -> (r: bool)
    ensures
        r == is_space(c),
{
    let u: u32 = c as u32;
    (0x9 <= u && u <= 0xd) || u == 0x20 || u == 0x85 || u == 0xa0 || u == 0x1680 || (0x2000 <= u
        && u <= 0x200a) || u == 0x2028 || u == 0x2029 || u == 0x202f || u == 0x205f || u == 0x3000
}

/// What is left of `s` once its leading white space is gone.
pub open spec fn without_leading_space(s: Seq<char>) -> Seq<char>
    decreases s.len(),
{
    if s.len() > 0 && is_space(s[0]) {
        without_leading_space(s.drop_first())
    } else {
        s
    }
}

/// What is left of `s` once its trailing white space is gone.
pub open spec fn without_trailing_space(s: Seq<char>) -> Seq<char>
    decreases s.len(),
{
    if s.len() > 0 && is_space(s.last()) {
        without_trailing_space(s.drop_last())
    } else {
        s
    }
}

/// `s` without white space at either end.
pub open spec fn trimmed(s: Seq<char>) -> Seq<char> {
    without_trailing_space(without_leading_space(s))
}

/// Drops the leading white space.
pub fn trim_start(s: &[char]) -> (r: &[char])
    ensures
        r@ == without_leading_space(s@),
{
    let mut i: usize = 0;
    assert(s@.skip(0) == s@);
    while i < s.len() && space(s[i])
        invariant
            i <= s.len(),
            without_leading_space(s@) == without_leading_space(s@.skip(i as int)),
        decreases s.len() - i,
    {
        assert(s@.skip(i as int).drop_first() == s@.skip(i + 1));
        i = i + 1;
    }
    assert(s@.skip(i as int) == s@.subrange(i as int, s@.len() as int));
    slice_subrange(s, i, s.len())
}

/// Drops the white space at both ends.
pub fn trim(s: &[char]) -> (r: &[char])
    ensures
        r@ == trimmed(s@),
{
    let t = trim_start(s);
    let mut n: usize = t.len();
    assert(t@.take(n as int) == t@);
    while n > 0 && space(t[n - 1])
        invariant
            n <= t.len(),
            without_trailing_space(t@) == without_trailing_space(t@.take(n as int)),
        decreases n,
    {
        assert(t@.take(n as int).drop_last() == t@.take(n - 1));
        n = n - 1;
    }
    slice_subrange(t, 0, n)
}

/// The position of the first `c` in `s`, or the length of `s`.
pub open spec fn first_index(s: Seq<char>, c: char) -> int
    decreases s.len(),
{
    if s.len() == 0 || s[0] == c {
        0
    } else {
        1 + first_index(s.drop_first(), c)
    }
}

/// `first_index` lies within the text, stops at `c` and passes no `c`.
pub proof fn lemma_first_index(s: Seq<char>, c: char)
    ensures
        0 <= first_index(s, c) <= s.len(),
        first_index(s, c) < s.len() ==> s[first_index(s, c)] == c,
        forall|i: int| 0 <= i < first_index(s, c) ==> s[i] != c,
    decreases s.len(),
{
    if s.len() > 0 && s[0] != c {
        let t = s.drop_first();
        lemma_first_index(t, c);
        assert forall|i: int| 0 <= i < first_index(s, c) implies s[i] != c by {
            if i > 0 {
                assert(t[i - 1] == s[i]);
            }
        }
    }
}

/// Finds the first `c` in `s`.
pub fn find_char(s: &[char], c: char) -> (r: usize)
    ensures
        r == first_index(s@, c),
        r <= s.len(),
{
    let mut i: usize = 0;
    assert(s@.skip(0) == s@);
    while i < s.len() && s[i] != c
        invariant
            i <= s.len(),
            first_index(s@, c) == i + first_index(s@.skip(i as int), c),
        decreases s.len() - i,
    {
        assert(s@.skip(i as int).drop_first() == s@.skip(i + 1));
        i = i + 1;
    }
    proof {
        lemma_first_index(s@, c);
    }
    i
}

/// The pieces of `s` between the separators: always one more than there are
/// separators.
pub open spec fn split_on(s: Seq<char>, sep: char) -> Seq<Seq<char>>
    decreases s.len(),
{
    let n = first_index(s, sep);
    if 0 <= n < s.len() {
        seq![s.take(n)] + split_on(s.skip(n + 1), sep)
    } else {
        seq![s]
    }
}

/// The views of a list of slices.
pub open spec fn slice_views(pieces: Seq<&[char]>) -> Seq<Seq<char>> {
    pieces.map_values(|p: &[char]| p@)
}

/// The views of a list of strings.
pub open spec fn views(list: Seq<String>) -> Seq<Seq<char>> {
    list.map_values(|s: String| s@)
}

/// Splits at every `sep`.
pub fn split<'a>(s: &'a [char], sep: char) -> (r: Vec<&'a [char]>)
    ensures
        slice_views(r@) == split_on(s@, sep),
{
    let mut r: Vec<&'a [char]> = Vec::new();
    let mut rest = s;
    loop
        invariant_except_break
            slice_views(r@) + split_on(rest@, sep) == split_on(s@, sep),
        ensures
            slice_views(r@) == split_on(s@, sep),
        decreases rest@.len(),
    {
        let n = find_char(rest, sep);
        let ghost before = r@;
        if n < rest.len() {
            r.push(slice_subrange(rest, 0, n));
            let ghost whole = rest@;
            rest = slice_subrange(rest, n + 1, rest.len());
            proof {
                assert(slice_views(r@) == slice_views(before).push(whole.take(n as int)));
                assert(whole.subrange(n + 1, whole.len() as int) == whole.skip(n + 1));
                assert(slice_views(before) + (seq![whole.take(n as int)] + split_on(rest@, sep))
                    == slice_views(r@) + split_on(rest@, sep));
            }
        } else {
            r.push(rest);
            proof {
                assert(slice_views(r@) == slice_views(before) + seq![rest@]);
            }
            break;
        }
    }
    r
}

/// A line without the carriage return that ends it, if there is one.
pub open spec fn without_carriage_return(s: Seq<char>) -> Seq<char> {
    if s.len() > 0 && s.last() == '\r' {
        s.drop_last()
    } else {
        s
    }
}

/// The lines of `s`: each ends at a line feed, which goes together with a
/// carriage return before it; what follows the last line feed is a line too
/// unless it is empty.
pub open spec fn lines_of(s: Seq<char>) -> Seq<Seq<char>>
    decreases s.len(),
{
    if s.len() == 0 {
        seq![]
    } else {
        let n = first_index(s, '\n');
        if 0 <= n < s.len() {
            seq![without_carriage_return(s.take(n))] + lines_of(s.skip(n + 1))
        } else {
            seq![s]
        }
    }
}

/// Splits a text into its lines.
pub fn lines<'a>(s: &'a [char]) -> (r: Vec<&'a [char]>)
    ensures
        slice_views(r@) == lines_of(s@),
{
    let mut r: Vec<&'a [char]> = Vec::new();
    let mut rest = s;
    while rest.len() > 0
        invariant
            slice_views(r@) + lines_of(rest@) == lines_of(s@),
        decreases rest@.len(),
    {
        let n = find_char(rest, '\n');
        let ghost before = r@;
        let ghost whole = rest@;
        if n < rest.len() {
            let mut line = slice_subrange(rest, 0, n);
            if n > 0 && line[n - 1] == '\r' {
                line = slice_subrange(rest, 0, n - 1);
                assert(line@ == whole.take(n as int).drop_last());
            }
            r.push(line);
            rest = slice_subrange(rest, n + 1, rest.len());
            proof {
                let piece = without_carriage_return(whole.take(n as int));
                assert(slice_views(r@) == slice_views(before).push(piece));
                assert(whole.subrange(n + 1, whole.len() as int) == whole.skip(n + 1));
                assert(slice_views(before) + (seq![piece] + lines_of(rest@)) == slice_views(r@)
                    + lines_of(rest@));
            }
        } else {
            r.push(rest);
            rest = slice_subrange(rest, 0, 0);
            proof {
                assert(slice_views(r@) == slice_views(before) + seq![whole]);
                assert(slice_views(r@) + lines_of(rest@) == slice_views(r@));
            }
        }
    }
    assert(slice_views(r@) + lines_of(rest@) == slice_views(r@));
    r
}

/// The number of characters before the first white space.
pub open spec fn word_len(s: Seq<char>) -> int
    decreases s.len(),
{
    if s.len() == 0 || is_space(s[0]) {
        0
    } else {
        1 + word_len(s.drop_first())
    }
}

/// `word_len` lies within the text.
pub proof fn lemma_word_len(s: Seq<char>)
    ensures
        0 <= word_len(s) <= s.len(),
        s.len() > 0 && !is_space(s[0]) ==> word_len(s) > 0,
    decreases s.len(),
{
    if s.len() > 0 && !is_space(s[0]) {
        lemma_word_len(s.drop_first());
    }
}

/// Dropping leading white space makes no text longer, and what is left does
/// not start with white space.
pub proof fn lemma_leading_space(s: Seq<char>)
    ensures
        without_leading_space(s).len() <= s.len(),
        without_leading_space(s).len() > 0 ==> !is_space(without_leading_space(s)[0]),
    decreases s.len(),
{
    if s.len() > 0 && is_space(s[0]) {
        lemma_leading_space(s.drop_first());
    }
}

/// The maximal runs of characters that are not white space.
pub open spec fn words_of(s: Seq<char>) -> Seq<Seq<char>>
    decreases s.len(),
{
    let t = without_leading_space(s);
    if t.len() == 0 || t.len() > s.len() {
        seq![]
    } else {
        let n = word_len(t);
        if 0 < n <= t.len() {
            seq![t.take(n)] + words_of(t.skip(n))
        } else {
            seq![]
        }
    }
}

/// Splits at white space.
pub fn words<'a>(s: &'a [char]) -> (r: Vec<&'a [char]>)
    ensures
        slice_views(r@) == words_of(s@),
{
    let mut r: Vec<&'a [char]> = Vec::new();
    let mut rest = trim_start(s);
    proof {
        lemma_leading_space(s@);
        lemma_leading_space_again(s@);
    }
    while rest.len() > 0
        invariant
            slice_views(r@) + words_of(rest@) == words_of(s@),
            without_leading_space(rest@) == rest@,
        decreases rest@.len(),
    {
        let mut n: usize = 0;
        assert(rest@.skip(0) == rest@);
        while n < rest.len() && !space(rest[n])
            invariant
                n <= rest.len(),
                word_len(rest@) == n + word_len(rest@.skip(n as int)),
            decreases rest.len() - n,
        {
            assert(rest@.skip(n as int).drop_first() == rest@.skip(n + 1));
            n = n + 1;
        }
        let ghost before = r@;
        let ghost whole = rest@;
        proof {
            lemma_word_len(whole);
            lemma_leading_space(whole);
        }
        r.push(slice_subrange(rest, 0, n));
        let tail = slice_subrange(rest, n, rest.len());
        rest = trim_start(tail);
        proof {
            lemma_leading_space(tail@);
            lemma_leading_space_again(tail@);
            assert(slice_views(r@) == slice_views(before).push(whole.take(n as int)));
            assert(tail@ == whole.skip(n as int));
            assert(slice_views(before) + (seq![whole.take(n as int)] + words_of(tail@))
                == slice_views(r@) + words_of(tail@));
        }
    }
    assert(slice_views(r@) + words_of(rest@) == slice_views(r@));
    r
}

/// Dropping leading white space twice is dropping it once, and changes no word.
pub proof fn lemma_leading_space_again(s: Seq<char>)
    ensures
        without_leading_space(without_leading_space(s)) == without_leading_space(s),
        words_of(without_leading_space(s)) == words_of(s),
{
    lemma_leading_space(s);
}

/// The pieces in a row, with `sep` between neighbours.
pub open spec fn join_with(pieces: Seq<Seq<char>>, sep: Seq<char>) -> Seq<char>
    decreases pieces.len(),
{
    if pieces.len() == 0 {
        seq![]
    } else if pieces.len() == 1 {
        pieces[0]
    } else {
        join_with(pieces.drop_last(), sep) + sep + pieces.last()
    }
}

/// Joins pieces with a separator.
pub fn join(pieces: &Vec<&[char]>, sep: &str) -> (s: String)
    ensures
        s@ == join_with(slice_views(pieces@), sep@),
{
    let mut s = String::new();
    for i in 0..pieces.len()
        invariant
            s@ == join_with(slice_views(pieces@).take(i as int), sep@),
    {
        if i > 0 {
            s.append(sep);
        }
        s.append(string_of(pieces[i]).as_str());
        proof {
            let all = slice_views(pieces@);
            assert(all.take(i + 1).drop_last() == all.take(i as int));
            assert(all.take(i + 1).last() == pieces@[i as int]@);
        }
    }
    assert(slice_views(pieces@).take(pieces.len() as int) == slice_views(pieces@));
    s
}

/// Joins strings with a separator.
pub fn join_strings(pieces: &Vec<String>, sep: &str) -> (s: String)
    ensures
        s@ == join_with(views(pieces@), sep@),
{
    let mut s = String::new();
    for i in 0..pieces.len()
        invariant
            s@ == join_with(views(pieces@).take(i as int), sep@),
    {
        if i > 0 {
            s.append(sep);
        }
        s.append(pieces[i].as_str());
        proof {
            let all = views(pieces@);
            assert(all.take(i + 1).drop_last() == all.take(i as int));
            assert(all.take(i + 1).last() == pieces@[i as int]@);
        }
    }
    assert(views(pieces@).take(pieces.len() as int) == views(pieces@));
    s
}

/// Whether `needle` stands in `s` at position `at`.
pub open spec fn occurs_at(s: Seq<char>, needle: Seq<char>, at: int) -> bool {
    &&& 0 <= at
    &&& at + needle.len() <= s.len()
    &&& s.subrange(at, at + needle.len()) == needle
}

/// Whether `s` begins with `prefix`.
pub open spec fn begins_with(s: Seq<char>, prefix: Seq<char>) -> bool {
    occurs_at(s, prefix, 0)
}

/// Whether `s` ends with `suffix`.
pub open spec fn finishes_with(s: Seq<char>, suffix: Seq<char>) -> bool {
    occurs_at(s, suffix, s.len() - suffix.len())
}

/// Whether `needle` stands anywhere in `s`.
pub open spec fn has_part(s: Seq<char>, needle: Seq<char>) -> bool {
    exists|at: int| occurs_at(s, needle, at)
}

/// Compares `needle` with what stands at `at`.
pub fn matches_at(s: &[char], needle: &[char], at: usize) -> (r: bool)
    requires
        at <= s.len(),
    ensures
        r == occurs_at(s@, needle@, at as int),
{
    if needle.len() > s.len() - at {
        return false;
    }
    for i in 0..needle.len()
        invariant
            at + needle.len() <= s.len(),
            forall|j: int| 0 <= j < i ==> s@[at + j] == needle@[j],
    {
        if s[at + i] != needle[i] {
            assert(s@.subrange(at as int, at + needle@.len())[i as int] != needle@[i as int]);
            return false;
        }
    }
    assert(s@.subrange(at as int, at + needle@.len()) == needle@);
    true
}

/// Whether `s` starts with `prefix`.
pub fn starts_with(s: &[char], prefix: &str) -> (r: bool)
    ensures
        r == begins_with(s@, prefix@),
{
    let p = chars_of(prefix);
    matches_at(s, p.as_slice(), 0)
}

/// Whether `s` ends with `suffix`.
pub fn ends_with(s: &[char], suffix: &str) -> (r: bool)
    ensures
        r == finishes_with(s@, suffix@),
{
    let p = chars_of(suffix);
    if p.len() > s.len() {
        false
    } else {
        matches_at(s, p.as_slice(), s.len() - p.len())
    }
}

/// Whether `needle` stands anywhere in `s`.
pub fn contains(s: &[char], needle: &str) -> (r: bool)
    ensures
        r == has_part(s@, needle@),
{
    let p = chars_of(needle);
    for at in 0..s.len()
        invariant
            p@ == needle@,
            forall|i: int| 0 <= i < at ==> !occurs_at(s@, needle@, i),
    {
        if matches_at(s, p.as_slice(), at) {
            return true;
        }
    }
    matches_at(s, p.as_slice(), s.len())
}

/// The text behind `prefix`, if `s` starts with it.
pub fn strip_prefix<'a>(s: &'a [char], prefix: &str) -> (r: Option<&'a [char]>)
    ensures
        r is Some <==> begins_with(s@, prefix@),
        r matches Some(rest) ==> rest@ == s@.skip(prefix@.len() as int),
{
    let p = chars_of(prefix);
    if matches_at(s, p.as_slice(), 0) {
        assert(s@.subrange(p@.len() as int, s@.len() as int) == s@.skip(p@.len() as int));
        Some(slice_subrange(s, p.len(), s.len()))
    } else {
        None
    }
}

/// How often `needle` stands in `s`, counting from the left and never counting
/// a character twice.
pub open spec fn count_of(s: Seq<char>, needle: Seq<char>) -> nat
    decreases s.len(),
{
    if needle.len() == 0 || s.len() < needle.len() {
        0
    } else if begins_with(s, needle) {
        1 + count_of(s.skip(needle.len() as int), needle)
    } else {
        count_of(s.drop_first(), needle)
    }
}

/// There are at most as many occurrences as characters.
pub proof fn lemma_count_of_bound(s: Seq<char>, needle: Seq<char>)
    ensures
        count_of(s, needle) <= s.len(),
    decreases s.len(),
{
    if needle.len() == 0 || s.len() < needle.len() {
    } else if begins_with(s, needle) {
        lemma_count_of_bound(s.skip(needle.len() as int), needle);
    } else {
        lemma_count_of_bound(s.drop_first(), needle);
    }
}

/// Counts the occurrences of a needle that is not empty.
pub fn count_matches(s: &[char], needle: &str) -> (n: usize)
    requires
        needle@.len() > 0,
    ensures
        n == count_of(s@, needle@),
{
    let p = chars_of(needle);
    let mut n: usize = 0;
    let mut at: usize = 0;
    assert(s@.skip(0) == s@);
    while at < s.len() && p.len() <= s.len() - at
        invariant
            p@ == needle@,
            p@.len() > 0,
            at <= s.len(),
            n <= at,
            n + count_of(s@.skip(at as int), needle@) == count_of(s@, needle@),
        decreases s.len() - at,
    {
        let ghost rest = s@.skip(at as int);
        assert(rest.subrange(0, needle@.len() as int) == s@.subrange(at as int, at + needle@.len()));
        if matches_at(s, p.as_slice(), at) {
            assert(rest.skip(needle@.len() as int) == s@.skip(at + needle@.len()));
            n = n + 1;
            at = at + p.len();
        } else {
            assert(rest.drop_first() == s@.skip(at + 1));
            at = at + 1;
        }
    }
    n
}

/// An upper case ASCII letter in lower case; any other character as it is.
pub open spec fn ascii_lower_char(c: char) -> char {
    if 'A' <= c <= 'Z' {
        ((c as u8) + 32) as char
    } else {
        c
    }
}

/// `s` with its ASCII letters in lower case.
pub open spec fn ascii_lower(s: Seq<char>) -> Seq<char> {
    s.map_values(|c: char| ascii_lower_char(c))
}

/// Lowers the ASCII letters.
pub fn to_ascii_lowercase(s: &[char]) -> (r: Vec<char>)
    ensures
        r@ == ascii_lower(s@),
{
    let mut r: Vec<char> = Vec::new();
    for i in 0..s.len()
        invariant
            r@ == ascii_lower(s@.take(i as int)),
    {
        let c = s[i];
        let lowered = if 'A' <= c && c <= 'Z' {
            ((c as u8) + 32) as char
        } else {
            c
        };
        r.push(lowered);
        assert(s@.take(i + 1) == s@.take(i as int).push(c));
        assert(r@ == ascii_lower(s@.take(i + 1)));
    }
    assert(s@.take(s.len() as int) == s@);
    r
}

/// Whether `c` is an ASCII decimal digit.
pub open spec fn is_digit(c: char) -> bool {
    '0' <= c <= '9'
}

/// The number that a row of digits stands for.
pub open spec fn digits_value(s: Seq<char>) -> nat
    decreases s.len(),
{
    if s.len() == 0 {
        0
    } else {
        10 * digits_value(s.drop_last()) + (s.last() as u32 - '0' as u32) as nat
    }
}

/// The digits of a decimal number: what follows an optional plus sign.
pub open spec fn digits_part(s: Seq<char>) -> Seq<char> {
    if s.len() > 0 && s[0] == '+' {
        s.drop_first()
    } else {
        s
    }
}

/// The number that `s` writes in decimal, with an optional plus sign in front,
/// if it is one and fits in 32 bits.
pub open spec fn u32_value(s: Seq<char>) -> Option<u32> {
    let d = digits_part(s);
    if d.len() > 0 && (forall|i: int| 0 <= i < d.len() ==> is_digit(#[trigger] d[i]))
        && digits_value(d) <= u32::MAX {
        Some(digits_value(d) as u32)
    } else {
        None
    }
}

/// More digits never make the number smaller.
proof fn lemma_digits_value_grows(s: Seq<char>, n: int)
    requires
        0 <= n <= s.len(),
    ensures
        digits_value(s.take(n)) <= digits_value(s),
    decreases s.len(),
{
    if n == s.len() {
        assert(s.take(n) == s);
    } else {
        lemma_digits_value_grows(s.drop_last(), n);
        assert(s.drop_last().take(n) == s.take(n));
    }
}

/// Reads a decimal number.
pub fn parse_u32(s: &[char]) -> (r: Option<u32>)
    ensures
        r == u32_value(s@),
{
    let d = if s.len() > 0 && s[0] == '+' {
        assert(s@.subrange(1, s@.len() as int) == s@.drop_first());
        slice_subrange(s, 1, s.len())
    } else {
        s
    };
    if d.len() == 0 {
        return None;
    }
    let mut value: u64 = 0;
    for i in 0..d.len()
        invariant
            d@ == digits_part(s@),
            forall|j: int| 0 <= j < i ==> is_digit(#[trigger] d@[j]),
            value == digits_value(d@.take(i as int)),
            value <= u32::MAX,
    {
        let c = d[i];
        if !('0' <= c && c <= '9') {
            assert(!is_digit(d@[i as int]));
            return None;
        }
        proof {
            assert(d@.take(i + 1).drop_last() == d@.take(i as int));
            lemma_digits_value_grows(d@, i + 1);
        }
        value = value * 10 + (c as u32 - '0' as u32) as u64;
        if value > 0xffff_ffff {
            return None;
        }
    }
    assert(d@.take(d.len() as int) == d@);
    Some(value as u32)
}

} // verus!

//! Parts of a source text, by byte position.

use super::tree::{NodeFacts, SyntaxTree};
use vstd::prelude::*;
use vstd::string::StringSliceAdditionalSpecFns;
use vstd::utf8::{
    decode_utf8, encode_utf8, is_char_boundary, length_of_first_scalar, pop_first_scalar,
    valid_utf8,
};

verus! {

/// The characters whose bytes stand from `start` up to `end`, unless one of the
/// two lies inside a character.
pub open spec fn text_between(source: Seq<char>, start: nat, end: nat) -> Option<Seq<char>> {
    let bytes = encode_utf8(source);
    if start == end {
        Some(Seq::empty())
    } else if start < end && is_char_boundary(bytes, start as int) && is_char_boundary(
        bytes,
        end as int,
    ) {
        Some(decode_utf8(bytes.subrange(start as int, end as int)))
    } else {
        None
    }
}

/// The same, with nothing where one of the two lies inside a character.
pub open spec fn text_or_nothing(source: Seq<char>, start: nat, end: nat) -> Seq<char> {
    match text_between(source, start, end) {
        Some(text) => text,
        None => Seq::empty(),
    }
}

/// A boundary is one of the part that starts at an earlier boundary too.
proof fn lemma_boundary_behind(bytes: Seq<u8>, start: int, end: int)
    requires
        valid_utf8(bytes),
        is_char_boundary(bytes, start),
        is_char_boundary(bytes, end),
        0 <= start <= end,
    ensures
        end <= bytes.len(),
        valid_utf8(bytes.subrange(start, bytes.len() as int)),
        is_char_boundary(bytes.subrange(start, bytes.len() as int), end - start),
    decreases bytes.len(),
{
    if start == 0 {
        assert(bytes.subrange(0, bytes.len() as int) == bytes);
        if end > bytes.len() {
            assert(!is_char_boundary(bytes, end));
        }
    } else {
        reveal_with_fuel(is_char_boundary, 2);
        let first = length_of_first_scalar(bytes);
        let rest = pop_first_scalar(bytes);
        assert(start >= first);
        lemma_boundary_behind(rest, start - first, end - first);
        assert(rest.subrange(start - first, rest.len() as int) == bytes.subrange(
            start,
            bytes.len() as int,
        ));
    }
}

/// The text between two byte positions.
pub fn slice_text<'a>(source: &'a str, start: usize, end: usize) -> (r: Option<&'a str>)
    ensures
        match r {
            Some(text) => text_between(source@, start as nat, end as nat) == Some(text@)
                && encode_utf8(text@).len() == end - start,
            None => text_between(source@, start as nat, end as nat) is None,
        },
{
    let ghost bytes = source.spec_bytes();
    proof {
        vstd::utf8::encode_utf8_valid_utf8(source@);
    }
    if start == end {
        proof {
            reveal_strlit("");
            assert(""@ =~= Seq::<char>::empty());
        }
        return Some("");
    }
    if start > end || !source.is_char_boundary(start) || !source.is_char_boundary(end) {
        return None;
    }
    proof {
        lemma_boundary_behind(bytes, start as int, end as int);
    }
    let (_, behind) = source.split_at(start);
    let (text, _) = behind.split_at(end - start);
    proof {
        assert(text.spec_bytes() == bytes.subrange(start as int, end as int));
        vstd::utf8::encode_utf8_decode_utf8(text@);
    }
    Some(text)
}

/// The text of a node, or a word that says it is not known.
pub open spec fn text_or_unknown(t: Seq<NodeFacts>, i: int, source: Seq<char>) -> Seq<char> {
    match text_between(source, t[i].start_byte, t[i].end_byte) {
        Some(text) => text,
        None => "<unknown>"@,
    }
}

/// The text of a node, or a word that says it is not known.
pub fn node_text_or_unknown(tree: &SyntaxTree, i: usize, source: &str) -> (s: String)
    requires
        i < tree@.len(),
    ensures
        s@ == text_or_unknown(tree@, i as int, source@),
{
    let node = tree.node(i);
    match slice_text(source, node.start_byte, node.end_byte) {
        Some(text) => text.to_string(),
        None => "<unknown>".to_string(),
    }
}

/// The bytes of two texts one after the other are the bytes of both.
pub proof fn lemma_encode_adds(a: Seq<char>, b: Seq<char>)
    ensures
        encode_utf8(a + b) == encode_utf8(a) + encode_utf8(b),
    decreases a.len(),
{
    if a.len() == 0 {
        assert(a + b == b);
        assert(encode_utf8(a) == Seq::<u8>::empty());
    } else {
        lemma_encode_adds(a.drop_first(), b);
        assert((a + b).drop_first() == a.drop_first() + b);
        assert((a + b)[0] == a[0]);
    }
}

/// A part of a text has no more bytes than the text.
pub proof fn lemma_encode_part(s: Seq<char>, i: int, j: int)
    requires
        0 <= i <= j <= s.len(),
    ensures
        encode_utf8(s.subrange(i, j)).len() <= encode_utf8(s).len(),
{
    lemma_encode_adds(s.take(i), s.subrange(i, j));
    lemma_encode_adds(s.take(j), s.skip(j));
    assert(s.take(i) + s.subrange(i, j) == s.take(j));
    assert(s.take(j) + s.skip(j) == s);
}

} // verus!

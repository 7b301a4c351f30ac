//! Words, numbers and scores: what they are, place by place.

use crate::digest::{digest_of, hex_digit_of, hex_of, lemma_hex_len, xxh3_128_of};
use crate::score::Score;
use crate::text::{
    digits_value, is_space, lemma_leading_space, lemma_word_len, u32_value, without_leading_space,
    word_len, words_of,
};
use vstd::arithmetic::div_mod::lemma_div_denominator;
use vstd::arithmetic::power::{lemma_pow0, lemma_pow_positive, pow};
use vstd::prelude::*;

verus! {

/// Whether a word stands here: as many characters in a row as there are without space.
pub open spec fn is_word(s: Seq<char>, from: int, to: int) -> bool {
    &&& 0 <= from < to <= s.len()
    &&& forall|k: int| from <= k < to ==> !is_space(#[trigger] s[k])
    &&& from == 0 || is_space(s[from - 1])
    &&& to == s.len() || is_space(s[to])
}

proof fn lemma_lead(s: Seq<char>) -> (a: int)
    ensures
        0 <= a <= s.len(),
        without_leading_space(s) == s.skip(a),
        forall|k: int| 0 <= k < a ==> is_space(#[trigger] s[k]),
        a < s.len() ==> !is_space(s[a]),
    decreases s.len(),
{
    if s.len() > 0 && is_space(s[0]) {
        let d = s.drop_first();
        let a = lemma_lead(d);
        assert(d.skip(a) =~= s.skip(a + 1));
        assert forall|k: int| 0 <= k < a + 1 implies is_space(#[trigger] s[k]) by {
            if k > 0 {
                assert(d[k - 1] == s[k]);
            }
        }
        a + 1
    } else {
        assert(s.skip(0) =~= s);
        0
    }
}

proof fn lemma_word_end(s: Seq<char>)
    ensures
        0 <= word_len(s) <= s.len(),
        forall|k: int| 0 <= k < word_len(s) ==> !is_space(#[trigger] s[k]),
        word_len(s) < s.len() ==> is_space(s[word_len(s)]),
    decreases s.len(),
{
    if s.len() > 0 && !is_space(s[0]) {
        let d = s.drop_first();
        lemma_word_end(d);
        assert forall|k: int| 0 <= k < word_len(s) implies !is_space(#[trigger] s[k]) by {
            if k > 0 {
                assert(d[k - 1] == s[k]);
            }
        }
        if word_len(s) < s.len() {
            assert(d[word_len(d)] == s[word_len(s)]);
        }
    }
}

/// The words of a text are all that stand in it, in the order in which they stand.
pub proof fn lemma_words_are_all_that_stand(s: Seq<char>) -> (places: Seq<(int, int)>)
    ensures
        places.len() == words_of(s).len(),
        forall|i: int|
            #![trigger places[i]]
            0 <= i < places.len() ==> is_word(s, places[i].0, places[i].1) && words_of(s)[i]
                == s.subrange(places[i].0, places[i].1),
        forall|i: int, j: int|
            #![trigger places[i], places[j]]
            0 <= i < j < places.len() ==> places[i].1 <= places[j].0,
        forall|from: int, to: int| #[trigger] is_word(s, from, to) ==> places.contains((from, to)),
    decreases s.len(),
{
    let a = lemma_lead(s);
    let t = without_leading_space(s);
    lemma_leading_space(s);
    if t.len() == 0 {
        assert forall|from: int, to: int| !#[trigger] is_word(s, from, to) by {
            if is_word(s, from, to) {
                assert(is_space(s[from]));
            }
        }
        Seq::empty()
    } else {
        lemma_word_len(t);
        lemma_word_end(t);
        let n = word_len(t);
        let m = a + n;
        let u = t.skip(n);
        assert(u =~= s.skip(m));
        let more = lemma_words_are_all_that_stand(u);
        let later = more.map_values(|p: (int, int)| (p.0 + m, p.1 + m));
        let places = seq![(a, m)] + later;
        assert forall|k: int| a <= k < m implies !is_space(#[trigger] s[k]) by {
            assert(t[k - a] == s[k]);
        }
        if m < s.len() {
            assert(t[n] == s[m]);
        }
        assert(is_word(s, a, m));
        assert(t.take(n) =~= s.subrange(a, m));
        assert forall|i: int| 0 <= i < places.len() implies is_word(
            s,
            (#[trigger] places[i]).0,
            places[i].1,
        ) && words_of(s)[i] == s.subrange(places[i].0, places[i].1) by {
            if i > 0 {
                let p = more[i - 1];
                assert(places[i] == (p.0 + m, p.1 + m));
                assert(is_word(u, p.0, p.1));
                lemma_word_behind(s, m, p.0, p.1);
                assert(u.subrange(p.0, p.1) =~= s.subrange(p.0 + m, p.1 + m));
                assert(words_of(s)[i] == words_of(u)[i - 1]);
            }
        }
        assert forall|i: int, j: int|
            #![trigger places[i], places[j]]
            0 <= i < j < places.len() implies places[i].1 <= places[j].0 by {
            let q = more[j - 1];
            assert(is_word(u, q.0, q.1));
            if i > 0 {
                assert(more[i - 1].1 <= more[j - 1].0);
            }
        }
        assert forall|from: int, to: int| #[trigger] is_word(
            s,
            from,
            to,
        ) implies places.contains((from, to)) by {
            if from < a {
                assert(is_space(s[from]));
            } else if from < m {
                if a < from {
                    assert(!is_space(s[from - 1]));
                }
                if to < m {
                    assert(!is_space(s[to]));
                }
                if m < to {
                    assert(!is_space(s[m]));
                }
                assert(places[0] == (from, to));
            } else {
                lemma_word_behind(s, m, from - m, to - m);
                assert(is_word(u, from - m, to - m));
                let i = choose|i: int|
                    0 <= i < more.len() && more[i] == (from - m, to - m);
                assert(places[i + 1] == (from, to));
            }
        }
        places
    }
}

proof fn lemma_word_behind(s: Seq<char>, m: int, from: int, to: int)
    requires
        0 < m <= s.len(),
        m == s.len() || is_space(s[m]),
        0 <= from,
    ensures
        is_word(s.skip(m), from, to) <==> is_word(s, from + m, to + m),
{
    let u = s.skip(m);
    if is_word(u, from, to) {
        assert(!is_space(u[from]));
        assert forall|k: int| from + m <= k < to + m implies !is_space(#[trigger] s[k]) by {
            assert(u[k - m] == s[k]);
        }
        if from == 0 {
            assert(u[0] == s[m]);
        } else {
            assert(u[from - 1] == s[from + m - 1]);
        }
        if to < u.len() {
            assert(u[to] == s[to + m]);
        }
    }
    if is_word(s, from + m, to + m) {
        assert(!is_space(s[from + m]));
        assert forall|k: int| from <= k < to implies !is_space(#[trigger] u[k]) by {
            assert(u[k] == s[k + m]);
        }
        if from > 0 {
            assert(u[from - 1] == s[from + m - 1]);
        }
        if to < u.len() {
            assert(u[to] == s[to + m]);
        }
    }
}

/// A number is written in decimal: one more digit makes it ten times as large, and adds
/// the digit. It is read if it fits, with a plus sign before it or without.
pub proof fn lemma_numbers_are_decimal(s: Seq<char>, d: char)
    requires
        s.len() > 0,
        forall|i: int| 0 <= i < s.len() ==> '0' <= #[trigger] s[i] <= '9',
        '0' <= d <= '9',
    ensures
        digits_value(s.push(d)) == 10 * digits_value(s) + (d as u32 - 48),
        digits_value(seq![d]) == d as u32 - 48,
        u32_value(seq![d]) == Some((d as u32 - 48) as u32),
        u32_value(s) == if digits_value(s) <= 4_294_967_295 {
            Some(digits_value(s) as u32)
        } else {
            None::<u32>
        },
        u32_value(seq!['+'] + s) == u32_value(s),
        u32_value(s.push(d)) is Some <==> 10 * digits_value(s) + (d as u32 - 48) <= 4_294_967_295,
{
    let one = seq![d];
    let more = s.push(d);
    let signed = seq!['+'] + s;
    assert(more.drop_last() =~= s);
    assert(one.drop_last() =~= Seq::<char>::empty());
    assert(digits_value(Seq::<char>::empty()) == 0);
    assert(one[0] == d);
    assert(s[0] != '+');
    assert(more[0] == s[0]);
    assert(signed.drop_first() =~= s);
    assert forall|i: int| 0 <= i < more.len() implies crate::text::is_digit(#[trigger] more[i]) by {
        if i < s.len() {
            assert(more[i] == s[i]);
        }
    }
    assert forall|i: int| 0 <= i < s.len() implies crate::text::is_digit(#[trigger] s[i]) by {}
}

/// A text that holds anything but digits, behind an optional plus sign, is no number.
pub proof fn lemma_other_texts_are_no_numbers(s: Seq<char>, i: int)
    requires
        0 <= i < s.len(),
        !('0' <= s[i] <= '9'),
        i > 0 || s[i] != '+',
    ensures
        u32_value(s) is None,
        u32_value(Seq::empty()) is None,
{
    if s[0] == '+' {
        assert(s.drop_first()[i - 1] == s[i]);
    }
}

/// Scores are ordered as doubles are: of two that are not negative the one with the
/// larger bits is larger, of two negative ones it is smaller, and a negative one is
/// smaller than one that is not. Different scores have different places.
pub proof fn lemma_scores_are_ordered_as_doubles(a: Score, b: Score)
    ensures
        ({
            let sign = 0x8000_0000_0000_0000u64;
            &&& a.bits < sign && b.bits < sign ==> (a.key() < b.key() <==> a.bits < b.bits)
            &&& a.bits >= sign && b.bits >= sign ==> (a.key() < b.key() <==> a.bits > b.bits)
            &&& a.bits >= sign && b.bits < sign ==> a.key() < b.key()
            &&& a.key() == b.key() ==> a == b
            &&& a.bits == 0 ==> a.key() == 0
        }),
{
}

/// White space is what Unicode says it is: the characters from tab to carriage return,
/// the blank, and the other blanks, line ends and separators.
pub proof fn lemma_white_space_is_that_of_unicode(c: char)
    ensures
        is_space(c) <==> set![
            0x9u32,
            0xau32,
            0xbu32,
            0xcu32,
            0xdu32,
            0x20u32,
            0x85u32,
            0xa0u32,
            0x1680u32,
            0x2000u32,
            0x2001u32,
            0x2002u32,
            0x2003u32,
            0x2004u32,
            0x2005u32,
            0x2006u32,
            0x2007u32,
            0x2008u32,
            0x2009u32,
            0x200au32,
            0x2028u32,
            0x2029u32,
            0x202fu32,
            0x205fu32,
            0x3000u32,
        ].contains(c as u32),
{
}

/// The digest of some bytes is their hash in hexadecimal digits, 32 of them, in lower
/// case and with the most significant one first.
pub proof fn lemma_digest_is_hexadecimal(bytes: Seq<u8>, i: int)
    requires
        0 <= i < 32,
    ensures
        digest_of(bytes).len() == 32,
        digest_of(bytes)[i] == "0123456789abcdef"@[(xxh3_128_of(bytes) as nat / pow(
            16,
            (31 - i) as nat,
        ) as nat) as int % 16],
{
    lemma_hex_digit_at(xxh3_128_of(bytes) as nat, 32, i);
}

proof fn lemma_hex_digit_at(x: nat, width: nat, i: int)
    requires
        0 <= i < width,
    ensures
        hex_of(x, width).len() == width,
        pow(16, (width - 1 - i) as nat) > 0,
        hex_of(x, width)[i] == "0123456789abcdef"@[(x / pow(
            16,
            (width - 1 - i) as nat,
        ) as nat) as int % 16],
    decreases width,
{
    lemma_hex_len(x, width);
    lemma_hex_len(x / 16, (width - 1) as nat);
    let e = (width - 1 - i) as nat;
    lemma_pow_positive(16, e);
    if e == 0 {
        lemma_pow0(16);
        assert(x / 1 == x);
        lemma_hex_digit((x % 16) as int);
    } else {
        lemma_hex_digit_at(x / 16, (width - 1) as nat, i);
        let d = pow(16, (e - 1) as nat);
        assert(pow(16, e) == 16 * d) by {
            reveal(pow);
        }
        lemma_div_denominator(x as int, 16, d);
        assert((x / 16) as int / d == x as int / (16 * d));
        assert(hex_of(x, width)[i] == hex_of(x / 16, (width - 1) as nat)[i]);
    }
}

proof fn lemma_hex_digit(n: int)
    requires
        0 <= n < 16,
    ensures
        hex_digit_of(n) == "0123456789abcdef"@[n],
{
    reveal_strlit("0123456789abcdef");
}

} // verus!

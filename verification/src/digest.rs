//! Content digests, written as 32 hexadecimal digits.

use vstd::prelude::*;

verus! {

/// What `xxhash_rust::xxh3::xxh3_128` returns for these bytes.
pub uninterp spec fn xxh3_128_of(bytes: Seq<u8>) -> u128;

/// Calls `xxhash_rust::xxh3::xxh3_128`: the 128-bit XXH3 hash of the bytes, with
/// seed zero. It depends on the bytes alone.
#[verifier::external_body]
fn xxh3_128(bytes: &[u8]) -> (hash: u128)
    ensures
        hash == xxh3_128_of(bytes@),
{
    xxhash_rust::xxh3::xxh3_128(bytes)
}

/// The lower case hexadecimal digit of a number below sixteen.
pub open spec fn hex_digit_of(n: int) -> char {
    if n < 10 {
        (48 + n) as char
    } else {
        (87 + n) as char
    }
}

/// The last `width` hexadecimal digits of `x`, most significant first.
pub open spec fn hex_of(x: nat, width: nat) -> Seq<char>
    decreases width,
{
    if width == 0 {
        seq![]
    } else {
        hex_of(x / 16, (width - 1) as nat).push(hex_digit_of((x % 16) as int))
    }
}

/// As many digits as asked for.
pub proof fn lemma_hex_len(x: nat, width: nat)
    ensures
        hex_of(x, width).len() == width,
    decreases width,
{
    if width > 0 {
        lemma_hex_len(x / 16, (width - 1) as nat);
    }
}

/// How many numbers fit into `width` hexadecimal digits.
pub open spec fn hex_range(width: nat) -> nat
    decreases width,
{
    if width == 0 {
        1
    } else {
        16 * hex_range((width - 1) as nat)
    }
}

/// Numbers that fit into the digits and are written alike are the same.
pub proof fn lemma_hex_injective(x: nat, y: nat, width: nat)
    requires
        x < hex_range(width),
        y < hex_range(width),
        hex_of(x, width) == hex_of(y, width),
    ensures
        x == y,
    decreases width,
{
    if width > 0 {
        let w = (width - 1) as nat;
        let a = hex_of(x / 16, w);
        let b = hex_of(y / 16, w);
        let c = hex_digit_of((x % 16) as int);
        let d = hex_digit_of((y % 16) as int);
        assert(a == a.push(c).drop_last());
        assert(b == b.push(d).drop_last());
        assert(a.push(c).last() == c);
        assert(b.push(d).last() == d);
        lemma_hex_injective(x / 16, y / 16, w);
    }
}

/// Writes one hexadecimal digit.
fn hex_digit(n: u8) -> (c: char)
    requires
        n < 16,
    ensures
        c == hex_digit_of(n as int),
{
    if n < 10 {
        (48 + n) as char
    } else {
        (87 + n) as char
    }
}

/// Writes the last `width` hexadecimal digits of `x`.
fn hex(x: u128, width: u32) -> (s: String)
    ensures
        s@ == hex_of(x as nat, width as nat),
    decreases width,
{
    if width == 0 {
        String::new()
    } else {
        let mut s = hex(x / 16, width - 1);
        s.push(hex_digit((x % 16) as u8));
        s
    }
}

/// The digest of some bytes: their hash in 32 hexadecimal digits.
pub open spec fn digest_of(bytes: Seq<u8>) -> Seq<char> {
    hex_of(xxh3_128_of(bytes) as nat, 32)
}

/// Writes the digest of a hash.
pub fn digest_text(hash: u128) -> (s: String)
    ensures
        s@ == hex_of(hash as nat, 32),
        s@.len() == 32,
{
    proof {
        lemma_hex_len(hash as nat, 32);
    }
    hex(hash, 32)
}

/// The digest of a function's text.
pub fn stable_hash_hex(bytes: &[u8]) -> (s: String)
    ensures
        s@ == digest_of(bytes@),
        s@.len() == 32,
{
    digest_text(xxh3_128(bytes))
}

/// The digest of a file's content.
pub fn stable_content_hash(bytes: &[u8]) -> (s: String)
    ensures
        s@ == digest_of(bytes@),
        s@.len() == 32,
{
    stable_hash_hex(bytes)
}

/// Two contents have the same digest exactly when they have the same hash.
pub proof fn lemma_digest_tells_hashes_apart(a: Seq<u8>, b: Seq<u8>)
    ensures
        digest_of(a) == digest_of(b) <==> xxh3_128_of(a) == xxh3_128_of(b),
{
    reveal_with_fuel(hex_range, 33);
    if digest_of(a) == digest_of(b) {
        lemma_hex_injective(xxh3_128_of(a) as nat, xxh3_128_of(b) as nat, 32);
    }
}

} // verus!

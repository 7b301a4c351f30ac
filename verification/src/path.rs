//! Paths with `/` between their components.

use crate::text::{
    chars_of, join, join_with, joined, joined3, slice_views, split, split_on, string_of,
};
use vstd::prelude::*;
use vstd::slice::slice_subrange;

verus! {

/// Whether a piece between separators is a component. Empty pieces are none, and
/// neither is a dot, unless it is the first piece of the path.
pub open spec fn is_component(piece: Seq<char>, first: bool) -> bool {
    piece.len() > 0 && (first || piece != seq!['.'])
}

fn component(piece: &[char], first: bool) -> (r: bool)
    ensures
        r == is_component(piece@, first),
{
    if piece.len() == 1 && piece[0] == '.' {
        assert(piece@ == seq!['.']);
    }
    assert(piece@ == seq!['.'] ==> piece@[0] == '.');
    piece.len() > 0 && (first || !(piece.len() == 1 && piece[0] == '.'))
}

/// The pieces up to the last component.
pub open spec fn without_trailing_noise(pieces: Seq<Seq<char>>) -> Seq<Seq<char>>
    decreases pieces.len(),
{
    if pieces.len() > 0 && !is_component(pieces.last(), pieces.len() == 1) {
        without_trailing_noise(pieces.drop_last())
    } else {
        pieces
    }
}

/// The number of pieces up to the last component.
fn last_component(pieces: &Vec<&[char]>, from: usize) -> (n: usize)
    requires
        from <= pieces.len(),
    ensures
        from <= n <= pieces.len(),
        slice_views(pieces@).subrange(from as int, n as int) == without_trailing_noise(
            slice_views(pieces@).skip(from as int),
        ),
{
    let ghost all = slice_views(pieces@);
    let ghost whole = all.skip(from as int);
    let mut n: usize = pieces.len();
    assert(all.subrange(from as int, n as int) == whole);
    while n > from && !component(pieces[n - 1], n - 1 == from)
        invariant
            all == slice_views(pieces@),
            whole == all.skip(from as int),
            from <= n <= pieces.len(),
            without_trailing_noise(all.subrange(from as int, n as int)) == without_trailing_noise(
                whole,
            ),
        decreases n,
    {
        assert(all.subrange(from as int, n as int).drop_last() == all.subrange(
            from as int,
            n - 1,
        ));
        n = n - 1;
    }
    n
}

/// The last component of a path, unless it is a step to the parent directory.
pub open spec fn file_name_of(path: Seq<char>) -> Option<Seq<char>> {
    let pieces = without_trailing_noise(split_on(path, '/'));
    if pieces.len() == 0 || pieces.last() == seq!['.', '.'] || pieces.last() == seq!['.'] {
        None
    } else {
        Some(pieces.last())
    }
}

/// The position behind the last `c`, or zero if there is none.
pub open spec fn after_last(s: Seq<char>, c: char) -> int
    decreases s.len(),
{
    if s.len() == 0 {
        0
    } else if s.last() == c {
        s.len() as int
    } else {
        after_last(s.drop_last(), c)
    }
}

fn find_after_last(s: &[char], c: char) -> (n: usize)
    ensures
        n == after_last(s@, c),
        n <= s.len(),
{
    let mut n: usize = s.len();
    assert(s@.take(n as int) == s@);
    while n > 0 && s[n - 1] != c
        invariant
            n <= s.len(),
            after_last(s@, c) == after_last(s@.take(n as int), c),
        decreases n,
    {
        assert(s@.take(n as int).drop_last() == s@.take(n - 1));
        n = n - 1;
    }
    n
}

/// The part of the file name behind its last dot, if there is a dot with
/// something before it.
pub open spec fn extension_of(path: Seq<char>) -> Option<Seq<char>> {
    match file_name_of(path) {
        Some(name) => {
            let n = after_last(name, '.');
            if n <= 1 {
                None
            } else {
                Some(name.skip(n))
            }
        },
        None => None,
    }
}

/// The extension of a path.
pub fn extension(path: &str) -> (r: Option<String>)
    ensures
        match r {
            Some(e) => extension_of(path@) == Some(e@),
            None => extension_of(path@) is None,
        },
{
    let chars = chars_of(path);
    let pieces = split(chars.as_slice(), '/');
    let ghost all = slice_views(pieces@);
    let n = last_component(&pieces, 0);
    proof {
        assert(all.skip(0) == all);
        assert(all.subrange(0, n as int) == without_trailing_noise(split_on(path@, '/')));
    }
    if n == 0 {
        return None;
    }
    let name = pieces[n - 1];
    assert(name@ == without_trailing_noise(split_on(path@, '/')).last());
    if name.len() == 2 && name[0] == '.' && name[1] == '.' {
        assert(name@ == seq!['.', '.']);
        return None;
    }
    if name.len() == 1 && name[0] == '.' {
        assert(name@ == seq!['.']);
        return None;
    }
    assert(name@ == seq!['.', '.'] ==> name@[0] == '.' && name@[1] == '.');
    assert(name@ == seq!['.'] ==> name@[0] == '.');
    let k = find_after_last(name, '.');
    if k <= 1 {
        None
    } else {
        assert(name@.subrange(k as int, name@.len() as int) == name@.skip(k as int));
        Some(string_of(slice_subrange(name, k, name.len())))
    }
}

/// What is left of `pieces` once the components of `base` are gone from its
/// front: it starts at a component or is empty.
pub open spec fn behind_components(
    pieces: Seq<Seq<char>>,
    first: bool,
    base: Seq<Seq<char>>,
    base_first: bool,
) -> Option<Seq<Seq<char>>>
    decreases pieces.len() + base.len(),
{
    if pieces.len() > 0 && !is_component(pieces[0], first) {
        behind_components(pieces.drop_first(), false, base, base_first)
    } else if base.len() > 0 && !is_component(base[0], base_first) {
        behind_components(pieces, first, base.drop_first(), false)
    } else if base.len() == 0 {
        Some(pieces)
    } else if pieces.len() > 0 && pieces[0] == base[0] {
        behind_components(pieces.drop_first(), false, base.drop_first(), false)
    } else {
        None
    }
}

/// Whether a path starts at the root directory.
pub open spec fn is_rooted(path: Seq<char>) -> bool {
    path.len() > 0 && path[0] == '/'
}

/// A path without what follows its last component.
pub open spec fn without_trailing_separators(path: Seq<char>) -> Seq<char> {
    let pieces = without_trailing_noise(split_on(path, '/'));
    if pieces.len() == 0 && is_rooted(path) {
        seq!['/']
    } else {
        join_with(pieces, seq!['/'])
    }
}

/// The path that leads from `base` to `path`, if `path` lies under `base`.
pub open spec fn path_below(path: Seq<char>, base: Seq<char>) -> Option<Seq<char>> {
    if base.len() == 0 {
        Some(without_trailing_separators(path))
    } else if is_rooted(path) != is_rooted(base) {
        None
    } else {
        match behind_components(split_on(path, '/'), true, split_on(base, '/'), true) {
            Some(rest) => Some(join_with(without_trailing_noise(rest), seq!['/'])),
            None => None,
        }
    }
}

fn same_chars(a: &[char], b: &[char]) -> (r: bool)
    ensures
        r == (a@ == b@),
{
    if a.len() != b.len() {
        return false;
    }
    for i in 0..a.len()
        invariant
            a.len() == b.len(),
            forall|j: int| 0 <= j < i ==> a@[j] == b@[j],
    {
        if a[i] != b[i] {
            return false;
        }
    }
    assert(a@ == b@);
    true
}

/// How many pieces the components of `base` take.
fn pieces_behind(pieces: &Vec<&[char]>, base: &Vec<&[char]>) -> (r: Option<usize>)
    ensures
        ({
            let rest = behind_components(slice_views(pieces@), true, slice_views(base@), true);
            match r {
                Some(n) => n <= pieces.len() && rest == Some(
                    slice_views(pieces@).skip(n as int),
                ),
                None => rest is None,
            }
        }),
{
    let ghost all = slice_views(pieces@);
    let ghost under = slice_views(base@);
    let mut i: usize = 0;
    let mut j: usize = 0;
    assert(all.skip(0) == all);
    assert(under.skip(0) == under);
    loop
        invariant
            all == slice_views(pieces@),
            under == slice_views(base@),
            i <= pieces.len(),
            j <= base.len(),
            behind_components(all, true, under, true) == behind_components(
                all.skip(i as int),
                i == 0,
                under.skip(j as int),
                j == 0,
            ),
        decreases pieces.len() - i + base.len() - j,
    {
        assert(i < pieces.len() ==> all.skip(i as int)[0] == pieces@[i as int]@);
        assert(j < base.len() ==> under.skip(j as int)[0] == base@[j as int]@);
        assert(i < pieces.len() ==> all.skip(i as int).drop_first() == all.skip(i + 1));
        assert(j < base.len() ==> under.skip(j as int).drop_first() == under.skip(j + 1));
        if i < pieces.len() && !component(pieces[i], i == 0) {
            i = i + 1;
        } else if j < base.len() && !component(base[j], j == 0) {
            j = j + 1;
        } else if j == base.len() {
            return Some(i);
        } else if i < pieces.len() && same_chars(pieces[i], base[j]) {
            i = i + 1;
            j = j + 1;
        } else {
            return None;
        }
    }
}

/// The pieces from `from` up to the last component, joined.
fn joined_from(pieces: &Vec<&[char]>, from: usize) -> (s: String)
    requires
        from <= pieces.len(),
    ensures
        s@ == join_with(
            without_trailing_noise(slice_views(pieces@).skip(from as int)),
            seq!['/'],
        ),
{
    let n = last_component(pieces, from);
    let mut kept: Vec<&[char]> = Vec::new();
    for i in from..n
        invariant
            from <= n <= pieces.len(),
            kept@ == pieces@.subrange(from as int, i as int),
    {
        kept.push(pieces[i]);
    }
    proof {
        assert(slice_views(kept@) =~= slice_views(pieces@).subrange(from as int, n as int));
        reveal_strlit("/");
        assert("/"@ =~= seq!['/']);
    }
    join(&kept, "/")
}

/// The path that leads from `base` to `path`, if `path` lies under `base`.
pub fn strip_base(path: &str, base: &str) -> (r: Option<String>)
    ensures
        match r {
            Some(rest) => path_below(path@, base@) == Some(rest@),
            None => path_below(path@, base@) is None,
        },
{
    let chars = chars_of(path);
    let under = chars_of(base);
    let pieces = split(chars.as_slice(), '/');
    let rooted = chars.len() > 0 && chars[0] == '/';
    assert(slice_views(pieces@).skip(0) == slice_views(pieces@));
    if under.len() == 0 {
        let n = last_component(&pieces, 0);
        assert(slice_views(pieces@).subrange(0, n as int).len() == n);
        if n == 0 && rooted {
            proof {
                reveal_strlit("/");
                assert("/"@ =~= seq!['/']);
            }
            return Some("/".to_string());
        }
        return Some(joined_from(&pieces, 0));
    }
    if rooted != (under[0] == '/') {
        return None;
    }
    let base_pieces = split(under.as_slice(), '/');
    match pieces_behind(&pieces, &base_pieces) {
        Some(n) => Some(joined_from(&pieces, n)),
        None => None,
    }
}

/// A path followed by a component under it.
pub open spec fn path_under(base: Seq<char>, name: Seq<char>) -> Seq<char> {
    if is_rooted(name) {
        name
    } else if base.len() == 0 || base.last() == '/' {
        base + name
    } else {
        base + seq!['/'] + name
    }
}

/// Joins a path and a component under it.
pub fn join_path(base: &str, name: &str) -> (r: String)
    ensures
        r@ == path_under(base@, name@),
{
    let b = chars_of(base);
    let n = chars_of(name);
    if n.len() > 0 && n[0] == '/' {
        name.to_string()
    } else if b.len() == 0 || b[b.len() - 1] == '/' {
        joined(base, name)
    } else {
        proof {
            reveal_strlit("/");
            assert("/"@ =~= seq!['/']);
        }
        joined3(base, "/", name)
    }
}

/// The path under which coverage data of a file is filed: relative to the
/// repository where the file lies in it.
pub open spec fn coverage_path(path: Seq<char>, repo_path: Seq<char>) -> Seq<char> {
    if is_rooted(path) {
        match path_below(path, repo_path) {
            Some(rest) => rest,
            None => path,
        }
    } else {
        path
    }
}

/// Makes an absolute path relative to the repository, if it lies in it.
pub fn normalize_coverage_path(path: &str, repo_path: &str) -> (r: String)
    ensures
        r@ == coverage_path(path@, repo_path@),
{
    let chars = chars_of(path);
    if chars.len() > 0 && chars[0] == '/' {
        match strip_base(path, repo_path) {
            Some(rest) => rest,
            None => path.to_string(),
        }
    } else {
        path.to_string()
    }
}

} // verus!

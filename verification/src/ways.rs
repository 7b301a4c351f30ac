//! Where a file lies below a directory, step by step.

use crate::path::{
    behind_components, coverage_path, is_component, path_below, path_under, without_trailing_noise,
};
use crate::text::{first_index, join_with, lemma_first_index, split_on};
use vstd::prelude::*;

verus! {

/// Whether these are names of directories and files: not empty, not a dot, and without
/// a stroke in them.
pub open spec fn are_names(names: Seq<Seq<char>>) -> bool {
    forall|i: int|
        0 <= i < names.len() ==> (#[trigger] names[i]).len() > 0 && names[i] != "."@
            && !names[i].contains('/')
}

/// A path from the root: a stroke before each name.
pub open spec fn way(names: Seq<Seq<char>>) -> Seq<char> {
    names.map_values(|n: Seq<char>| "/"@ + n).flatten_alt()
}

/// Whether one list goes on where another ends.
pub open spec fn goes_on(names: Seq<Seq<char>>, base: Seq<Seq<char>>) -> bool {
    base.len() <= names.len() && forall|i: int|
        0 <= i < base.len() ==> #[trigger] names[i] == base[i]
}

proof fn lemma_split_last(s: Seq<char>, name: Seq<char>)
    requires
        !name.contains('/'),
    ensures
        split_on(s + seq!['/'] + name, '/') == split_on(s, '/').push(name),
    decreases s.len(),
{
    let t = s + seq!['/'] + name;
    lemma_first_index(t, '/');
    lemma_first_index(s, '/');
    let n = first_index(t, '/');
    let k = first_index(s, '/');
    assert(t[s.len() as int] == '/');
    if k < s.len() {
        assert(t[k] == '/');
        if n < k {
            assert(s[n] == '/');
        }
        if k < n {
            assert(t[k] != '/');
        }
        assert(n == k);
        let rest = s.skip(n + 1);
        lemma_split_last(rest, name);
        assert(t.skip(n + 1) =~= rest + seq!['/'] + name);
        assert(t.take(n) =~= s.take(n));
        assert(split_on(t, '/') =~= split_on(s, '/').push(name));
    } else {
        if n < s.len() {
            assert(s[n] == '/');
        }
        if s.len() < n {
            assert(t[s.len() as int] != '/');
        }
        assert(t.take(n) =~= s);
        assert(t.skip(n + 1) =~= name);
        lemma_first_index(name, '/');
        let m = first_index(name, '/');
        if m < name.len() {
            assert(name.contains(name[m]));
        }
        assert(split_on(name, '/') =~= seq![name]);
        assert(split_on(t, '/') =~= seq![s].push(name));
    }
}

proof fn lemma_way_grows(names: Seq<Seq<char>>)
    requires
        names.len() > 0,
    ensures
        way(names) == way(names.drop_last()) + seq!['/'] + names.last(),
{
    let put = |n: Seq<char>| "/"@ + n;
    reveal_strlit("/");
    assert("/"@ =~= seq!['/']);
    assert(names.map_values(put).drop_last() =~= names.drop_last().map_values(put));
    assert(way(names) =~= way(names.drop_last()) + seq!['/'] + names.last());
}

proof fn lemma_way_splits(names: Seq<Seq<char>>)
    requires
        are_names(names),
    ensures
        split_on(way(names), '/') == seq![Seq::<char>::empty()] + names,
        names.len() > 0 ==> way(names).len() > 0 && way(names)[0] == '/',
    decreases names.len(),
{
    if names.len() == 0 {
        assert(way(names) =~= Seq::<char>::empty());
        assert(split_on(way(names), '/') =~= seq![Seq::<char>::empty()] + names);
    } else {
        let had = names.drop_last();
        assert forall|i: int| 0 <= i < had.len() implies (#[trigger] had[i]).len() > 0 && had[i]
            != "."@ && !had[i].contains('/') by {
            assert(had[i] == names[i]);
        }
        lemma_way_splits(had);
        lemma_way_grows(names);
        assert(!names[names.len() - 1].contains('/'));
        lemma_split_last(way(had), names.last());
        assert((seq![Seq::<char>::empty()] + had).push(names.last()) =~= seq![
            Seq::<char>::empty(),
        ] + names);
        if had.len() == 0 {
            assert(way(had) =~= Seq::<char>::empty());
        }
    }
}

proof fn lemma_way_joins(names: Seq<Seq<char>>)
    requires
        names.len() > 0,
    ensures
        way(names) == seq!['/'] + join_with(names, seq!['/']),
    decreases names.len(),
{
    lemma_way_grows(names);
    let had = names.drop_last();
    if had.len() == 0 {
        assert(way(had) =~= Seq::<char>::empty());
        reveal_with_fuel(join_with, 2);
        assert(join_with(names, seq!['/']) =~= names.last());
        assert(way(names) =~= seq!['/'] + names.last());
    } else {
        lemma_way_joins(had);
        assert(way(names) =~= seq!['/'] + join_with(names, seq!['/']));
    }
}

proof fn lemma_behind_names(names: Seq<Seq<char>>, base: Seq<Seq<char>>)
    requires
        are_names(names),
        are_names(base),
    ensures
        behind_components(names, false, base, false) == if goes_on(names, base) {
            Some(names.skip(base.len() as int))
        } else {
            None
        },
    decreases base.len(),
{
    reveal_strlit(".");
    assert("."@ =~= seq!['.']);
    if names.len() > 0 {
        assert(names[0].len() > 0 && names[0] != "."@);
    }
    if base.len() > 0 {
        assert(base[0].len() > 0 && base[0] != "."@);
    }
    if base.len() == 0 {
        assert(names.skip(0) =~= names);
    } else if names.len() > 0 && names[0] == base[0] {
        let n = names.drop_first();
        let b = base.drop_first();
        assert forall|i: int| 0 <= i < n.len() implies (#[trigger] n[i]).len() > 0 && n[i] != "."@
            && !n[i].contains('/') by {
            assert(n[i] == names[i + 1]);
        }
        assert forall|i: int| 0 <= i < b.len() implies (#[trigger] b[i]).len() > 0 && b[i] != "."@
            && !b[i].contains('/') by {
            assert(b[i] == base[i + 1]);
        }
        lemma_behind_names(n, b);
        if base.len() <= names.len() {
            assert(n.skip(b.len() as int) =~= names.skip(base.len() as int));
        }
        if goes_on(names, base) {
            assert forall|i: int| 0 <= i < b.len() implies #[trigger] n[i] == b[i] by {
                assert(names[i + 1] == base[i + 1]);
            }
        }
        if goes_on(n, b) {
            assert forall|i: int| 0 <= i < base.len() implies #[trigger] names[i] == base[i] by {
                if i > 0 {
                    assert(n[i - 1] == b[i - 1]);
                }
            }
        }
    }
}

/// A file lies below a directory exactly if its path goes on from that of the directory,
/// name by name. What leads from the one to the other are the names that are left. So a
/// directory whose name only begins alike is another one.
pub proof fn lemma_below_is_what_goes_on(names: Seq<Seq<char>>, base: Seq<Seq<char>>)
    requires
        are_names(names),
        are_names(base),
        names.len() > 0,
        base.len() > 0,
    ensures
        path_below(way(names), way(base)) is Some <==> goes_on(names, base),
        goes_on(names, base) && base.len() < names.len() ==> path_below(
            way(names),
            way(base),
        ) == Some(way(names.skip(base.len() as int)).skip(1)),
{
    lemma_way_splits(names);
    lemma_way_splits(base);
    lemma_behind_names(names, base);
    reveal_strlit(".");
    assert("."@ =~= seq!['.']);
    let p = seq![Seq::<char>::empty()] + names;
    let q = seq![Seq::<char>::empty()] + base;
    assert(p.drop_first() =~= names);
    assert(q.drop_first() =~= base);
    assert(names[0].len() > 0 && names[0] != "."@);
    assert(is_component(names[0], false));
    assert(!is_component(p[0], true));
    assert(!is_component(q[0], true));
    assert(behind_components(p, true, q, true) == behind_components(names, false, q, true));
    assert(behind_components(names, false, q, true) == behind_components(
        names,
        false,
        base,
        false,
    ));
    if goes_on(names, base) && base.len() < names.len() {
        let rest = names.skip(base.len() as int);
        assert(rest.last() == names[names.len() - 1]);
        assert(without_trailing_noise(rest) == rest);
        lemma_way_joins(rest);
        assert(way(rest).skip(1) =~= join_with(rest, seq!['/']));
    }
}

/// A file that a coverage report names by its whole path is filed by its path in the
/// repository, if it lies there, and as it is named otherwise. One that is not named from
/// the root is filed as it is named.
pub proof fn lemma_covered_file_is_filed(names: Seq<Seq<char>>, repo: Seq<Seq<char>>, name: Seq<char>)
    requires
        are_names(names),
        are_names(repo),
        repo.len() > 0,
        names.len() > 0,
        name.len() == 0 || name[0] != '/',
    ensures
        goes_on(names, repo) && repo.len() < names.len() ==> coverage_path(
            way(names),
            way(repo),
        ) == way(names.skip(repo.len() as int)).skip(1),
        !goes_on(names, repo) ==> coverage_path(way(names), way(repo)) == way(names),
        coverage_path(name, way(repo)) == name,
{
    lemma_way_splits(names);
    lemma_below_is_what_goes_on(names, repo);
}

/// A name under a directory stands behind the path of the directory and a stroke.
pub proof fn lemma_name_stands_behind_its_directory(base: Seq<char>, name: Seq<char>)
    requires
        name.len() > 0,
        name[0] != '/',
    ensures
        base.len() == 0 ==> path_under(base, name) == name,
        base.len() > 0 && base.last() != '/' ==> path_under(base, name) == base + "/"@ + name,
        base.len() > 0 && base.last() == '/' ==> path_under(base, name) == base + name,
{
    reveal_strlit("/");
    assert("/"@ =~= seq!['/']);
    assert(base.len() == 0 ==> base + name =~= name);
}

} // verus!

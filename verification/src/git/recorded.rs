//! What of a commit is recorded: every part of every file that it changes.

use super::batch::{read_renames, CommitOutcome};
use super::commits::{
    all_ranges, all_renames, are_contributions, content_ranges, content_renames, diff_ranges,
    diff_renames, hunk_name, hunk_range, hunk_ranges, is_change, is_contribution, ranges_in,
    whole_files, with_file, ChangedRange, CommitContent, CommitRecord, DiffFile, FileName, Hunk,
};
use crate::cache::{FileHistory, LineChange};
use crate::path::path_under;
use vstd::prelude::*;

verus! {

/// Whether the parts of a file of a diff are recorded under a path: its new name, or
/// its old one where it is gone.
pub open spec fn is_filed(file: DiffFile, path: Seq<char>) -> bool {
    match file.new_name {
        FileName::Text(name) => name@ == path,
        FileName::Missing => file.old_name matches FileName::Text(name) && name@ == path,
        FileName::Unreadable => false,
    }
}

/// Whether a file of a diff makes a path known: it has that name now, or parts of it
/// are recorded there.
pub open spec fn makes_known(file: DiffFile, path: Seq<char>) -> bool {
    ||| file.new_name matches FileName::Text(name) && name@ == path
    ||| file.hunks@.len() > 0 && is_filed(file, path)
}

/// Whether any file of a diff makes a path known.
pub open spec fn is_known(files: Seq<DiffFile>, path: Seq<char>) -> bool {
    exists|k: int| 0 <= k < files.len() && #[trigger] makes_known(files[k], path)
}

/// Whether a place is that of a part of a file that is recorded under a path.
pub open spec fn is_part(files: Seq<DiffFile>, path: Seq<char>, at: (int, int)) -> bool {
    0 <= at.0 < files.len() && is_filed(files[at.0], path) && 0 <= at.1 < files[at.0].hunks@.len()
}

/// Whether one place comes before another.
pub open spec fn comes_before(a: (int, int), b: (int, int)) -> bool {
    a.0 < b.0 || (a.0 == b.0 && a.1 < b.1)
}

/// Whether a list holds the places of all parts that are recorded under a path, each
/// once and in order.
pub open spec fn lists_parts(
    places: Seq<(int, int)>,
    files: Seq<DiffFile>,
    path: Seq<char>,
) -> bool {
    &&& forall|j: int| 0 <= j < places.len() ==> is_part(files, path, #[trigger] places[j])
    &&& forall|at: (int, int)| #[trigger] is_part(files, path, at) ==> places.contains(at)
    &&& forall|i: int, j: int|
        #![trigger places[i], places[j]]
        0 <= i < j < places.len() ==> comes_before(places[i], places[j])
}

/// Whether a range is that of the lines which a part has in the new version. A part
/// without lines stands for one line, and there is no line zero.
pub open spec fn is_range_of(start_line: u32, end_line: u32, hunk: Hunk) -> bool {
    let first: int = if hunk.new_start == 0 {
        1
    } else {
        hunk.new_start as int
    };
    let count: int = if hunk.new_lines == 0 {
        1
    } else {
        hunk.new_lines as int
    };
    &&& start_line == first
    &&& end_line == if first + count - 1 < u32::MAX {
        first + count - 1
    } else {
        u32::MAX - 1
    }
}

/// Every line that a part has in the new version lies in its range.
pub proof fn lemma_lines_of_part_are_in_its_range(
    start_line: u32,
    end_line: u32,
    hunk: Hunk,
    line: u32,
)
    requires
        is_range_of(start_line, end_line, hunk),
        1 <= line < u32::MAX,
        hunk.new_start <= line < hunk.new_start + hunk.new_lines,
    ensures
        start_line <= line <= end_line,
{
}

proof fn lemma_is_range_of(hunk: Hunk)
    ensures
        is_range_of(hunk_range(hunk).start_line, hunk_range(hunk).end_line, hunk),
{
}

/// The ranges that a diff records under a path: one for each part, in their order.
pub proof fn lemma_every_part_is_recorded(files: Seq<DiffFile>, path: Seq<char>) -> (places: Seq<
    (int, int),
>)
    ensures
        lists_parts(places, files, path),
        diff_ranges(files).contains_key(path) <==> is_known(files, path),
        is_known(files, path) ==> diff_ranges(files)[path].len() == places.len(),
        is_known(files, path) ==> forall|j: int|
            0 <= j < places.len() ==> is_range_of(
                (#[trigger] diff_ranges(files)[path][j]).start_line,
                diff_ranges(files)[path][j].end_line,
                files[places[j].0].hunks@[places[j].1],
            ),
        !is_known(files, path) ==> places.len() == 0,
    decreases files.len(),
{
    if files.len() == 0 {
        let none = Seq::<(int, int)>::empty();
        assert forall|at: (int, int)| !#[trigger] is_part(files, path, at) by {}
        none
    } else {
        let rest = files.drop_last();
        let n = files.len() - 1;
        let file = files[n];
        let before = lemma_every_part_is_recorded(rest, path);
        let count = file.hunks@.len();
        let more = Seq::new(count, |h: int| (n, h));
        let places = if is_filed(file, path) {
            before + more
        } else {
            before
        };
        assert forall|at: (int, int)| #[trigger] is_part(files, path, at) implies places.contains(
            at,
        ) by {
            if at.0 < n {
                assert(rest[at.0] == files[at.0]);
                assert(is_part(rest, path, at));
                let j = choose|j: int| 0 <= j < before.len() && before[j] == at;
                assert(places[j] == at);
            } else {
                assert(more[at.1] == at);
                assert(places[before.len() + at.1] == at);
            }
        }
        assert forall|j: int| 0 <= j < places.len() implies is_part(
            files,
            path,
            #[trigger] places[j],
        ) by {
            if j < before.len() {
                assert(places[j] == before[j]);
                assert(is_part(rest, path, before[j]));
                assert(rest[before[j].0] == files[before[j].0]);
            } else {
                assert(places[j] == more[j - before.len()]);
            }
        }
        assert forall|i: int, j: int|
            #![trigger places[i], places[j]]
            0 <= i < j < places.len() implies comes_before(places[i], places[j]) by {
            if j < before.len() {
                assert(places[i] == before[i] && places[j] == before[j]);
            } else {
                assert(places[j] == more[j - before.len()]);
                if i < before.len() {
                    assert(places[i] == before[i]);
                    assert(is_part(rest, path, before[i]));
                } else {
                    assert(places[i] == more[i - before.len()]);
                }
            }
        }
        assert(is_known(files, path) <==> is_known(rest, path) || makes_known(file, path)) by {
            if is_known(rest, path) {
                let k = choose|k: int| 0 <= k < rest.len() && #[trigger] makes_known(rest[k], path);
                assert(makes_known(files[k], path));
            }
            if makes_known(file, path) {
                assert(makes_known(files[n], path));
            }
            if is_known(files, path) {
                let k = choose|k: int|
                    0 <= k < files.len() && #[trigger] makes_known(files[k], path);
                if k < n {
                    assert(makes_known(rest[k], path));
                }
            }
        }
        let all = diff_ranges(rest);
        let x = diff_ranges(files);
        assert(x == with_file(all, file));
        assert(is_filed(file, path) <==> hunk_name(file) == Some(path));
        if is_known(files, path) {
            let old = ranges_in(all, path);
            assert(old.len() == before.len());
            assert(x[path] =~= if is_filed(file, path) {
                old + hunk_ranges(file.hunks@)
            } else {
                old
            });
            assert forall|j: int| 0 <= j < places.len() implies is_range_of(
                (#[trigger] x[path][j]).start_line,
                x[path][j].end_line,
                files[places[j].0].hunks@[places[j].1],
            ) by {
                if j < before.len() {
                    assert(places[j] == before[j]);
                    assert(is_part(rest, path, before[j]));
                    assert(x[path][j] == all[path][j]);
                    assert(rest[before[j].0] == files[before[j].0]);
                } else {
                    let h = j - before.len();
                    assert(places[j] == more[h]);
                    assert(x[path][j] == hunk_ranges(file.hunks@)[h]);
                    lemma_is_range_of(file.hunks@[h]);
                }
            }
        }
        places
    }
}

/// The diff that a commit is recorded by for a path: the last one that knows it.
pub open spec fn is_last_to_know(diffs: Seq<Vec<DiffFile>>, path: Seq<char>, d: int) -> bool {
    &&& 0 <= d < diffs.len()
    &&& is_known(diffs[d]@, path)
    &&& forall|e: int| d < e < diffs.len() ==> !is_known((#[trigger] diffs[e])@, path)
}

proof fn lemma_last_diff(diffs: Seq<Vec<DiffFile>>, path: Seq<char>)
    ensures
        all_ranges(diffs).contains_key(path) <==> exists|d: int| #[trigger]
            is_last_to_know(diffs, path, d),
        forall|d: int| #[trigger]
            is_last_to_know(diffs, path, d) ==> all_ranges(diffs)[path] == diff_ranges(
                diffs[d]@,
            )[path],
    decreases diffs.len(),
{
    if diffs.len() > 0 {
        let n = diffs.len() - 1;
        let rest = diffs.drop_last();
        lemma_last_diff(rest, path);
        let _places = lemma_every_part_is_recorded(diffs[n]@, path);
        if is_known(diffs[n]@, path) {
            assert(is_last_to_know(diffs, path, n));
            assert forall|d: int| #[trigger] is_last_to_know(diffs, path, d) implies d == n by {
                if d < n {
                    assert(!is_known(diffs[n]@, path));
                }
            }
        } else {
            assert forall|d: int| #[trigger] is_last_to_know(diffs, path, d) <==> is_last_to_know(
                rest,
                path,
                d,
            ) by {
                if is_last_to_know(diffs, path, d) {
                    assert(d != n);
                    assert(rest[d] == diffs[d]);
                    assert forall|e: int| d < e < rest.len() implies !is_known(
                        (#[trigger] rest[e])@,
                        path,
                    ) by {
                        assert(rest[e] == diffs[e]);
                    }
                }
                if is_last_to_know(rest, path, d) {
                    assert(rest[d] == diffs[d]);
                    assert forall|e: int| d < e < diffs.len() implies !is_known(
                        (#[trigger] diffs[e])@,
                        path,
                    ) by {
                        if e < n {
                            assert(rest[e] == diffs[e]);
                        }
                    }
                }
            }
            if exists|d: int| #[trigger] is_last_to_know(rest, path, d) {
                let d = choose|d: int| #[trigger] is_last_to_know(rest, path, d);
                assert(is_last_to_know(diffs, path, d));
            }
            if exists|d: int| #[trigger] is_last_to_know(diffs, path, d) {
                let d = choose|d: int| #[trigger] is_last_to_know(diffs, path, d);
                assert(is_last_to_know(rest, path, d));
            }
            assert forall|d: int| #[trigger] is_last_to_know(diffs, path, d) implies all_ranges(
                diffs,
            )[path] == diff_ranges(diffs[d]@)[path] by {
                assert(is_last_to_know(rest, path, d));
                assert(rest[d] == diffs[d]);
            }
        }
    }
}

/// Who a commit is by: the e-mail address, or else the name, or else nobody known.
pub open spec fn is_by(commit: CommitRecord, author: Seq<char>) -> bool {
    match commit.email {
        Some(email) => author == email@,
        None => match commit.name {
            Some(name) => author == name@,
            None => author == "Unknown"@,
        },
    }
}

/// Whether a change is one by a commit: with its identifier, its author and its time.
pub open spec fn is_of_commit(c: LineChange, commit: CommitRecord, is_fix: bool) -> bool {
    &&& c.commit@ == commit.id@
    &&& is_by(commit, c.author@)
    &&& c.timestamp == commit.timestamp
    &&& c.is_bug_fix == is_fix
}

/// Whether a history tells of one commit: it was changed once, by its author, and by a
/// bug fix if the commit is one.
pub open spec fn is_one_commit(h: FileHistory, commit: CommitRecord, is_fix: bool) -> bool {
    &&& h.times_modified == 1
    &&& h.bug_fix_commits == if is_fix {
        1nat
    } else {
        0
    }
    &&& forall|a: Seq<char>| #[trigger] h.authors.contains(a) <==> is_by(commit, a)
    &&& forall|i: int|
        0 <= i < h.line_changes.len() ==> is_of_commit(#[trigger] h.line_changes[i], commit, is_fix)
}

/// What a commit with parents adds to the history of a file: a change for every part of
/// the file in the last diff that knows it, and in no other place; or one for the whole
/// file where that diff has no parts of it. Files that no diff knows are left alone.
pub proof fn lemma_commit_records_every_part(
    all: Map<Seq<char>, FileHistory>,
    commit: CommitRecord,
    is_fix: bool,
    diffs: Seq<Vec<DiffFile>>,
    path: Seq<char>,
    d: int,
) -> (places: Seq<(int, int)>)
    requires
        are_contributions(all, commit, is_fix),
        commit.content matches CommitContent::Diffs(list) && list@ == diffs,
    ensures
        all.contains_key(path) <==> exists|e: int| #[trigger] is_last_to_know(diffs, path, e),
        is_last_to_know(diffs, path, d) ==> {
            let h = all[path];
            &&& is_one_commit(h, commit, is_fix)
            &&& lists_parts(places, diffs[d]@, path)
            &&& if places.len() == 0 {
                h.line_changes.len() == 1 && h.line_changes[0].start_line == 1
                    && h.line_changes[0].end_line == 1_000_000_000
            } else {
                h.line_changes.len() == places.len() && forall|j: int|
                    0 <= j < places.len() ==> is_range_of(
                        (#[trigger] h.line_changes[j]).start_line,
                        h.line_changes[j].end_line,
                        diffs[d]@[places[j].0].hunks@[places[j].1],
                    )
            }
        },
{
    lemma_last_diff(diffs, path);
    assert(all.dom().contains(path) <==> content_ranges(commit.content).dom().contains(path));
    let places = if is_last_to_know(diffs, path, d) {
        lemma_every_part_is_recorded(diffs[d]@, path)
    } else {
        Seq::empty()
    };
    if is_last_to_know(diffs, path, d) {
        assert(all.contains_key(path));
        let ranges = content_ranges(commit.content)[path];
        lemma_contribution_of_commit(all[path], ranges, commit, is_fix);
        let h = all[path];
        if places.len() > 0 {
            assert forall|j: int| 0 <= j < places.len() implies is_range_of(
                (#[trigger] h.line_changes[j]).start_line,
                h.line_changes[j].end_line,
                diffs[d]@[places[j].0].hunks@[places[j].1],
            ) by {
                assert(is_change(h.line_changes[j], ranges[j], commit, is_fix));
                assert(ranges[j] == diff_ranges(diffs[d]@)[path][j]);
            }
        } else {
            assert(is_change(
                h.line_changes[0],
                seq![super::commits::whole_file()][0],
                commit,
                is_fix,
            ));
        }
    }
    places
}

proof fn lemma_contribution_of_commit(
    h: FileHistory,
    ranges: Seq<ChangedRange>,
    commit: CommitRecord,
    is_fix: bool,
)
    requires
        is_contribution(h, ranges, commit, is_fix),
    ensures
        is_one_commit(h, commit, is_fix),
{
    let lines = if ranges.len() == 0 {
        seq![super::commits::whole_file()]
    } else {
        ranges
    };
    assert forall|i: int| 0 <= i < h.line_changes.len() implies is_of_commit(
        #[trigger] h.line_changes[i],
        commit,
        is_fix,
    ) by {
        assert(is_change(h.line_changes[i], lines[i], commit, is_fix));
    }
}

/// Whether a commit without parents has a file.
pub open spec fn holds_file(entries: Seq<(String, String)>, path: Seq<char>) -> bool {
    exists|k: int|
        0 <= k < entries.len() && path_under((#[trigger] entries[k]).0@, entries[k].1@) == path
}

proof fn lemma_whole_files(entries: Seq<(String, String)>, path: Seq<char>)
    ensures
        whole_files(entries).contains_key(path) <==> holds_file(entries, path),
        holds_file(entries, path) ==> whole_files(entries)[path] == seq![
            super::commits::whole_file(),
        ],
    decreases entries.len(),
{
    if entries.len() > 0 {
        let n = entries.len() - 1;
        let rest = entries.drop_last();
        lemma_whole_files(rest, path);
        if holds_file(rest, path) {
            let k = choose|k: int|
                0 <= k < rest.len() && path_under((#[trigger] rest[k]).0@, rest[k].1@) == path;
            assert(entries[k] == rest[k]);
        }
        if holds_file(entries, path) {
            let k = choose|k: int|
                0 <= k < entries.len() && path_under((#[trigger] entries[k]).0@, entries[k].1@)
                    == path;
            if k < n {
                assert(entries[k] == rest[k]);
            }
        }
        if path_under(entries[n].0@, entries[n].1@) == path {
            assert(holds_file(entries, path));
        }
    }
}

/// A commit without parents changes every file that it has as a whole, and no other.
pub proof fn lemma_first_commit_records_whole_files(
    all: Map<Seq<char>, FileHistory>,
    commit: CommitRecord,
    is_fix: bool,
    entries: Seq<(String, String)>,
    path: Seq<char>,
)
    requires
        are_contributions(all, commit, is_fix),
        commit.content matches CommitContent::Files(list) && list@ == entries,
    ensures
        all.contains_key(path) <==> holds_file(entries, path),
        holds_file(entries, path) ==> {
            let h = all[path];
            &&& is_one_commit(h, commit, is_fix)
            &&& h.line_changes.len() == 1
            &&& h.line_changes[0].start_line == 1
            &&& h.line_changes[0].end_line == 1_000_000_000
        },
{
    lemma_whole_files(entries, path);
    assert(all.dom().contains(path) <==> content_ranges(commit.content).dom().contains(path));
    if holds_file(entries, path) {
        assert(all.contains_key(path));
        let ranges = content_ranges(commit.content)[path];
        lemma_contribution_of_commit(all[path], ranges, commit, is_fix);
        assert(is_change(all[path].line_changes[0], ranges[0], commit, is_fix));
    }
}

/// Whether a file of a diff was renamed from one name to another.
pub open spec fn renames_file(file: DiffFile, from: Seq<char>, to: Seq<char>) -> bool {
    &&& file.renamed
    &&& file.old_name matches FileName::Text(name) && name@ == from
    &&& file.new_name matches FileName::Text(name) && name@ == to
}

/// Whether a diff renames a file.
pub open spec fn any_renames(files: Seq<DiffFile>, from: Seq<char>, to: Seq<char>) -> bool {
    exists|k: int| 0 <= k < files.len() && #[trigger] renames_file(files[k], from, to)
}

proof fn lemma_diff_renames(files: Seq<DiffFile>, from: Seq<char>, to: Seq<char>)
    ensures
        diff_renames(files).contains((from, to)) <==> any_renames(files, from, to),
    decreases files.len(),
{
    if files.len() > 0 {
        let n = files.len() - 1;
        let rest = files.drop_last();
        lemma_diff_renames(rest, from, to);
        let a = diff_renames(rest);
        let b = diff_renames(files);
        if any_renames(rest, from, to) {
            let k = choose|k: int| 0 <= k < rest.len() && #[trigger] renames_file(rest[k], from, to);
            assert(renames_file(files[k], from, to));
            let i = choose|i: int| 0 <= i < a.len() && a[i] == (from, to);
            assert(b[i] == (from, to));
        }
        if renames_file(files[n], from, to) {
            assert(b[b.len() - 1] == (from, to));
        }
        if any_renames(files, from, to) {
            let k = choose|k: int|
                0 <= k < files.len() && #[trigger] renames_file(files[k], from, to);
            if k < n {
                assert(renames_file(rest[k], from, to));
            }
        }
        if b.contains((from, to)) {
            let i = choose|i: int| 0 <= i < b.len() && b[i] == (from, to);
            if i < a.len() {
                assert(a[i] == (from, to));
            } else {
                assert(renames_file(files[n], from, to));
            }
        }
    }
}

/// Whether any diff of a commit renames a file.
pub open spec fn commit_renames(outcome: CommitOutcome, from: Seq<char>, to: Seq<char>) -> bool {
    outcome.record matches Ok(commit) && (commit.content matches CommitContent::Diffs(diffs)
        && exists|d: int|
        0 <= d < diffs@.len() && any_renames((#[trigger] diffs@[d])@, from, to))
}

proof fn lemma_all_renames(diffs: Seq<Vec<DiffFile>>, from: Seq<char>, to: Seq<char>)
    ensures
        all_renames(diffs).contains((from, to)) <==> exists|d: int|
            0 <= d < diffs.len() && any_renames((#[trigger] diffs[d])@, from, to),
    decreases diffs.len(),
{
    if diffs.len() > 0 {
        let n = diffs.len() - 1;
        let rest = diffs.drop_last();
        lemma_all_renames(rest, from, to);
        lemma_diff_renames(diffs[n]@, from, to);
        let a = all_renames(rest);
        let b = diff_renames(diffs[n]@);
        let all = all_renames(diffs);
        assert(all =~= a + b);
        if all.contains((from, to)) {
            let i = choose|i: int| 0 <= i < all.len() && all[i] == (from, to);
            if i < a.len() {
                assert(a[i] == (from, to));
                let d = choose|d: int|
                    0 <= d < rest.len() && any_renames((#[trigger] rest[d])@, from, to);
                assert(diffs[d] == rest[d]);
            } else {
                assert(b[i - a.len()] == (from, to));
                assert(any_renames(diffs[n]@, from, to));
            }
        }
        if exists|d: int| 0 <= d < diffs.len() && any_renames((#[trigger] diffs[d])@, from, to) {
            let d = choose|d: int|
                0 <= d < diffs.len() && any_renames((#[trigger] diffs[d])@, from, to);
            if d < n {
                assert(rest[d] == diffs[d]);
                let i = choose|i: int| 0 <= i < a.len() && a[i] == (from, to);
                assert(all[i] == (from, to));
            } else {
                let i = choose|i: int| 0 <= i < b.len() && b[i] == (from, to);
                assert(all[a.len() + i] == (from, to));
            }
        }
    }
}

/// Every renaming of a commit that could be read is known, and no other.
pub proof fn lemma_every_renaming_is_known(
    commits: Seq<CommitOutcome>,
    from: Seq<char>,
    to: Seq<char>,
)
    ensures
        read_renames(commits).contains((from, to)) <==> exists|k: int|
            0 <= k < commits.len() && #[trigger] commit_renames(commits[k], from, to),
    decreases commits.len(),
{
    if commits.len() > 0 {
        let n = commits.len() - 1;
        let rest = commits.drop_last();
        lemma_every_renaming_is_known(rest, from, to);
        let a = read_renames(rest);
        let all = read_renames(commits);
        let b = match commits[n].record {
            Ok(commit) => content_renames(commit.content),
            Err(_) => Seq::empty(),
        };
        if let Ok(commit) = commits[n].record {
            if let CommitContent::Diffs(diffs) = commit.content {
                lemma_all_renames(diffs@, from, to);
            }
        }
        assert(b.contains((from, to)) <==> commit_renames(commits[n], from, to));
        assert(all =~= a + b);
        if all.contains((from, to)) {
            let i = choose|i: int| 0 <= i < all.len() && all[i] == (from, to);
            if i < a.len() {
                assert(a[i] == (from, to));
                let k = choose|k: int|
                    0 <= k < rest.len() && #[trigger] commit_renames(rest[k], from, to);
                assert(commit_renames(commits[k], from, to));
            } else {
                assert(b[i - a.len()] == (from, to));
                assert(commit_renames(commits[n], from, to));
            }
        }
        if exists|k: int| 0 <= k < commits.len() && #[trigger] commit_renames(commits[k], from, to) {
            let k = choose|k: int|
                0 <= k < commits.len() && #[trigger] commit_renames(commits[k], from, to);
            if k < n {
                assert(commit_renames(rest[k], from, to));
                let i = choose|i: int| 0 <= i < a.len() && a[i] == (from, to);
                assert(all[i] == (from, to));
            } else {
                let i = choose|i: int| 0 <= i < b.len() && b[i] == (from, to);
                assert(all[a.len() + i] == (from, to));
            }
        }
    }
}

} // verus!

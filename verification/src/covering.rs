//! What a coverage report says of each file, and what is told of it, record by record.

use crate::coverage::{
    branch_record, branches_in, has_coverage, lcov_of, lcov_read, lcov_step, line_record, taken_in,
    BranchCoverageData, FileCoverage, LcovState,
};
use crate::metrics::{FunctionMetrics, ProjectCoverage};
use crate::path::coverage_path;
use crate::placing::final_risk;
use crate::score::{Ratio, Score};
use crate::stats::{count_exposed, has_weighed_gap, is_mean, is_project_coverage, known_coverage};
use crate::text::{begins_with, first_index, lemma_first_index, lines_of, split_on, u32_value};
use vstd::prelude::*;

verus! {

/// Whether a line opens a file.
pub open spec fn opens(line: Seq<char>) -> bool {
    begins_with(line, "SF:"@)
}

/// Whether a line opens or closes a file.
pub open spec fn marks(line: Seq<char>) -> bool {
    opens(line) || line == "end_of_record"@
}

/// The file that a line opens.
pub open spec fn opened(line: Seq<char>, repo_path: Seq<char>) -> Seq<char> {
    coverage_path(line.skip(3), repo_path)
}

/// Whether a line opens the file that is still open at a place.
pub open spec fn is_opener(lines: Seq<Seq<char>>, o: int, n: int) -> bool {
    &&& 0 <= o < n
    &&& opens(lines[o])
    &&& forall|k: int| o < k < n ==> !marks(#[trigger] lines[k])
}

/// Whether a file is open at a place.
pub open spec fn is_open_at(lines: Seq<Seq<char>>, n: int) -> bool {
    exists|o: int| #[trigger] is_opener(lines, o, n)
}

/// The lines before a place that belong to no file yet.
pub open spec fn strays(lines: Seq<Seq<char>>, n: int) -> Set<int> {
    Set::new(
        |k: int|
            0 <= k < n && !marks(lines[k]) && !is_open_at(lines, k) && forall|j: int|
                k < j < n ==> !opens(#[trigger] lines[j]),
    )
}

/// The lines before a place that belong to the file that a line opens: those behind it,
/// up to the next that opens or closes a file, and those before it that belong to none.
pub open spec fn section(lines: Seq<Seq<char>>, s: int, n: int) -> Set<int> {
    Set::new(
        |k: int|
            0 <= k < n && !marks(lines[k]) && (strays(lines, s).contains(k) || s < k && forall|
                j: int,
            |
                s < j < k ==> !marks(#[trigger] lines[j])),
    )
}

/// The line and the hits that a line tells.
pub open spec fn hit_told(line: Seq<char>) -> Option<(u32, u32)> {
    if begins_with(line, "DA:"@) {
        line_record(line.skip(3))
    } else {
        None
    }
}

/// The branch that a line tells.
pub open spec fn branch_told(line: Seq<char>) -> Option<BranchCoverageData> {
    if begins_with(line, "BRDA:"@) {
        branch_record(line.skip(5))
    } else {
        None
    }
}

/// Whether one of some lines tells how often a line of the source was run.
pub open spec fn tells_hits(lines: Seq<Seq<char>>, ks: Set<int>, k: int, at: u32, hits: u32) -> bool {
    ks.contains(k) && hit_told(lines[k]) == Some((at, hits))
}

/// Whether it is the last of them to do so.
pub open spec fn tells_hits_last(
    lines: Seq<Seq<char>>,
    ks: Set<int>,
    k: int,
    at: u32,
    hits: u32,
) -> bool {
    &&& tells_hits(lines, ks, k, at, hits)
    &&& forall|j: int, other: u32| k < j ==> !#[trigger] tells_hits(lines, ks, j, at, other)
}

/// Those of some lines that tell a branch.
pub open spec fn branch_lines(lines: Seq<Seq<char>>, ks: Set<int>, b: BranchCoverageData) -> Set<
    int,
> {
    Set::new(|k: int| ks.contains(k) && branch_told(lines[k]) == Some(b))
}

/// The places at which a branch is listed.
pub open spec fn branch_places(branches: Seq<BranchCoverageData>, b: BranchCoverageData) -> Set<
    int,
> {
    Set::new(|i: int| 0 <= i < branches.len() && branches[i] == b)
}

/// Whether a coverage is what some lines tell: each line with the hits that are told of
/// it last, and each branch as often as it is told.
pub open spec fn is_told_by(file: FileCoverage, lines: Seq<Seq<char>>, ks: Set<int>) -> bool {
    &&& forall|at: u32| #[trigger]
        file.lines.contains_key(at) <==> exists|k: int, hits: u32| #[trigger]
            tells_hits(lines, ks, k, at, hits)
    &&& forall|k: int, at: u32, hits: u32| #[trigger]
        tells_hits_last(lines, ks, k, at, hits) ==> file.lines[at] == hits
    &&& forall|b: BranchCoverageData| #[trigger]
        branch_lines(lines, ks, b).finite() && branch_places(file.branches, b).finite()
            && branch_places(file.branches, b).len() == branch_lines(lines, ks, b).len()
}

/// Whether a line opens a file that is done before a place.
pub open spec fn is_done(lines: Seq<Seq<char>>, s: int, n: int) -> bool {
    &&& 0 <= s < n
    &&& opens(lines[s])
    &&& exists|k: int| s < k < n && marks(#[trigger] lines[k])
}

/// Whether it is the last to open that file, of those that are done.
spec fn is_last_done(lines: Seq<Seq<char>>, repo_path: Seq<char>, s: int, n: int) -> bool {
    &&& is_done(lines, s, n)
    &&& forall|r: int| #[trigger]
        is_done(lines, r, n) && opened(lines[r], repo_path) == opened(lines[s], repo_path) ==> r
            <= s
}

/// What holds of what has been read before a place.
spec fn is_read(state: LcovState, lines: Seq<Seq<char>>, repo_path: Seq<char>, n: int) -> bool {
    &&& match state.file {
        Some(path) => exists|o: int| #[trigger]
            is_opener(lines, o, n) && path == opened(lines[o], repo_path) && is_told_by(
                state.data,
                lines,
                section(lines, o, n),
            ),
        None => !is_open_at(lines, n) && is_told_by(state.data, lines, strays(lines, n)),
    }
    &&& is_kept(state.done, lines, repo_path, n)
}

spec fn is_kept(
    done: Map<Seq<char>, FileCoverage>,
    lines: Seq<Seq<char>>,
    repo_path: Seq<char>,
    n: int,
) -> bool {
    &&& forall|path: Seq<char>| #[trigger]
        done.contains_key(path) <==> exists|s: int| #[trigger]
            is_done(lines, s, n) && opened(lines[s], repo_path) == path
    &&& forall|s: int| #[trigger]
        is_last_done(lines, repo_path, s, n) ==> is_told_by(
            done[opened(lines[s], repo_path)],
            lines,
            section(lines, s, n),
        )
}

proof fn lemma_nothing_told(lines: Seq<Seq<char>>)
    ensures
        is_told_by(FileCoverage::empty(), lines, Set::<int>::empty()),
{
    let none = Set::<int>::empty();
    assert forall|b: BranchCoverageData| #[trigger]
        branch_lines(lines, none, b).finite() && branch_places(
            FileCoverage::empty().branches,
            b,
        ).finite() && branch_places(FileCoverage::empty().branches, b).len() == branch_lines(
            lines,
            none,
            b,
        ).len() by {
        assert(branch_lines(lines, none, b) =~= none);
        assert(branch_places(FileCoverage::empty().branches, b) =~= none);
    }
}

/// The data after one more line that marks nothing.
spec fn with_line(data: FileCoverage, line: Seq<char>) -> FileCoverage {
    if begins_with(line, "DA:"@) {
        match line_record(line.skip(3)) {
            Some((at, hits)) => FileCoverage { lines: data.lines.insert(at, hits), ..data },
            None => data,
        }
    } else if begins_with(line, "BRDA:"@) {
        match branch_record(line.skip(5)) {
            Some(branch) => FileCoverage { branches: data.branches.push(branch), ..data },
            None => data,
        }
    } else {
        data
    }
}

proof fn lemma_words_apart(line: Seq<char>)
    ensures
        begins_with(line, "SF:"@) ==> !begins_with(line, "DA:"@) && !begins_with(line, "BRDA:"@)
            && line != "end_of_record"@,
        begins_with(line, "DA:"@) ==> !begins_with(line, "BRDA:"@) && line != "end_of_record"@,
        begins_with(line, "BRDA:"@) ==> line != "end_of_record"@,
{
    reveal_strlit("SF:");
    reveal_strlit("DA:");
    reveal_strlit("BRDA:");
    reveal_strlit("end_of_record");
    assert("end_of_record"@[0] == 'e');
    if begins_with(line, "SF:"@) {
        assert(line.subrange(0, 3)[0] == 'S');
    }
    if begins_with(line, "DA:"@) {
        assert(line.subrange(0, 3)[0] == 'D');
    }
    if begins_with(line, "BRDA:"@) {
        assert(line.subrange(0, 5)[0] == 'B');
    }
}

proof fn lemma_told_more(data: FileCoverage, lines: Seq<Seq<char>>, ks: Set<int>, n: int)
    requires
        is_told_by(data, lines, ks),
        forall|k: int| #[trigger] ks.contains(k) ==> k < n,
    ensures
        is_told_by(with_line(data, lines[n]), lines, ks.insert(n)),
{
    let line = lines[n];
    let more = ks.insert(n);
    let after = with_line(data, line);
    lemma_words_apart(line);
    assert forall|at: u32| #[trigger] after.lines.contains_key(at) <==> exists|k: int, hits: u32|
        #[trigger] tells_hits(lines, more, k, at, hits) by {
        if after.lines.contains_key(at) {
            if data.lines.contains_key(at) {
                let (k, hits) = choose|k: int, hits: u32| #[trigger]
                    tells_hits(lines, ks, k, at, hits);
                assert(tells_hits(lines, more, k, at, hits));
            } else {
                assert(tells_hits(lines, more, n, at, (hit_told(line)->0).1));
            }
        }
        if exists|k: int, hits: u32| #[trigger] tells_hits(lines, more, k, at, hits) {
            let (k, hits) = choose|k: int, hits: u32| #[trigger]
                tells_hits(lines, more, k, at, hits);
            if k != n {
                assert(tells_hits(lines, ks, k, at, hits));
                assert(data.lines.contains_key(at));
            }
        }
    }
    assert forall|k: int, at: u32, hits: u32| #[trigger]
        tells_hits_last(lines, more, k, at, hits) implies after.lines[at] == hits by {
        if k != n {
            assert(tells_hits(lines, ks, k, at, hits));
            assert forall|j: int, other: u32| k < j implies !#[trigger] tells_hits(
                lines,
                ks,
                j,
                at,
                other,
            ) by {
                if tells_hits(lines, ks, j, at, other) {
                    assert(tells_hits(lines, more, j, at, other));
                }
            }
            assert(tells_hits_last(lines, ks, k, at, hits));
            assert(data.lines.contains_key(at));
            if hit_told(line) is Some && (hit_told(line)->0).0 == at {
                assert(tells_hits(lines, more, n, at, (hit_told(line)->0).1));
                assert(k < n);
            }
        }
    }
    assert forall|b: BranchCoverageData| #[trigger]
        branch_lines(lines, more, b).finite() && branch_places(after.branches, b).finite()
            && branch_places(after.branches, b).len() == branch_lines(lines, more, b).len() by {
        assert(branch_lines(lines, ks, b).finite());
        if branch_told(line) == Some(b) {
            assert(branch_lines(lines, more, b) =~= branch_lines(lines, ks, b).insert(n));
            assert(!ks.contains(n));
            assert(branch_places(after.branches, b) =~= branch_places(data.branches, b).insert(
                data.branches.len() as int,
            ));
        } else {
            assert(branch_lines(lines, more, b) =~= branch_lines(lines, ks, b));
            assert(branch_places(after.branches, b) =~= branch_places(data.branches, b));
        }
    }
}

/// Where a file is open only what its opener opens is.
proof fn lemma_one_opener(lines: Seq<Seq<char>>, a: int, b: int, n: int)
    requires
        is_opener(lines, a, n),
        is_opener(lines, b, n),
    ensures
        a == b,
{
    if a < b {
        assert(marks(lines[b]));
    }
    if b < a {
        assert(marks(lines[a]));
    }
}

/// Nothing is stray behind the opener of a file that is open.
proof fn lemma_no_strays(lines: Seq<Seq<char>>, o: int, n: int, m: int)
    requires
        is_opener(lines, o, n),
        n <= m <= n + 1,
        m == n + 1 ==> marks(lines[n]),
    ensures
        strays(lines, m) =~= Set::<int>::empty(),
{
    assert forall|k: int| !#[trigger] strays(lines, m).contains(k) by {
        if strays(lines, m).contains(k) {
            if k < o {
                assert(opens(lines[o]));
            } else if k == o {
                assert(marks(lines[k]));
            } else if k < n {
                assert(is_opener(lines, o, k));
            }
        }
    }
}

/// A section that is done stays as it is.
proof fn lemma_section_done(lines: Seq<Seq<char>>, s: int, n: int)
    requires
        is_done(lines, s, n) || is_opener(lines, s, n) && marks(lines[n]),
    ensures
        section(lines, s, n + 1) =~= section(lines, s, n),
{
    let more = section(lines, s, n + 1);
    assert forall|k: int| #[trigger] more.contains(k) <==> section(lines, s, n).contains(k) by {
        if more.contains(k) && k == n {
            if is_done(lines, s, n) {
                let j = choose|j: int| s < j < n && marks(#[trigger] lines[j]);
                assert(!strays(lines, s).contains(k));
            }
        }
    }
}

proof fn lemma_done_grows(lines: Seq<Seq<char>>, s: int, n: int)
    requires
        n < lines.len(),
    ensures
        is_done(lines, s, n + 1) <==> is_done(lines, s, n) || is_opener(lines, s, n) && marks(
            lines[n],
        ),
{
    if is_done(lines, s, n + 1) && !is_done(lines, s, n) {
        let k = choose|k: int| s < k < n + 1 && marks(#[trigger] lines[k]);
        assert(k == n);
        assert(is_opener(lines, s, n));
    }
    if is_done(lines, s, n) {
        let k = choose|k: int| s < k < n && marks(#[trigger] lines[k]);
        assert(s < k < n + 1);
    }
}

/// What is done before a line that marks nothing, or while no file is open, is what is
/// done behind it.
proof fn lemma_kept(
    done: Map<Seq<char>, FileCoverage>,
    lines: Seq<Seq<char>>,
    repo_path: Seq<char>,
    n: int,
)
    requires
        0 <= n < lines.len(),
        is_kept(done, lines, repo_path, n),
        !is_open_at(lines, n) || !marks(lines[n]),
    ensures
        is_kept(done, lines, repo_path, n + 1),
{
    assert forall|s: int| #[trigger] is_done(lines, s, n + 1) <==> is_done(lines, s, n) by {
        lemma_done_grows(lines, s, n);
    }
    assert forall|path: Seq<char>| #[trigger] done.contains_key(path) <==> exists|s: int|
        #[trigger] is_done(lines, s, n + 1) && opened(lines[s], repo_path) == path by {
        if done.contains_key(path) {
            let s = choose|s: int| #[trigger]
                is_done(lines, s, n) && opened(lines[s], repo_path) == path;
            assert(is_done(lines, s, n + 1));
        }
        if exists|s: int| #[trigger]
            is_done(lines, s, n + 1) && opened(lines[s], repo_path) == path {
            let s = choose|s: int| #[trigger]
                is_done(lines, s, n + 1) && opened(lines[s], repo_path) == path;
            assert(is_done(lines, s, n));
        }
    }
    assert forall|s: int| #[trigger] is_last_done(lines, repo_path, s, n + 1) implies is_told_by(
        done[opened(lines[s], repo_path)],
        lines,
        section(lines, s, n + 1),
    ) by {
        assert(is_done(lines, s, n));
        assert forall|r: int| #[trigger]
            is_done(lines, r, n) && opened(lines[r], repo_path) == opened(
                lines[s],
                repo_path,
            ) implies r <= s by {
            assert(is_done(lines, r, n + 1));
        }
        assert(is_last_done(lines, repo_path, s, n));
        lemma_section_done(lines, s, n);
    }
}

/// The file that is open is done behind a line that marks.
proof fn lemma_kept_more(
    done: Map<Seq<char>, FileCoverage>,
    data: FileCoverage,
    lines: Seq<Seq<char>>,
    repo_path: Seq<char>,
    o: int,
    n: int,
)
    requires
        0 <= n < lines.len(),
        is_kept(done, lines, repo_path, n),
        is_opener(lines, o, n),
        marks(lines[n]),
        is_told_by(data, lines, section(lines, o, n)),
    ensures
        is_kept(done.insert(opened(lines[o], repo_path), data), lines, repo_path, n + 1),
{
    let path0 = opened(lines[o], repo_path);
    let after = done.insert(path0, data);
    assert forall|s: int| #[trigger] is_done(lines, s, n + 1) <==> is_done(lines, s, n) || s
        == o by {
        lemma_done_grows(lines, s, n);
        if is_opener(lines, s, n) {
            lemma_one_opener(lines, s, o, n);
        }
    }
    assert(is_done(lines, o, n + 1));
    assert forall|path: Seq<char>| #[trigger] after.contains_key(path) <==> exists|s: int|
        #[trigger] is_done(lines, s, n + 1) && opened(lines[s], repo_path) == path by {
        if after.contains_key(path) && path != path0 {
            let s = choose|s: int| #[trigger]
                is_done(lines, s, n) && opened(lines[s], repo_path) == path;
            assert(is_done(lines, s, n + 1));
        }
        if exists|s: int| #[trigger]
            is_done(lines, s, n + 1) && opened(lines[s], repo_path) == path {
            let s = choose|s: int| #[trigger]
                is_done(lines, s, n + 1) && opened(lines[s], repo_path) == path;
            if s != o {
                assert(is_done(lines, s, n));
            }
        }
    }
    assert forall|s: int| #[trigger] is_last_done(lines, repo_path, s, n + 1) implies is_told_by(
        after[opened(lines[s], repo_path)],
        lines,
        section(lines, s, n + 1),
    ) by {
        assert(is_done(lines, s, n + 1));
        if s == o {
            lemma_section_done(lines, o, n);
        } else {
            assert(is_done(lines, s, n));
            let k = choose|k: int| s < k < n && marks(#[trigger] lines[k]);
            if o < s {
                assert(marks(lines[s]));
            }
            if opened(lines[s], repo_path) == path0 {
                assert(o <= s);
            }
            assert forall|r: int| #[trigger]
                is_done(lines, r, n) && opened(lines[r], repo_path) == opened(
                    lines[s],
                    repo_path,
                ) implies r <= s by {
                assert(is_done(lines, r, n + 1));
            }
            assert(is_last_done(lines, repo_path, s, n));
            lemma_section_done(lines, s, n);
        }
    }
}

proof fn lemma_read_step(
    state: LcovState,
    lines: Seq<Seq<char>>,
    repo_path: Seq<char>,
    n: int,
)
    requires
        0 <= n < lines.len(),
        is_read(state, lines, repo_path, n),
    ensures
        is_read(lcov_step(state, lines[n], repo_path), lines, repo_path, n + 1),
{
    let line = lines[n];
    let after = lcov_step(state, line, repo_path);
    lemma_words_apart(line);
    lemma_nothing_told(lines);
    if state.file is Some {
        let o = choose|o: int| #[trigger]
            is_opener(lines, o, n) && state.file->0 == opened(lines[o], repo_path) && is_told_by(
                state.data,
                lines,
                section(lines, o, n),
            );
        if marks(line) {
            lemma_kept_more(state.done, state.data, lines, repo_path, o, n);
            lemma_no_strays(lines, o, n, n);
            lemma_no_strays(lines, o, n, n + 1);
            if opens(line) {
                assert(is_opener(lines, n, n + 1));
                let mine = section(lines, n, n + 1);
                assert forall|k: int| !#[trigger] mine.contains(k) by {
                    assert(!strays(lines, n).contains(k));
                }
                assert(mine =~= Set::<int>::empty());
            } else {
                assert(!is_open_at(lines, n + 1)) by {
                    if is_open_at(lines, n + 1) {
                        let p = choose|p: int| #[trigger] is_opener(lines, p, n + 1);
                        if p < n {
                            assert(marks(lines[n]));
                        }
                    }
                }
            }
        } else {
            lemma_kept(state.done, lines, repo_path, n);
            lemma_told_more(state.data, lines, section(lines, o, n), n);
            assert(section(lines, o, n + 1) =~= section(lines, o, n).insert(n));
            assert(is_opener(lines, o, n + 1));
        }
    } else {
        lemma_kept(state.done, lines, repo_path, n);
        if opens(line) {
            assert(is_opener(lines, n, n + 1));
            assert(section(lines, n, n + 1) =~= strays(lines, n));
        } else {
            assert(!is_open_at(lines, n + 1)) by {
                if is_open_at(lines, n + 1) {
                    let p = choose|p: int| #[trigger] is_opener(lines, p, n + 1);
                    assert(p < n);
                    assert(is_opener(lines, p, n));
                }
            }
            if marks(line) {
                assert(strays(lines, n + 1) =~= strays(lines, n));
            } else {
                lemma_told_more(state.data, lines, strays(lines, n), n);
                assert(strays(lines, n + 1) =~= strays(lines, n).insert(n));
            }
        }
    }
}

proof fn lemma_read(lines: Seq<Seq<char>>, repo_path: Seq<char>, n: int)
    requires
        0 <= n <= lines.len(),
    ensures
        is_read(lcov_read(lines.take(n), repo_path), lines, repo_path, n),
    decreases n,
{
    if n == 0 {
        lemma_nothing_told(lines);
        assert(strays(lines, 0) =~= Set::<int>::empty());
    } else {
        lemma_read(lines, repo_path, n - 1);
        assert(lines.take(n).drop_last() =~= lines.take(n - 1));
        assert(lines.take(n).last() == lines[n - 1]);
        lemma_read_step(lcov_read(lines.take(n - 1), repo_path), lines, repo_path, n - 1);
    }
}

/// A coverage report says something of a file exactly if a line opens it. What it says
/// is what the lines tell that belong to the last such opening.
pub proof fn lemma_coverage_is_that_of_the_last_section(
    content: Seq<char>,
    repo_path: Seq<char>,
    s: int,
)
    requires
        0 <= s < lines_of(content).len(),
        opens(lines_of(content)[s]),
        forall|r: int|
            s < r < lines_of(content).len() && opens(#[trigger] lines_of(content)[r]) ==> opened(
                lines_of(content)[r],
                repo_path,
            ) != opened(lines_of(content)[s], repo_path),
    ensures
        ({
            let lines = lines_of(content);
            let path = opened(lines[s], repo_path);
            &&& lcov_of(content, repo_path).contains_key(path)
            &&& is_told_by(
                lcov_of(content, repo_path)[path],
                lines,
                section(lines, s, lines.len() as int),
            )
        }),
{
    let lines = lines_of(content);
    let n = lines.len() as int;
    lemma_read(lines, repo_path, n);
    assert(lines.take(n) =~= lines);
    let state = lcov_read(lines, repo_path);
    let path = opened(lines[s], repo_path);
    if is_opener(lines, s, n) {
        assert(is_open_at(lines, n));
        let o = choose|o: int| #[trigger]
            is_opener(lines, o, n) && state.file->0 == opened(lines[o], repo_path) && is_told_by(
                state.data,
                lines,
                section(lines, o, n),
            );
        lemma_one_opener(lines, s, o, n);
    } else {
        let k = choose|k: int| s < k < n && marks(#[trigger] lines[k]);
        assert(is_done(lines, s, n));
        assert forall|r: int| #[trigger]
            is_done(lines, r, n) && opened(lines[r], repo_path) == path implies r <= s by {
            if r > s {
                assert(opens(lines[r]));
            }
        }
        assert(is_last_done(lines, repo_path, s, n));
        assert(state.done.contains_key(path));
        if state.file is Some {
            let o = choose|o: int| #[trigger]
                is_opener(lines, o, n) && state.file->0 == opened(lines[o], repo_path)
                    && is_told_by(state.data, lines, section(lines, o, n));
            if o < s {
                assert(marks(lines[s]));
            } else if s < o {
                assert(opens(lines[o]));
            }
            assert(state.file->0 != path);
        }
    }
}

/// A coverage report says nothing of a file that no line opens.
pub proof fn lemma_no_other_file_is_covered(
    content: Seq<char>,
    repo_path: Seq<char>,
    path: Seq<char>,
)
    requires
        lcov_of(content, repo_path).contains_key(path),
    ensures
        exists|s: int|
            0 <= s < lines_of(content).len() && opens(#[trigger] lines_of(content)[s]) && opened(
                lines_of(content)[s],
                repo_path,
            ) == path,
{
    let lines = lines_of(content);
    let n = lines.len() as int;
    lemma_read(lines, repo_path, n);
    assert(lines.take(n) =~= lines);
    let state = lcov_read(lines, repo_path);
    if state.done.contains_key(path) {
        let s = choose|s: int| #[trigger]
            is_done(lines, s, n) && opened(lines[s], repo_path) == path;
        assert(opens(lines[s]));
    } else {
        let o = choose|o: int| #[trigger]
            is_opener(lines, o, n) && state.file->0 == opened(lines[o], repo_path) && is_told_by(
                state.data,
                lines,
                section(lines, o, n),
            );
        assert(opens(lines[o]));
    }
}

/// A piece without the separator comes off at the first one.
proof fn lemma_split_off(a: Seq<char>, rest: Seq<char>, sep: char)
    requires
        !a.contains(sep),
    ensures
        split_on(a + seq![sep] + rest, sep) == seq![a] + split_on(rest, sep),
        split_on(a, sep) == seq![a],
{
    let s = a + seq![sep] + rest;
    lemma_first_index(s, sep);
    lemma_first_index(a, sep);
    let n = first_index(s, sep);
    let m = a.len() as int;
    assert(s[m] == sep);
    if n < m {
        assert(a[n] == sep);
    }
    if m < n {
        assert(s[m] != sep);
    }
    assert(s.take(n) =~= a);
    assert(s.skip(n + 1) =~= rest);
    let k = first_index(a, sep);
    if k < a.len() {
        assert(a.contains(a[k]));
    }
}

/// A line of hits is the number of the line and how often it was run, with a comma in
/// between; whatever follows another comma does not matter.
pub proof fn lemma_hits_are_read(at: Seq<char>, hits: Seq<char>, rest: Seq<char>)
    requires
        !at.contains(','),
        !hits.contains(','),
        u32_value(at) is Some,
        u32_value(hits) is Some,
    ensures
        hit_told("DA:"@ + (at + seq![','] + hits)) == Some(
            (u32_value(at)->0, u32_value(hits)->0),
        ),
        hit_told("DA:"@ + (at + seq![','] + (hits + seq![','] + rest))) == Some(
            (u32_value(at)->0, u32_value(hits)->0),
        ),
{
    reveal_strlit("DA:");
    let short = at + seq![','] + hits;
    let tail = hits + seq![','] + rest;
    let long = at + seq![','] + tail;
    lemma_split_off(at, hits, ',');
    lemma_split_off(at, tail, ',');
    lemma_split_off(hits, rest, ',');
    lemma_split_off(hits, hits, ',');
    let x = "DA:"@ + short;
    let y = "DA:"@ + long;
    assert(x.subrange(0, 3) =~= "DA:"@);
    assert(y.subrange(0, 3) =~= "DA:"@);
    assert(x.skip(3) =~= short);
    assert(y.skip(3) =~= long);
    let p = split_on(short, ',');
    let q = split_on(long, ',');
    assert(p[0] == at && p[1] == hits);
    assert(q[0] == at && q[1] == hits);
}

/// A branch was taken unless a dash says that it was not, in the fourth place.
pub proof fn lemma_branches_are_read(
    at: Seq<char>,
    block: Seq<char>,
    branch: Seq<char>,
    taken: Seq<char>,
)
    requires
        !at.contains(','),
        !block.contains(','),
        !branch.contains(','),
        !taken.contains(','),
        u32_value(at) is Some,
    ensures
        branch_told(
            "BRDA:"@ + (at + seq![','] + (block + seq![','] + (branch + seq![','] + taken))),
        ) == Some(BranchCoverageData { line: u32_value(at)->0, taken: taken != "-"@ }),
{
    reveal_strlit("BRDA:");
    reveal_strlit("-");
    assert("-"@ =~= seq!['-']);
    let third = branch + seq![','] + taken;
    let second = block + seq![','] + third;
    let all = at + seq![','] + second;
    lemma_split_off(at, second, ',');
    lemma_split_off(block, third, ',');
    lemma_split_off(branch, taken, ',');
    lemma_split_off(taken, taken, ',');
    let x = "BRDA:"@ + all;
    assert(x.subrange(0, 5) =~= "BRDA:"@);
    assert(x.skip(5) =~= all);
    let p = split_on(all, ',');
    assert(p =~= seq![at, block, branch, taken]);
}

/// The branches on the lines from one to another, first and last included.
pub open spec fn branches_on(branches: Seq<BranchCoverageData>, from: u32, to: u32) -> Set<int> {
    Set::new(|i: int| 0 <= i < branches.len() && from <= branches[i].line <= to)
}

/// Those of them that were taken.
pub open spec fn taken_on(branches: Seq<BranchCoverageData>, from: u32, to: u32) -> Set<int> {
    Set::new(
        |i: int| 0 <= i < branches.len() && from <= branches[i].line <= to && branches[i].taken,
    )
}

proof fn lemma_branches_counted(branches: Seq<BranchCoverageData>, from: u32, to: u32)
    ensures
        branches_on(branches, from, to).finite(),
        branches_on(branches, from, to).len() == branches_in(branches, from, to),
        taken_on(branches, from, to).finite(),
        taken_on(branches, from, to).len() == taken_in(branches, from, to),
    decreases branches.len(),
{
    if branches.len() == 0 {
        assert(branches_on(branches, from, to) =~= Set::<int>::empty());
        assert(taken_on(branches, from, to) =~= Set::<int>::empty());
    } else {
        let had = branches.drop_last();
        let n = had.len() as int;
        let b = branches.last();
        lemma_branches_counted(had, from, to);
        if from <= b.line <= to {
            assert(branches_on(branches, from, to) =~= branches_on(had, from, to).insert(n));
        } else {
            assert(branches_on(branches, from, to) =~= branches_on(had, from, to));
        }
        if from <= b.line <= to && b.taken {
            assert(taken_on(branches, from, to) =~= taken_on(had, from, to).insert(n));
        } else {
            assert(taken_on(branches, from, to) =~= taken_on(had, from, to));
        }
    }
}

/// A function in a file that a coverage report speaks of is told with how many of its
/// lines the report lists, the first and the last included, and how many of those were
/// run; likewise with its branches, if it has any. Of other files nothing is told.
pub proof fn lemma_covered_lines_are_counted<G: Fn(Ratio) -> Score>(
    after: FunctionMetrics,
    before: FunctionMetrics,
    files: Map<Seq<char>, FileCoverage>,
    gap: G,
)
    requires
        has_coverage(after, before, files, gap),
    ensures
        after == (FunctionMetrics { coverage: after.coverage, ..before }),
        !files.contains_key(before.file@) ==> after.coverage == before.coverage,
        files.contains_key(before.file@) ==> {
            let lines = files[before.file@].lines;
            let branches = files[before.file@].branches;
            let m = after.coverage->0;
            &&& after.coverage is Some
            &&& m.available
            &&& m.line_coverage.denominator == Set::new(
                |l: u32| lines.contains_key(l) && before.line <= l <= before.end_line,
            ).len()
            &&& m.line_coverage.numerator == Set::new(
                |l: u32|
                    lines.contains_key(l) && before.line <= l <= before.end_line && lines[l] > 0,
            ).len()
            &&& m.branch_coverage is Some <==> exists|i: int|
                0 <= i < branches.len() && before.line <= (#[trigger] branches[i]).line
                    <= before.end_line
            &&& m.branch_coverage is Some ==> m.branch_coverage->0.denominator == branches_on(
                branches,
                before.line,
                before.end_line,
            ).len() && m.branch_coverage->0.numerator == taken_on(
                branches,
                before.line,
                before.end_line,
            ).len()
            &&& call_ensures(gap, (m.line_coverage,), m.risk_coverage_gap)
        },
{
    if files.contains_key(before.file@) {
        let file = files[before.file@];
        let branches = file.branches;
        lemma_branches_counted(branches, before.line, before.end_line);
        assert(crate::coverage::listed_lines(file.lines, before.line, before.end_line) =~= Set::new(
            |l: u32| file.lines.contains_key(l) && before.line <= l <= before.end_line,
        ));
        assert(crate::coverage::run_lines(file.lines, before.line, before.end_line) =~= Set::new(
            |l: u32|
                file.lines.contains_key(l) && before.line <= l <= before.end_line && file.lines[l]
                    > 0,
        ));
        let on = branches_on(branches, before.line, before.end_line);
        if exists|i: int|
            0 <= i < branches.len() && before.line <= (#[trigger] branches[i]).line
                <= before.end_line {
            let i = choose|i: int|
                0 <= i < branches.len() && before.line <= (#[trigger] branches[i]).line
                    <= before.end_line;
            assert(on.contains(i));
            if on.len() == 0 {
                assert(on =~= Set::<int>::empty());
            }
        } else {
            assert(on =~= Set::<int>::empty());
        }
    }
}

/// Whether a function has a risk of at least 0.8 and fewer than half of its lines were
/// run.
pub open spec fn is_risky_and_unrun(f: FunctionMetrics) -> bool {
    &&& 0x3fe9_9999_9999_999a <= final_risk(f).bits <= 0x7ff0_0000_0000_0000
    &&& f.coverage is Some
    &&& {
        let lines = f.coverage->0.line_coverage;
        lines.denominator == 0 || 2 * lines.numerator < lines.denominator
    }
}

/// Where functions have a coverage.
proof fn lemma_known(functions: Seq<FunctionMetrics>) -> (places: Seq<int>)
    ensures
        places.len() == known_coverage(functions).len(),
        forall|k: int|
            #![trigger places[k]]
            0 <= k < places.len() ==> 0 <= places[k] < functions.len()
                && functions[places[k]].coverage is Some && known_coverage(functions)[k]
                == functions[places[k]].coverage->0.line_coverage,
        forall|k: int, l: int|
            #![trigger places[k], places[l]]
            0 <= k < l < places.len() ==> places[k] < places[l],
        forall|i: int|
            0 <= i < functions.len() && (#[trigger] functions[i]).coverage is Some
                ==> places.contains(i),
    decreases functions.len(),
{
    if functions.len() == 0 {
        Seq::empty()
    } else {
        let before = functions.drop_last();
        let n = before.len() as int;
        let had = lemma_known(before);
        assert forall|i: int| 0 <= i < n implies functions[i] == before[i] by {}
        if functions.last().coverage is Some {
            let places = had.push(n);
            assert forall|i: int|
                0 <= i < functions.len() && (
                #[trigger] functions[i]).coverage is Some implies places.contains(i) by {
                if i < n {
                    assert(before[i].coverage is Some);
                    let k = choose|k: int| 0 <= k < had.len() && had[k] == i;
                    assert(places[k] == i);
                } else {
                    assert(places.last() == i);
                }
            }
            places
        } else {
            assert forall|i: int|
                0 <= i < functions.len() && (
                #[trigger] functions[i]).coverage is Some implies had.contains(i) by {
                assert(before[i].coverage is Some);
            }
            had
        }
    }
}

proof fn lemma_exposed_counted(functions: Seq<FunctionMetrics>)
    ensures
        exposed_places(functions).finite(),
        exposed_places(functions).len() == count_exposed(functions),
    decreases functions.len(),
{
    if functions.len() == 0 {
        assert(exposed_places(functions) =~= Set::<int>::empty());
    } else {
        let before = functions.drop_last();
        let n = before.len() as int;
        lemma_exposed_counted(before);
        if is_risky_and_unrun(functions.last()) {
            assert(exposed_places(functions) =~= exposed_places(before).insert(n));
        } else {
            assert(exposed_places(functions) =~= exposed_places(before));
        }
    }
}

/// The functions that are risky and for the most part not run.
pub open spec fn exposed_places(functions: Seq<FunctionMetrics>) -> Set<int> {
    Set::new(|i: int| 0 <= i < functions.len() && is_risky_and_unrun(functions[i]))
}

/// The coverage of a project is told if that of any function is known. It is the mean
/// over all functions of which it is known, and counts those that are risky and for the
/// most part not run.
pub proof fn lemma_project_coverage_is_counted<M: Fn(&Vec<Ratio>) -> Score>(
    told: Option<ProjectCoverage>,
    functions: Seq<FunctionMetrics>,
    mean: M,
) -> (places: Seq<int>)
    requires
        is_project_coverage(told, functions, mean),
    ensures
        told is Some <==> exists|i: int|
            0 <= i < functions.len() && (#[trigger] functions[i]).coverage is Some,
        told is Some ==> told->0.available && told->0.high_risk_uncovered == exposed_places(
            functions,
        ).len(),
        forall|k: int, l: int|
            #![trigger places[k], places[l]]
            0 <= k < l < places.len() ==> places[k] < places[l],
        forall|i: int|
            0 <= i < functions.len() ==> (#[trigger] places.contains(i)
                <==> functions[i].coverage is Some),
        forall|k: int| 0 <= k < places.len() ==> 0 <= #[trigger] places[k] < functions.len(),
        told is Some ==> exists|list: Vec<Ratio>|
            list@ == places.map_values(|i: int| functions[i].coverage->0.line_coverage)
                && #[trigger] call_ensures(mean, (&list,), told->0.project_line_coverage),
{
    let places = lemma_known(functions);
    lemma_exposed_counted(functions);
    let ratios = places.map_values(|i: int| functions[i].coverage->0.line_coverage);
    assert(known_coverage(functions) =~= ratios);
    assert forall|i: int| 0 <= i < functions.len() implies (#[trigger] places.contains(i)
        <==> functions[i].coverage is Some) by {
        if places.contains(i) {
            let k = choose|k: int| 0 <= k < places.len() && places[k] == i;
            assert(functions[places[k]].coverage is Some);
        }
    }
    if told is Some {
        assert(functions[places[0]].coverage is Some);
        assert(is_mean(mean, known_coverage(functions), told->0.project_line_coverage));
    } else if exists|i: int|
        0 <= i < functions.len() && (#[trigger] functions[i]).coverage is Some {
        let i = choose|i: int|
            0 <= i < functions.len() && (#[trigger] functions[i]).coverage is Some;
        assert(places.contains(i));
    }
    places
}

/// What is left uncovered of a function is weighed by its risk; nothing else of it is
/// told anew, and nothing at all of a function without coverage.
pub proof fn lemma_gap_is_weighed_by_risk<W: Fn(Score, Ratio) -> Score>(
    before: FunctionMetrics,
    after: FunctionMetrics,
    weigh: W,
)
    requires
        has_weighed_gap(before, after, weigh),
    ensures
        before.coverage is None ==> after == before,
        before.coverage is Some ==> after.coverage is Some && call_ensures(
            weigh,
            (final_risk(before), before.coverage->0.line_coverage),
            after.coverage->0.risk_coverage_gap,
        ) && after.coverage->0.line_coverage == before.coverage->0.line_coverage
            && after.coverage->0.branch_coverage == before.coverage->0.branch_coverage && after == (
        FunctionMetrics { coverage: after.coverage, ..before }),
{
}

} // verus!

//! Test coverage, as `lcov` reports it.

use crate::metrics::{CoverageMetrics, FunctionMetrics};
use crate::path::{coverage_path, normalize_coverage_path};
use crate::score::{Ratio, Score};
use crate::table::TextMap;
use crate::text::{
    begins_with, chars_of, lines, lines_of, parse_u32, slice_views, split, split_on, string_of,
    strip_prefix, u32_value,
};
use vstd::prelude::*;

verus! {

/// How often each line was run.
pub struct LineHits {
    entries: Vec<(u32, u32)>,
}

/// Whether every line is listed once, in order.
pub open spec fn lines_ascend(entries: Seq<(u32, u32)>) -> bool {
    forall|i: int, j: int|
        #![trigger entries[i], entries[j]]
        0 <= i < j < entries.len() ==> entries[i].0 < entries[j].0
}

/// The lines of some entries, with their hits.
pub open spec fn hit_map(entries: Seq<(u32, u32)>) -> Map<u32, u32>
    decreases entries.len(),
{
    if entries.len() == 0 {
        Map::empty()
    } else {
        hit_map(entries.drop_last()).insert(entries.last().0, entries.last().1)
    }
}

impl View for LineHits {
    type V = Map<u32, u32>;

    closed spec fn view(&self) -> Map<u32, u32> {
        hit_map(self.entries@)
    }
}

/// What the entries say of a line.
proof fn lemma_hit_map(entries: Seq<(u32, u32)>)
    requires
        lines_ascend(entries),
    ensures
        forall|i: int|
            0 <= i < entries.len() ==> hit_map(entries).contains_key((#[trigger] entries[i]).0)
                && hit_map(entries)[entries[i].0] == entries[i].1,
        forall|line: u32| #[trigger]
            hit_map(entries).contains_key(line) ==> exists|i: int|
                0 <= i < entries.len() && (#[trigger] entries[i]).0 == line,
    decreases entries.len(),
{
    if entries.len() > 0 {
        let rest = entries.drop_last();
        lemma_hit_map(rest);
        assert forall|i: int| 0 <= i < entries.len() implies hit_map(entries).contains_key(
            (#[trigger] entries[i]).0,
        ) && hit_map(entries)[entries[i].0] == entries[i].1 by {
            if i < rest.len() {
                assert(rest[i] == entries[i]);
                assert(entries[i].0 < entries[entries.len() - 1].0);
            }
        }
        assert forall|line: u32| #[trigger] hit_map(entries).contains_key(line) implies exists|
            i: int,
        |
            0 <= i < entries.len() && (#[trigger] entries[i]).0 == line by {
            if line == entries.last().0 {
                assert(entries[entries.len() - 1].0 == line);
            } else {
                assert(hit_map(rest).contains_key(line));
                let i = choose|i: int| 0 <= i < rest.len() && (#[trigger] rest[i]).0 == line;
                assert(entries[i].0 == line);
            }
        }
    }
}

/// Lists with the same lines and hits make the same map.
proof fn lemma_same_map(entries: Seq<(u32, u32)>, map: Map<u32, u32>)
    requires
        lines_ascend(entries),
        forall|i: int|
            0 <= i < entries.len() ==> map.contains_key((#[trigger] entries[i]).0)
                && map[entries[i].0] == entries[i].1,
        forall|line: u32| #[trigger]
            map.contains_key(line) ==> exists|i: int|
                0 <= i < entries.len() && (#[trigger] entries[i]).0 == line,
    ensures
        hit_map(entries) == map,
{
    lemma_hit_map(entries);
    let made = hit_map(entries);
    assert forall|line: u32| made.contains_key(line) <==> map.contains_key(line) by {
        if map.contains_key(line) {
            let i = choose|i: int| 0 <= i < entries.len() && (#[trigger] entries[i]).0 == line;
            assert(made.contains_key(entries[i].0));
        }
        if made.contains_key(line) {
            let i = choose|i: int| 0 <= i < entries.len() && (#[trigger] entries[i]).0 == line;
            assert(map.contains_key(entries[i].0));
        }
    }
    assert forall|line: u32| made.contains_key(line) implies made[line] == map[line] by {
        let i = choose|i: int| 0 <= i < entries.len() && (#[trigger] entries[i]).0 == line;
        assert(made[entries[i].0] == entries[i].1);
    }
    assert(made =~= map);
}

/// The lines of a range that are listed.
pub open spec fn listed_lines(hits: Map<u32, u32>, start: u32, end: u32) -> Set<u32> {
    Set::new(|line: u32| hits.contains_key(line) && start <= line <= end)
}

/// The lines of a range that were run.
pub open spec fn run_lines(hits: Map<u32, u32>, start: u32, end: u32) -> Set<u32> {
    Set::new(|line: u32| hits.contains_key(line) && start <= line <= end && hits[line] > 0)
}

impl LineHits {
    #[verifier::type_invariant]
    spec fn well_formed(self) -> bool {
        lines_ascend(self.entries@)
    }

    /// No lines.
    pub fn new() -> (hits: LineHits)
        ensures
            hits@ == Map::<u32, u32>::empty(),
    {
        LineHits { entries: Vec::new() }
    }

    /// Sets how often a line was run.
    pub fn insert(&mut self, line: u32, count: u32)
        ensures
            final(self)@ == old(self)@.insert(line, count),
    {
        proof {
            use_type_invariant(&*self);
            lemma_hit_map(self.entries@);
        }
        let ghost before = self.entries@;
        let ghost map = self@;
        let mut entries: Vec<(u32, u32)> = Vec::new();
        std::mem::swap(&mut entries, &mut self.entries);
        let mut at: usize = entries.len();
        while at > 0 && entries[at - 1].0 >= line
            invariant
                entries@ == before,
                lines_ascend(before),
                at <= before.len(),
                forall|k: int| at <= k < before.len() ==> (#[trigger] before[k]).0 >= line,
            decreases at,
        {
            at = at - 1;
        }
        if at < entries.len() && entries[at].0 == line {
            entries.set(at, (line, count));
        } else {
            entries.insert(at, (line, count));
        }
        proof {
            let after = entries@;
            let wanted = map.insert(line, count);
            let replaced = at < before.len() && before[at as int].0 == line;
            assert(lines_ascend(after)) by {
                assert forall|i: int, j: int|
                    #![trigger after[i], after[j]]
                    0 <= i < j < after.len() implies after[i].0 < after[j].0 by {
                    if replaced {
                        assert(before[i].0 < before[j].0);
                    } else {
                        if j < at {
                            assert(before[i].0 < before[j].0);
                        } else if j == at {
                            assert(before[i].0 <= before[at - 1].0);
                        } else if i == at {
                            assert(before[j - 1].0 >= line);
                            if before[j - 1].0 == line {
                                assert(before[at as int].0 <= before[j - 1].0);
                            }
                        } else {
                            let x = if i < at {
                                i
                            } else {
                                i - 1
                            };
                            assert(before[x].0 < before[j - 1].0);
                        }
                    }
                }
            }
            assert(after[at as int] == (line, count));
            assert forall|i: int| 0 <= i < after.len() implies wanted.contains_key(
                (#[trigger] after[i]).0,
            ) && wanted[after[i].0] == after[i].1 by {
                if i < at {
                    assert(after[i] == before[i]);
                    assert(after[i].0 < after[at as int].0);
                } else if i > at {
                    assert(after[at as int].0 < after[i].0);
                    if replaced {
                        assert(after[i] == before[i]);
                    } else {
                        assert(after[i] == before[i - 1]);
                    }
                }
            }
            assert forall|l: u32| #[trigger] wanted.contains_key(l) implies exists|i: int|
                0 <= i < after.len() && (#[trigger] after[i]).0 == l by {
                if l == line {
                    assert(after[at as int].0 == l);
                } else {
                    assert(map.contains_key(l));
                    let k = choose|k: int| 0 <= k < before.len() && (#[trigger] before[k]).0 == l;
                    if replaced || k < at {
                        assert(after[k].0 == l);
                    } else {
                        assert(after[k + 1].0 == l);
                    }
                }
            }
            lemma_same_map(after, wanted);
        }
        self.entries = entries;
    }

    /// How many lines of a range were run, and how many are listed.
    pub fn count(&self, start: u32, end: u32) -> (r: (usize, usize))
        ensures
            r.0 == run_lines(self@, start, end).len(),
            r.1 == listed_lines(self@, start, end).len(),
            r.0 <= r.1,
    {
        proof {
            use_type_invariant(self);
            lemma_hit_map(self.entries@);
        }
        let ghost entries = self.entries@;
        let mut run: usize = 0;
        let mut listed: usize = 0;
        let ghost mut run_set: Set<u32> = Set::empty();
        let ghost mut listed_set: Set<u32> = Set::empty();
        for i in 0..self.entries.len()
            invariant
                entries == self.entries@,
                lines_ascend(entries),
                run <= listed <= i,
                run_set.finite(),
                listed_set.finite(),
                run == run_set.len(),
                listed == listed_set.len(),
                forall|line: u32| #[trigger]
                    listed_set.contains(line) <==> exists|k: int|
                        0 <= k < i && (#[trigger] entries[k]).0 == line && start <= line <= end,
                forall|line: u32| #[trigger]
                    run_set.contains(line) <==> exists|k: int|
                        0 <= k < i && (#[trigger] entries[k]).0 == line && start <= line <= end
                            && entries[k].1 > 0,
        {
            let (line, hits) = self.entries[i];
            let ghost old_listed = listed_set;
            let ghost old_run = run_set;
            proof {
                assert(entries[i as int] == (line, hits));
                if listed_set.contains(line) {
                    let k = choose|k: int|
                        0 <= k < i && (#[trigger] entries[k]).0 == line && start <= line <= end;
                    assert(entries[k].0 < entries[i as int].0);
                }
                if run_set.contains(line) {
                    let k = choose|k: int|
                        0 <= k < i && (#[trigger] entries[k]).0 == line && start <= line <= end
                            && entries[k].1 > 0;
                    assert(entries[k].0 < entries[i as int].0);
                }
            }
            if start <= line && line <= end {
                listed = listed + 1;
                proof {
                    listed_set = listed_set.insert(line);
                }
                if hits > 0 {
                    run = run + 1;
                    proof {
                        run_set = run_set.insert(line);
                    }
                }
            }
            proof {
                assert forall|l: u32| #[trigger] listed_set.contains(l) <==> exists|k: int|
                    0 <= k < i + 1 && (#[trigger] entries[k]).0 == l && start <= l <= end by {
                    if old_listed.contains(l) {
                        let k = choose|k: int|
                            0 <= k < i && (#[trigger] entries[k]).0 == l && start <= l <= end;
                        assert(0 <= k < i + 1 && entries[k].0 == l);
                    }
                    if exists|k: int|
                        0 <= k < i + 1 && (#[trigger] entries[k]).0 == l && start <= l <= end {
                        let k = choose|k: int|
                            0 <= k < i + 1 && (#[trigger] entries[k]).0 == l && start <= l <= end;
                        if k < i {
                            assert(old_listed.contains(l));
                        }
                    }
                }
                assert forall|l: u32| #[trigger] run_set.contains(l) <==> exists|k: int|
                    0 <= k < i + 1 && (#[trigger] entries[k]).0 == l && start <= l <= end
                        && entries[k].1 > 0 by {
                    if old_run.contains(l) {
                        let k = choose|k: int|
                            0 <= k < i && (#[trigger] entries[k]).0 == l && start <= l <= end
                                && entries[k].1 > 0;
                        assert(0 <= k < i + 1 && entries[k].0 == l);
                    }
                    if exists|k: int|
                        0 <= k < i + 1 && (#[trigger] entries[k]).0 == l && start <= l <= end
                            && entries[k].1 > 0 {
                        let k = choose|k: int|
                            0 <= k < i + 1 && (#[trigger] entries[k]).0 == l && start <= l <= end
                                && entries[k].1 > 0;
                        if k < i {
                            assert(old_run.contains(l));
                        }
                    }
                }
            }
        }
        proof {
            assert forall|l: u32| listed_set.contains(l) <==> listed_lines(
                self@,
                start,
                end,
            ).contains(l) by {
                if self@.contains_key(l) {
                    let k = choose|k: int| 0 <= k < entries.len() && (#[trigger] entries[k]).0 == l;
                    assert(entries[k].0 == l);
                }
            }
            assert(listed_set =~= listed_lines(self@, start, end));
            assert forall|l: u32| run_set.contains(l) <==> run_lines(self@, start, end).contains(
                l,
            ) by {
                if self@.contains_key(l) {
                    let k = choose|k: int| 0 <= k < entries.len() && (#[trigger] entries[k]).0 == l;
                    assert(self@[entries[k].0] == entries[k].1);
                }
                if run_set.contains(l) {
                    let k = choose|k: int|
                        0 <= k < entries.len() && (#[trigger] entries[k]).0 == l && start <= l
                            <= end && entries[k].1 > 0;
                    assert(self@[entries[k].0] == entries[k].1);
                }
            }
            assert(run_set =~= run_lines(self@, start, end));
        }
        (run, listed)
    }
}

/// Whether a branch was taken.
#[derive(Clone, Copy, Debug, PartialEq, Eq, Structural)]
pub struct BranchCoverageData {
    pub line: u32,
    pub taken: bool,
}

/// The coverage of a file.
pub struct FileCoverageData {
    pub lines: LineHits,
    pub branches: Vec<BranchCoverageData>,
}

/// What the coverage of a file says.
#[verifier::ext_equal]
pub struct FileCoverage {
    pub lines: Map<u32, u32>,
    pub branches: Seq<BranchCoverageData>,
}

impl View for FileCoverageData {
    type V = FileCoverage;

    open spec fn view(&self) -> FileCoverage {
        FileCoverage { lines: self.lines@, branches: self.branches@ }
    }
}

impl FileCoverage {
    /// The coverage of a file of which nothing is known.
    pub open spec fn empty() -> FileCoverage {
        FileCoverage { lines: Map::empty(), branches: Seq::empty() }
    }
}

impl FileCoverageData {
    /// The coverage of a file of which nothing is known.
    pub fn empty() -> (data: FileCoverageData)
        ensures
            data@ == FileCoverage::empty(),
    {
        FileCoverageData { lines: LineHits::new(), branches: Vec::new() }
    }
}

/// The coverage of all files.
pub struct CoverageIndex {
    pub files: TextMap<FileCoverageData>,
}

/// What the coverage of files says.
pub open spec fn coverages(files: Map<Seq<char>, FileCoverageData>) -> Map<
    Seq<char>,
    FileCoverage,
> {
    files.map_values(|d: FileCoverageData| d@)
}

/// How far reading a report has come: the files that are done, and the one being
/// read.
#[verifier::ext_equal]
pub struct LcovState {
    pub done: Map<Seq<char>, FileCoverage>,
    pub file: Option<Seq<char>>,
    pub data: FileCoverage,
}

/// The line and the hits of a line record.
pub open spec fn line_record(data: Seq<char>) -> Option<(u32, u32)> {
    let parts = split_on(data, ',');
    if parts.len() >= 2 && u32_value(parts[0]) is Some && u32_value(parts[1]) is Some {
        Some((u32_value(parts[0])->0, u32_value(parts[1])->0))
    } else {
        None
    }
}

/// What a branch record says: its line, and whether the branch was taken, which a
/// dash in the fourth place denies.
pub open spec fn branch_record(data: Seq<char>) -> Option<BranchCoverageData> {
    let parts = split_on(data, ',');
    if parts.len() >= 4 && u32_value(parts[0]) is Some {
        Some(BranchCoverageData { line: u32_value(parts[0])->0, taken: parts[3] != seq!['-'] })
    } else {
        None
    }
}

/// The state once the file being read is done.
pub open spec fn lcov_finished(s: LcovState) -> LcovState {
    match s.file {
        Some(file) => LcovState {
            done: s.done.insert(file, s.data),
            file: None,
            data: FileCoverage::empty(),
        },
        None => s,
    }
}

/// The state after one more line of a report.
pub open spec fn lcov_step(s: LcovState, line: Seq<char>, repo_path: Seq<char>) -> LcovState {
    if begins_with(line, "SF:"@) {
        LcovState { file: Some(coverage_path(line.skip(3), repo_path)), ..lcov_finished(s) }
    } else if begins_with(line, "DA:"@) {
        match line_record(line.skip(3)) {
            Some((at, hits)) => LcovState {
                data: FileCoverage { lines: s.data.lines.insert(at, hits), ..s.data },
                ..s
            },
            None => s,
        }
    } else if begins_with(line, "BRDA:"@) {
        match branch_record(line.skip(5)) {
            Some(branch) => LcovState {
                data: FileCoverage { branches: s.data.branches.push(branch), ..s.data },
                ..s
            },
            None => s,
        }
    } else if line == "end_of_record"@ {
        lcov_finished(s)
    } else {
        s
    }
}

/// The state after the lines of a report.
pub open spec fn lcov_read(lines: Seq<Seq<char>>, repo_path: Seq<char>) -> LcovState
    decreases lines.len(),
{
    if lines.len() == 0 {
        LcovState { done: Map::empty(), file: None, data: FileCoverage::empty() }
    } else {
        lcov_step(lcov_read(lines.drop_last(), repo_path), lines.last(), repo_path)
    }
}

/// The coverage that a report tells.
pub open spec fn lcov_of(content: Seq<char>, repo_path: Seq<char>) -> Map<Seq<char>, FileCoverage> {
    lcov_finished(lcov_read(lines_of(content), repo_path)).done
}

/// Reads a line record.
pub fn parse_line_coverage(data: &[char]) -> (r: Option<(u32, u32)>)
    ensures
        r == line_record(data@),
{
    let parts = split(data, ',');
    let ghost all = slice_views(parts@);
    if parts.len() < 2 {
        return None;
    }
    assert(all[0] == parts@[0]@ && all[1] == parts@[1]@);
    match (parse_u32(parts[0]), parse_u32(parts[1])) {
        (Some(line), Some(hits)) => Some((line, hits)),
        _ => None,
    }
}

/// Reads a branch record.
pub fn parse_branch_coverage(data: &[char]) -> (r: Option<BranchCoverageData>)
    ensures
        r == branch_record(data@),
{
    let parts = split(data, ',');
    let ghost all = slice_views(parts@);
    if parts.len() < 4 {
        return None;
    }
    assert(all[0] == parts@[0]@ && all[3] == parts@[3]@);
    let fourth = parts[3];
    let dash = fourth.len() == 1 && fourth[0] == '-';
    if dash {
        assert(fourth@ == seq!['-']);
    }
    assert(fourth@ == seq!['-'] ==> fourth@[0] == '-');
    match parse_u32(parts[0]) {
        Some(line) => Some(BranchCoverageData { line, taken: !dash }),
        None => None,
    }
}

/// How far reading a report has come.
struct LcovReader {
    index: TextMap<FileCoverageData>,
    file: Option<String>,
    data: FileCoverageData,
}

impl LcovReader {
    spec fn state(self) -> LcovState {
        LcovState {
            done: coverages(self.index@),
            file: match self.file {
                Some(f) => Some(f@),
                None => None,
            },
            data: self.data@,
        }
    }

    /// Files the record that is being read.
    fn finish_coverage_record(&mut self)
        ensures
            final(self).state() == lcov_finished(old(self).state()),
    {
        let ghost before = self.index@;
        let mut file: Option<String> = None;
        std::mem::swap(&mut file, &mut self.file);
        if let Some(name) = file {
            let mut data = FileCoverageData::empty();
            std::mem::swap(&mut data, &mut self.data);
            let ghost filed = data@;
            let ghost key = name@;
            let _replaced = self.index.insert(name, data);
            assert(coverages(self.index@) =~= coverages(before).insert(key, filed));
        }
    }

    /// Files the record that is being read and starts another.
    fn start_coverage_record(&mut self, path: &[char], repo_path: &str)
        ensures
            final(self).state() == (LcovState {
                file: Some(coverage_path(path@, repo_path@)),
                ..lcov_finished(old(self).state())
            }),
    {
        self.finish_coverage_record();
        let text = string_of(path);
        self.file = Some(normalize_coverage_path(text.as_str(), repo_path));
    }

    /// Takes in one line of a report.
    fn read_line(&mut self, line: &[char], repo_path: &str)
        ensures
            final(self).state() == lcov_step(old(self).state(), line@, repo_path@),
    {
        proof {
            reveal_strlit("SF:");
            reveal_strlit("DA:");
            reveal_strlit("BRDA:");
        }
        if let Some(path) = strip_prefix(line, "SF:") {
            self.start_coverage_record(path, repo_path);
            return;
        }
        if let Some(data) = strip_prefix(line, "DA:") {
            if let Some((at, hits)) = parse_line_coverage(data) {
                self.data.lines.insert(at, hits);
            }
            return;
        }
        if let Some(data) = strip_prefix(line, "BRDA:") {
            if let Some(branch) = parse_branch_coverage(data) {
                self.data.branches.push(branch);
            }
            return;
        }
        if string_of(line).as_str().eq("end_of_record") {
            self.finish_coverage_record();
        }
    }
}

/// Reads a coverage report; paths in the repository become relative to it.
pub fn parse_lcov(content: &str, repo_path: &str) -> (index: CoverageIndex)
    ensures
        coverages(index.files@) == lcov_of(content@, repo_path@),
{
    let mut reader = LcovReader {
        index: TextMap::new(),
        file: None,
        data: FileCoverageData::empty(),
    };
    assert(coverages(reader.index@) =~= Map::<Seq<char>, FileCoverage>::empty());
    let chars = chars_of(content);
    let list = lines(chars.as_slice());
    let ghost all = slice_views(list@);
    for i in 0..list.len()
        invariant
            all == slice_views(list@),
            reader.state() == lcov_read(all.take(i as int), repo_path@),
    {
        assert(all.take(i + 1).drop_last() == all.take(i as int));
        assert(all.take(i + 1).last() == list@[i as int]@);
        reader.read_line(list[i], repo_path);
    }
    assert(all.take(all.len() as int) == all);
    reader.finish_coverage_record();
    CoverageIndex { files: reader.index }
}

/// How many branches a range of lines has.
pub open spec fn branches_in(branches: Seq<BranchCoverageData>, start: u32, end: u32) -> nat
    decreases branches.len(),
{
    if branches.len() == 0 {
        0
    } else {
        branches_in(branches.drop_last(), start, end) + if start <= branches.last().line <= end {
            1nat
        } else {
            0nat
        }
    }
}

/// How many of them were taken.
pub open spec fn taken_in(branches: Seq<BranchCoverageData>, start: u32, end: u32) -> nat
    decreases branches.len(),
{
    if branches.len() == 0 {
        0
    } else {
        taken_in(branches.drop_last(), start, end) + if start <= branches.last().line <= end
            && branches.last().taken {
            1nat
        } else {
            0nat
        }
    }
}

fn count_branches(branches: &Vec<BranchCoverageData>, start: u32, end: u32) -> (r: (usize, usize))
    ensures
        r.0 == taken_in(branches@, start, end),
        r.1 == branches_in(branches@, start, end),
{
    let mut taken: usize = 0;
    let mut total: usize = 0;
    for i in 0..branches.len()
        invariant
            taken <= i,
            total <= i,
            taken == taken_in(branches@.take(i as int), start, end),
            total == branches_in(branches@.take(i as int), start, end),
    {
        assert(branches@.take(i + 1).drop_last() == branches@.take(i as int));
        let branch = branches[i];
        if start <= branch.line && branch.line <= end {
            total = total + 1;
            if branch.taken {
                taken = taken + 1;
            }
        }
    }
    assert(branches@.take(branches.len() as int) == branches@);
    (taken, total)
}

/// Whether these are the coverage metrics of a range of lines. The gap is worked
/// out from the part of the lines that is covered.
pub open spec fn is_coverage<G: Fn(Ratio) -> Score>(
    m: CoverageMetrics,
    file: FileCoverage,
    start: u32,
    end: u32,
    gap: G,
) -> bool {
    &&& m.available
    &&& m.line_coverage.numerator == run_lines(file.lines, start, end).len()
    &&& m.line_coverage.denominator == listed_lines(file.lines, start, end).len()
    &&& match m.branch_coverage {
        Some(ratio) => ratio.numerator == taken_in(file.branches, start, end) && ratio.denominator
            == branches_in(file.branches, start, end) && ratio.denominator > 0,
        None => branches_in(file.branches, start, end) == 0,
    }
    &&& m.covered_by@.len() == 0
    &&& call_ensures(gap, (m.line_coverage,), m.risk_coverage_gap)
}

/// The coverage of a function.
pub fn function_coverage<G: Fn(Ratio) -> Score>(
    function: &FunctionMetrics,
    file_coverage: &FileCoverageData,
    gap: &G,
) -> (m: CoverageMetrics)
    requires
        forall|ratio: Ratio| call_requires(gap, (ratio,)),
    ensures
        is_coverage(m, file_coverage@, function.line, function.end_line, *gap),
{
    let (run, listed) = file_coverage.lines.count(function.line, function.end_line);
    let (taken, total) = count_branches(&file_coverage.branches, function.line, function.end_line);
    let line_coverage = Ratio::new(run, listed);
    CoverageMetrics {
        available: true,
        line_coverage,
        branch_coverage: if total == 0 {
            None
        } else {
            Some(Ratio::new(taken, total))
        },
        covered_by: Vec::new(),
        risk_coverage_gap: gap(line_coverage),
    }
}

/// Whether a function is told with its coverage, if there is any for its file.
pub open spec fn has_coverage<G: Fn(Ratio) -> Score>(
    after: FunctionMetrics,
    before: FunctionMetrics,
    files: Map<Seq<char>, FileCoverage>,
    gap: G,
) -> bool {
    if files.contains_key(before.file@) {
        &&& after == (FunctionMetrics { coverage: after.coverage, ..before })
        &&& after.coverage is Some
        &&& is_coverage(
            after.coverage->0,
            files[before.file@],
            before.line,
            before.end_line,
            gap,
        )
    } else {
        after == before
    }
}

/// Tells every function with its coverage.
pub fn apply_coverage<G: Fn(Ratio) -> Score>(
    functions: &mut Vec<FunctionMetrics>,
    coverage: &Option<CoverageIndex>,
    gap: &G,
)
    requires
        forall|ratio: Ratio| call_requires(gap, (ratio,)),
    ensures
        final(functions).len() == old(functions).len(),
        forall|i: int|
            0 <= i < final(functions).len() ==> match *coverage {
                Some(index) => has_coverage(
                    #[trigger] final(functions)@[i],
                    old(functions)@[i],
                    coverages(index.files@),
                    *gap,
                ),
                None => final(functions)@[i] == old(functions)@[i],
            },
{
    let index = match coverage {
        Some(index) => index,
        None => {
            return;
        },
    };
    let ghost before = functions@;
    let ghost files = coverages(index.files@);
    let n: usize = functions.len();
    for i in 0..n
        invariant
            n == functions.len() == before.len(),
            before == old(functions)@,
            files == coverages(index.files@),
            forall|ratio: Ratio| call_requires(gap, (ratio,)),
            forall|k: int| i <= k < n ==> functions@[k] == before[k],
            forall|k: int|
                0 <= k < i ==> has_coverage(#[trigger] functions@[k], before[k], files, *gap),
    {
        let ghost untouched = functions@;
        if let Some(file_coverage) = index.files.get(functions[i].file.as_str()) {
            let metrics = function_coverage(&functions[i], file_coverage, gap);
            let function = &mut functions[i];
            function.coverage = Some(metrics);
        }
        proof {
            assert(has_coverage(functions@[i as int], before[i as int], files, *gap));
            assert forall|k: int| 0 <= k < i + 1 implies has_coverage(
                #[trigger] functions@[k],
                before[k],
                files,
                *gap,
            ) by {
                if k < i {
                    assert(functions@[k] == untouched[k]);
                }
            }
        }
    }
}

/// No more lines of a range were run than are listed, so coverage is at most whole.
pub proof fn lemma_coverage_at_most_whole<G: Fn(Ratio) -> Score>(
    m: CoverageMetrics,
    file: FileCoverage,
    start: u32,
    end: u32,
    gap: G,
)
    requires
        is_coverage(m, file, start, end, gap),
        file.lines.dom().finite(),
    ensures
        m.line_coverage.numerator <= m.line_coverage.denominator,
        m.branch_coverage matches Some(ratio) ==> ratio.numerator <= ratio.denominator,
{
    let listed = listed_lines(file.lines, start, end);
    assert(listed.subset_of(file.lines.dom()));
    vstd::set_lib::lemma_len_subset(listed, file.lines.dom());
    vstd::set_lib::lemma_len_subset(run_lines(file.lines, start, end), listed);
    lemma_taken_at_most(file.branches, start, end);
}

proof fn lemma_taken_at_most(branches: Seq<BranchCoverageData>, start: u32, end: u32)
    ensures
        taken_in(branches, start, end) <= branches_in(branches, start, end),
    decreases branches.len(),
{
    if branches.len() > 0 {
        lemma_taken_at_most(branches.drop_last(), start, end);
    }
}

} // verus!

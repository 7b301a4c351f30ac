//! What a commit changes.

use super::churn::GitAnalyzer;
use super::history::{histories, FULL_FILE_RANGE_END_LINE};
use super::patterns::{any_matches, is_bug_fix, BugFixPatterns};
use crate::cache::{FileHistory, GitCacheEntry, LineChange};
use crate::path::{join_path, path_under};
use crate::table::{TextMap, TextSet};
use vstd::prelude::*;

verus! {

/// A range of changed lines.
#[derive(Clone, Copy, Debug, PartialEq, Eq, Structural)]
pub struct ChangedRange {
    pub start_line: u32,
    pub end_line: u32,
}

/// The range that stands for a whole file.
pub open spec fn whole_file() -> ChangedRange {
    ChangedRange { start_line: 1, end_line: FULL_FILE_RANGE_END_LINE }
}

/// A part of a file that a diff changes, as it is in the new version.
#[derive(Clone, Copy, Debug, PartialEq, Eq, Structural)]
pub struct Hunk {
    pub new_start: u32,
    pub new_lines: u32,
}

/// The lines that a part of a diff changes. One that only removes lines stands for
/// the line where they were.
pub open spec fn hunk_range(hunk: Hunk) -> ChangedRange {
    let start: int = if hunk.new_start == 0 {
        1
    } else {
        hunk.new_start as int
    };
    let count: int = if hunk.new_lines == 0 {
        1
    } else {
        hunk.new_lines as int
    };
    let behind: int = if start + count <= u32::MAX {
        start + count
    } else {
        u32::MAX as int
    };
    ChangedRange { start_line: start as u32, end_line: (behind - 1) as u32 }
}

/// The lines that a part of a diff changes.
pub fn changed_range_from_hunk(hunk: Hunk) -> (r: ChangedRange)
    ensures
        r == hunk_range(hunk),
        1 <= r.start_line,
{
    let start_line: u32 = if hunk.new_start == 0 {
        1
    } else {
        hunk.new_start
    };
    let line_count: u32 = if hunk.new_lines == 0 {
        1
    } else {
        hunk.new_lines
    };
    let behind: u32 = if line_count <= u32::MAX - start_line {
        start_line + line_count
    } else {
        u32::MAX
    };
    ChangedRange { start_line, end_line: behind - 1 }
}

/// The name of a file in a diff.
#[derive(Debug)]
pub enum FileName {
    /// The file is not there.
    Missing,
    /// The name is no text.
    Unreadable,
    Text(String),
}

impl FileName {
    /// The name, if it is a text.
    pub open spec fn text(self) -> Option<Seq<char>> {
        match self {
            FileName::Text(name) => Some(name@),
            _ => None,
        }
    }
}

/// One file of a diff.
#[derive(Debug)]
pub struct DiffFile {
    pub old_name: FileName,
    pub new_name: FileName,
    pub renamed: bool,
    pub hunks: Vec<Hunk>,
}

/// Under which name the parts of a file are filed: the new one, or the old one
/// where there is no new one.
pub open spec fn hunk_name(file: DiffFile) -> Option<Seq<char>> {
    match file.new_name {
        FileName::Missing => file.old_name.text(),
        _ => file.new_name.text(),
    }
}

/// The changed ranges of each file.
pub open spec fn range_map(files: Map<Seq<char>, Vec<ChangedRange>>) -> Map<
    Seq<char>,
    Seq<ChangedRange>,
> {
    files.map_values(|v: Vec<ChangedRange>| v@)
}

/// The ranges of a file, none where it is not known.
pub open spec fn ranges_in(all: Map<Seq<char>, Seq<ChangedRange>>, path: Seq<char>) -> Seq<
    ChangedRange,
> {
    if all.contains_key(path) {
        all[path]
    } else {
        Seq::empty()
    }
}

/// The lines that the parts of a file change.
pub open spec fn hunk_ranges(hunks: Seq<Hunk>) -> Seq<ChangedRange> {
    Seq::new(hunks.len(), |i: int| hunk_range(hunks[i]))
}

/// The changed ranges after one more file of a diff.
pub open spec fn with_file(all: Map<Seq<char>, Seq<ChangedRange>>, file: DiffFile) -> Map<
    Seq<char>,
    Seq<ChangedRange>,
> {
    let listed = match file.new_name.text() {
        Some(name) => all.insert(name, ranges_in(all, name)),
        None => all,
    };
    match hunk_name(file) {
        Some(name) => if file.hunks@.len() > 0 {
            listed.insert(name, ranges_in(listed, name) + hunk_ranges(file.hunks@))
        } else {
            listed
        },
        None => listed,
    }
}

/// The changed ranges of a diff.
pub open spec fn diff_ranges(files: Seq<DiffFile>) -> Map<Seq<char>, Seq<ChangedRange>>
    decreases files.len(),
{
    if files.len() == 0 {
        Map::empty()
    } else {
        with_file(diff_ranges(files.drop_last()), files.last())
    }
}

/// The renamings of a diff.
pub open spec fn diff_renames(files: Seq<DiffFile>) -> Seq<(Seq<char>, Seq<char>)>
    decreases files.len(),
{
    if files.len() == 0 {
        seq![]
    } else {
        let before = diff_renames(files.drop_last());
        let file = files.last();
        if file.renamed && file.old_name is Text && file.new_name is Text {
            before.push((file.old_name.text()->0, file.new_name.text()->0))
        } else {
            before
        }
    }
}

/// Pairs of texts.
pub open spec fn pairs(list: Seq<(String, String)>) -> Seq<(Seq<char>, Seq<char>)> {
    Seq::new(list.len(), |i: int| (list[i].0@, list[i].1@))
}

/// Adds ranges to those of a file.
fn add_ranges(files: &mut TextMap<Vec<ChangedRange>>, path: &str, more: Vec<ChangedRange>)
    ensures
        range_map(final(files)@) == range_map(old(files)@).insert(
            path@,
            ranges_in(range_map(old(files)@), path@) + more@,
        ),
{
    let ghost before = files@;
    let mut more = more;
    let ghost added = more@;
    match files.position(path) {
        Ok(i) => {
            let mut ranges = files.replace(i, Vec::new());
            ranges.append(&mut more);
            let _placeholder = files.replace(i, ranges);
            assert(range_map(files@) =~= range_map(before).insert(
                path@,
                ranges_in(range_map(before), path@) + added,
            ));
        },
        Err(_) => {
            let _none = files.insert(path.to_string(), more);
            assert(Seq::<ChangedRange>::empty() + added == added);
            assert(range_map(files@) =~= range_map(before).insert(
                path@,
                ranges_in(range_map(before), path@) + added,
            ));
        },
    }
}

fn convert_hunks(hunks: &Vec<Hunk>) -> (r: Vec<ChangedRange>)
    ensures
        r@ == hunk_ranges(hunks@),
{
    let mut r: Vec<ChangedRange> = Vec::new();
    for i in 0..hunks.len()
        invariant
            r@ == hunk_ranges(hunks@).take(i as int),
    {
        r.push(changed_range_from_hunk(hunks[i]));
    }
    r
}

/// The changed ranges and the renamings of one diff.
pub fn collect_diff(files: &Vec<DiffFile>) -> (r: (
    TextMap<Vec<ChangedRange>>,
    Vec<(String, String)>,
))
    ensures
        range_map(r.0@) == diff_ranges(files@),
        pairs(r.1@) == diff_renames(files@),
{
    let mut ranges: TextMap<Vec<ChangedRange>> = TextMap::new();
    let mut renames: Vec<(String, String)> = Vec::new();
    assert(range_map(ranges@) =~= Map::<Seq<char>, Seq<ChangedRange>>::empty());
    assert(pairs(renames@) =~= Seq::<(Seq<char>, Seq<char>)>::empty());
    for i in 0..files.len()
        invariant
            range_map(ranges@) == diff_ranges(files@.take(i as int)),
            pairs(renames@) == diff_renames(files@.take(i as int)),
    {
        assert(files@.take(i + 1).drop_last() == files@.take(i as int));
        let file = &files[i];
        let ghost all = range_map(ranges@);
        if file.renamed {
            if let (FileName::Text(old_name), FileName::Text(new_name)) = (
                &file.old_name,
                &file.new_name,
            ) {
                let ghost before = renames@;
                renames.push((old_name.clone(), new_name.clone()));
                assert(pairs(renames@) =~= pairs(before).push((old_name@, new_name@)));
            }
        }
        if let FileName::Text(name) = &file.new_name {
            add_ranges(&mut ranges, name.as_str(), Vec::new());
            assert(ranges_in(all, name@) + Seq::<ChangedRange>::empty() == ranges_in(all, name@));
        }
        if file.hunks.len() > 0 {
            match &file.new_name {
                FileName::Text(name) => {
                    add_ranges(&mut ranges, name.as_str(), convert_hunks(&file.hunks));
                },
                FileName::Unreadable => {},
                FileName::Missing => {
                    if let FileName::Text(name) = &file.old_name {
                        add_ranges(&mut ranges, name.as_str(), convert_hunks(&file.hunks));
                    }
                },
            }
        }
    }
    assert(files@.take(files.len() as int) == files@);
    (ranges, renames)
}

/// What a commit does to files.
pub struct ModifiedFiles {
    pub files: TextMap<Vec<ChangedRange>>,
    pub renames: Vec<(String, String)>,
}

/// What a commit is made from.
#[derive(Debug)]
pub enum CommitContent {
    /// The differences from each of its parents.
    Diffs(Vec<Vec<DiffFile>>),
    /// The files of a commit without parents: each with the directory it is in.
    Files(Vec<(String, String)>),
}

/// The changed ranges of some diffs; a later diff replaces what an earlier one
/// says of a file.
pub open spec fn all_ranges(diffs: Seq<Vec<DiffFile>>) -> Map<Seq<char>, Seq<ChangedRange>>
    decreases diffs.len(),
{
    if diffs.len() == 0 {
        Map::empty()
    } else {
        all_ranges(diffs.drop_last()).union_prefer_right(diff_ranges(diffs.last()@))
    }
}

/// The renamings of some diffs.
pub open spec fn all_renames(diffs: Seq<Vec<DiffFile>>) -> Seq<(Seq<char>, Seq<char>)>
    decreases diffs.len(),
{
    if diffs.len() == 0 {
        seq![]
    } else {
        all_renames(diffs.drop_last()) + diff_renames(diffs.last()@)
    }
}

/// Every file as a whole.
pub open spec fn whole_files(entries: Seq<(String, String)>) -> Map<Seq<char>, Seq<ChangedRange>>
    decreases entries.len(),
{
    if entries.len() == 0 {
        Map::empty()
    } else {
        whole_files(entries.drop_last()).insert(
            path_under(entries.last().0@, entries.last().1@),
            seq![whole_file()],
        )
    }
}

/// The changed ranges of a commit.
pub open spec fn content_ranges(content: CommitContent) -> Map<Seq<char>, Seq<ChangedRange>> {
    match content {
        CommitContent::Diffs(diffs) => all_ranges(diffs@),
        CommitContent::Files(entries) => whole_files(entries@),
    }
}

/// The renamings of a commit.
pub open spec fn content_renames(content: CommitContent) -> Seq<(Seq<char>, Seq<char>)> {
    match content {
        CommitContent::Diffs(diffs) => all_renames(diffs@),
        CommitContent::Files(_) => seq![],
    }
}

/// What a commit does to files.
pub fn modified_files(content: &CommitContent) -> (r: ModifiedFiles)
    ensures
        range_map(r.files@) == content_ranges(*content),
        pairs(r.renames@) == content_renames(*content),
{
    let mut files: TextMap<Vec<ChangedRange>> = TextMap::new();
    let mut renames: Vec<(String, String)> = Vec::new();
    assert(range_map(files@) =~= Map::<Seq<char>, Seq<ChangedRange>>::empty());
    assert(pairs(renames@) =~= Seq::<(Seq<char>, Seq<char>)>::empty());
    match content {
        CommitContent::Diffs(diffs) => {
            for i in 0..diffs.len()
                invariant
                    range_map(files@) == all_ranges(diffs@.take(i as int)),
                    pairs(renames@) == all_renames(diffs@.take(i as int)),
            {
                assert(diffs@.take(i + 1).drop_last() == diffs@.take(i as int));
                let (ranges, mut more) = collect_diff(&diffs[i]);
                let ghost before = files@;
                let ghost old_renames = renames@;
                let ghost added = more@;
                files.extend(ranges);
                renames.append(&mut more);
                assert(range_map(files@) =~= range_map(before).union_prefer_right(
                    range_map(ranges@),
                ));
                assert(pairs(renames@) =~= pairs(old_renames) + pairs(added));
            }
            assert(diffs@.take(diffs.len() as int) == diffs@);
        },
        CommitContent::Files(entries) => {
            for i in 0..entries.len()
                invariant
                    range_map(files@) == whole_files(entries@.take(i as int)),
            {
                assert(entries@.take(i + 1).drop_last() == entries@.take(i as int));
                let ghost before = files@;
                let path = join_path(entries[i].0.as_str(), entries[i].1.as_str());
                let mut ranges: Vec<ChangedRange> = Vec::new();
                ranges.push(
                    ChangedRange { start_line: 1, end_line: FULL_FILE_RANGE_END_LINE },
                );
                assert(ranges@ =~= seq![whole_file()]);
                let ghost key = path@;
                let _replaced = files.insert(path, ranges);
                assert(range_map(files@) =~= range_map(before).insert(key, seq![whole_file()]));
            }
            assert(entries@.take(entries.len() as int) == entries@);
        },
    }
    ModifiedFiles { files, renames }
}

/// Who a commit is by: the e-mail address, else the name, else nobody known.
pub open spec fn identity(email: Option<Seq<char>>, name: Option<Seq<char>>) -> Seq<char> {
    match email {
        Some(text) => text,
        None => match name {
            Some(text) => text,
            None => "Unknown"@,
        },
    }
}

/// The characters of an optional text.
pub open spec fn optional_text(text: Option<&str>) -> Option<Seq<char>> {
    match text {
        Some(t) => Some(t@),
        None => None,
    }
}

/// Tells who a commit is by.
pub fn author_identity(email: Option<&str>, name: Option<&str>) -> (s: String)
    ensures
        s@ == identity(optional_text(email), optional_text(name)),
{
    match email {
        Some(text) => text.to_string(),
        None => match name {
            Some(text) => text.to_string(),
            None => "Unknown".to_string(),
        },
    }
}

/// A commit: who made it, when, with which message, and what it is made from.
#[derive(Debug)]
pub struct CommitRecord {
    pub id: String,
    pub email: Option<String>,
    pub name: Option<String>,
    pub message: Option<String>,
    pub timestamp: i64,
    pub content: CommitContent,
}

/// The characters of an optional text.
pub open spec fn owned_text(text: Option<String>) -> Option<Seq<char>> {
    match text {
        Some(t) => Some(t@),
        None => None,
    }
}

impl CommitRecord {
    /// Who the commit is by.
    pub open spec fn author(self) -> Seq<char> {
        identity(owned_text(self.email), owned_text(self.name))
    }

    /// Whether the commit fixes a bug.
    pub open spec fn fixes(self, patterns: BugFixPatterns) -> bool {
        self.message is Some && any_matches(patterns.sources(), self.message->0@)
    }
}

/// Whether these are the changes of a commit to some ranges of a file; no range
/// stands for the whole file.
pub open spec fn are_changes(
    changes: Seq<LineChange>,
    ranges: Seq<ChangedRange>,
    commit: CommitRecord,
    is_fix: bool,
) -> bool {
    let lines = if ranges.len() == 0 {
        seq![whole_file()]
    } else {
        ranges
    };
    &&& changes.len() == lines.len()
    &&& forall|i: int|
        0 <= i < changes.len() ==> is_change(#[trigger] changes[i], lines[i], commit, is_fix)
}

/// Whether this is the change of a commit to a range of lines.
pub open spec fn is_change(
    change: LineChange,
    range: ChangedRange,
    commit: CommitRecord,
    is_fix: bool,
) -> bool {
    &&& change.commit@ == commit.id@
    &&& change.start_line == range.start_line
    &&& change.end_line == range.end_line
    &&& change.is_bug_fix == is_fix
    &&& change.author@ == commit.author()
    &&& change.timestamp == commit.timestamp
}

/// Whether this is what a commit adds to the history of a file.
pub open spec fn is_contribution(
    history: FileHistory,
    ranges: Seq<ChangedRange>,
    commit: CommitRecord,
    is_fix: bool,
) -> bool {
    &&& history.times_modified == 1
    &&& history.bug_fix_commits == if is_fix {
        1nat
    } else {
        0nat
    }
    &&& history.authors == Set::<Seq<char>>::empty().insert(commit.author())
    &&& are_changes(history.line_changes, ranges, commit, is_fix)
}

/// Whether these are what a commit adds to the histories of files.
pub open spec fn are_contributions(
    all: Map<Seq<char>, FileHistory>,
    commit: CommitRecord,
    is_fix: bool,
) -> bool {
    &&& all.dom() == content_ranges(commit.content).dom()
    &&& forall|path: Seq<char>| #[trigger]
        all.contains_key(path) ==> is_contribution(
            all[path],
            content_ranges(commit.content)[path],
            commit,
            is_fix,
        )
}

/// What some commits add to the histories of files.
pub struct GitBatchMetrics {
    pub files: TextMap<GitCacheEntry>,
    pub renames: Vec<(String, String)>,
    pub processed_commits: usize,
    pub partial: bool,
    pub warnings: Vec<String>,
}

fn contribution(
    ranges: &Vec<ChangedRange>,
    commit: &CommitRecord,
    author: &String,
    is_fix: bool,
) -> (entry: GitCacheEntry)
    requires
        author@ == commit.author(),
    ensures
        is_contribution(entry@, ranges@, *commit, is_fix),
{
    let mut line_changes: Vec<LineChange> = Vec::new();
    if ranges.len() == 0 {
        line_changes.push(
            LineChange {
                commit: commit.id.clone(),
                start_line: 1,
                end_line: FULL_FILE_RANGE_END_LINE,
                is_bug_fix: is_fix,
                author: author.clone(),
                timestamp: commit.timestamp,
            },
        );
    } else {
        for i in 0..ranges.len()
            invariant
                author@ == commit.author(),
                line_changes.len() == i,
                forall|k: int|
                    0 <= k < i ==> is_change(
                        #[trigger] line_changes@[k],
                        ranges@[k],
                        *commit,
                        is_fix,
                    ),
        {
            line_changes.push(
                LineChange {
                    commit: commit.id.clone(),
                    start_line: ranges[i].start_line,
                    end_line: ranges[i].end_line,
                    is_bug_fix: is_fix,
                    author: author.clone(),
                    timestamp: commit.timestamp,
                },
            );
        }
    }
    let mut authors = TextSet::new();
    let _fresh = authors.insert(author.clone());
    GitCacheEntry {
        times_modified: 1,
        bug_fix_commits: if is_fix {
            1
        } else {
            0
        },
        authors,
        line_changes,
    }
}

impl GitAnalyzer {
    /// What one commit adds to the histories of files.
    pub fn process_commit(commit: &CommitRecord, patterns: &BugFixPatterns) -> (m: GitBatchMetrics)
        ensures
            are_contributions(histories(m.files@), *commit, commit.fixes(*patterns)),
            pairs(m.renames@) == content_renames(commit.content),
            m.processed_commits == 0,
            !m.partial,
            m.warnings@.len() == 0,
    {
        let is_fix = is_bug_fix(as_text(&commit.message), patterns);
        Self::add_commit(commit, is_fix)
    }

    /// What one commit, which is a bug fix or not, adds to the histories of files.
    pub fn add_commit(commit: &CommitRecord, is_fix: bool) -> (m: GitBatchMetrics)
        ensures
            are_contributions(histories(m.files@), *commit, is_fix),
            pairs(m.renames@) == content_renames(commit.content),
            m.processed_commits == 0,
            !m.partial,
            m.warnings@.len() == 0,
    {
        let author = author_identity(as_text(&commit.email), as_text(&commit.name));
        let modified = modified_files(&commit.content);
        let ghost wanted = content_ranges(commit.content);
        let n: usize = modified.files.len();
        proof {
            TextMap::lemma_view(&modified.files);
        }
        let ghost keys = modified.files.keys();
        let mut files: TextMap<GitCacheEntry> = TextMap::new();
        for i in 0..n
            invariant
                n == keys.len(),
                keys == modified.files.keys(),
                modified.files.values().len() == n,
                wanted == range_map(modified.files@),
                wanted == content_ranges(commit.content),
                author@ == commit.author(),
                forall|j: int|
                    0 <= j < n ==> modified.files@.contains_key(#[trigger] keys[j])
                        && modified.files@[keys[j]] == modified.files.values()[j],
                forall|path: Seq<char>| #[trigger]
                    files@.contains_key(path) <==> keys.take(i as int).contains(path),
                forall|path: Seq<char>| #[trigger]
                    files@.contains_key(path) ==> is_contribution(
                        files@[path]@,
                        wanted[path],
                        *commit,
                        is_fix,
                    ),
        {
            let ghost before = files@;
            assert(modified.files@.contains_key(keys[i as int]));
            let entry = contribution(modified.files.value(i), commit, &author, is_fix);
            let _none = files.insert(modified.files.key(i).clone(), entry);
            proof {
                let a = keys.take(i as int);
                let b = keys.take(i + 1);
                assert(b == a.push(keys[i as int]));
                assert forall|path: Seq<char>| #[trigger]
                    files@.contains_key(path) <==> b.contains(path) by {
                    vstd::seq_lib::lemma_seq_contains_after_push(a, keys[i as int], path);
                }
            }
        }
        proof {
            assert(keys.take(n as int) == keys);
            let all = histories(files@);
            assert forall|path: Seq<char>| all.dom().contains(path) <==> wanted.dom().contains(
                path,
            ) by {
                assert(files@.contains_key(path) <==> keys.contains(path));
            }
            assert(all.dom() =~= wanted.dom());
            assert forall|path: Seq<char>| #[trigger] all.contains_key(path) implies is_contribution(
                all[path],
                wanted[path],
                *commit,
                is_fix,
            ) by {
                assert(files@.contains_key(path));
            }
        }
        GitBatchMetrics {
            files,
            renames: modified.renames,
            processed_commits: 0,
            partial: false,
            warnings: Vec::new(),
        }
    }
}

/// A borrowed text.
fn as_text(text: &Option<String>) -> (r: Option<&str>)
    ensures
        optional_text(r) == owned_text(*text),
        r is Some <==> text is Some,
{
    match text {
        Some(t) => Some(t.as_str()),
        None => None,
    }
}

} // verus!

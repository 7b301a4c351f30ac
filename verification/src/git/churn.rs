//! How often and by whom lines were changed.

use crate::cache::{GitCacheEntry, LineChange};
use crate::metrics::{
    copy_text, copy_texts, ChurnDetails, ChurnMetrics, ChurnWindow, ChurnWindows, FunctionMetrics,
};
use crate::score::Score;
use crate::table::{TextMap, TextSet};
use crate::text::views;
use vstd::prelude::*;

verus! {

/// How `chrono` writes an instant, given in seconds since 1970, by RFC 3339 in
/// UTC, if it can.
pub uninterp spec fn rfc3339_of(seconds: i64) -> Option<Seq<char>>;

/// `chrono::DateTime::<Utc>::from_timestamp` and `to_rfc3339`: the instant that
/// many seconds after the start of 1970, written by RFC 3339, or nothing where it
/// is too far away for `chrono`. It depends on the number alone.
#[verifier::external_body]
fn write_rfc3339(seconds: i64) -> (r: Option<String>)
    ensures
        match r {
            Some(text) => rfc3339_of(seconds) == Some(text@),
            None => rfc3339_of(seconds) is None,
        },
{
    chrono::DateTime::<chrono::Utc>::from_timestamp(seconds, 0).map(|dt| dt.to_rfc3339())
}

/// What stands for the time of a commit that cannot be written.
pub open spec fn fallback_timestamp() -> Seq<char> {
    "1970-01-01T00:00:00+00:00"@
}

/// A written time, or what stands for one that cannot be written.
pub fn timestamp_or_fallback(written: Option<String>) -> (s: String)
    ensures
        s@ == match written {
            Some(text) => text@,
            None => fallback_timestamp(),
        },
{
    match written {
        Some(text) => text,
        None => "1970-01-01T00:00:00+00:00".to_string(),
    }
}

/// The time of a commit, in seconds since 1970, as text.
pub fn commit_timestamp(seconds: i64) -> (s: String)
    ensures
        s@ == match rfc3339_of(seconds) {
            Some(text) => text,
            None => fallback_timestamp(),
        },
{
    timestamp_or_fallback(write_rfc3339(seconds))
}

/// Whether two ranges of lines have a line in common.
pub open spec fn overlap(left_start: u32, left_end: u32, right_start: u32, right_end: u32) -> bool {
    left_start <= right_end && right_start <= left_end
}

/// Tells whether two ranges of lines have a line in common.
pub fn ranges_overlap(left_start: u32, left_end: u32, right_start: u32, right_end: u32) -> (r: bool)
    ensures
        r == overlap(left_start, left_end, right_start, right_end),
{
    left_start <= right_end && right_start <= left_end
}

/// Whether a line lies in a range.
pub open spec fn lies_in(line: u32, start: u32, end: u32) -> bool {
    start <= line <= end
}

/// Ranges overlap exactly if some line lies in both, and the order of the two does
/// not matter.
pub proof fn lemma_overlap_is_common_line(a: u32, b: u32, c: u32, d: u32)
    requires
        a <= b,
        c <= d,
    ensures
        overlap(a, b, c, d) <==> exists|line: u32|
            #[trigger] lies_in(line, a, b) && lies_in(line, c, d),
        overlap(a, b, c, d) == overlap(c, d, a, b),
{
    if overlap(a, b, c, d) {
        let line = if a <= c {
            c
        } else {
            a
        };
        assert(lies_in(line, a, b) && lies_in(line, c, d));
    }
}

/// Which changes to look at: those to some lines, from some time on.
#[derive(Clone, Copy, Debug)]
pub struct Selection {
    pub start_line: u32,
    pub end_line: u32,
    pub since: i128,
}

/// Whether a change is selected.
pub open spec fn selects(s: Selection, c: LineChange) -> bool {
    overlap(s.start_line, s.end_line, c.start_line, c.end_line) && c.timestamp >= s.since
}

/// The commits of the selected changes.
pub open spec fn commits_in(changes: Seq<LineChange>, s: Selection) -> Set<Seq<char>>
    decreases changes.len(),
{
    if changes.len() == 0 {
        Set::empty()
    } else if selects(s, changes.last()) {
        commits_in(changes.drop_last(), s).insert(changes.last().commit@)
    } else {
        commits_in(changes.drop_last(), s)
    }
}

/// The commits among them that fix bugs.
pub open spec fn fixes_in(changes: Seq<LineChange>, s: Selection) -> Set<Seq<char>>
    decreases changes.len(),
{
    if changes.len() == 0 {
        Set::empty()
    } else if selects(s, changes.last()) && changes.last().is_bug_fix {
        fixes_in(changes.drop_last(), s).insert(changes.last().commit@)
    } else {
        fixes_in(changes.drop_last(), s)
    }
}

/// The authors of the selected changes.
pub open spec fn authors_in(changes: Seq<LineChange>, s: Selection) -> Set<Seq<char>>
    decreases changes.len(),
{
    if changes.len() == 0 {
        Set::empty()
    } else if selects(s, changes.last()) {
        authors_in(changes.drop_last(), s).insert(changes.last().author@)
    } else {
        authors_in(changes.drop_last(), s)
    }
}

/// When the last of the selected changes was committed.
pub open spec fn latest_in(changes: Seq<LineChange>, s: Selection) -> Option<i64>
    decreases changes.len(),
{
    if changes.len() == 0 {
        None
    } else {
        let earlier = latest_in(changes.drop_last(), s);
        if selects(s, changes.last()) && (earlier is None || earlier->0
            < changes.last().timestamp) {
            Some(changes.last().timestamp)
        } else {
            earlier
        }
    }
}

/// What the selected changes amount to.
struct ChangeCounts {
    commits: TextSet,
    fixes: TextSet,
    authors: TextSet,
    latest: Option<i64>,
}

fn count_changes(changes: &Vec<LineChange>, s: Selection) -> (r: ChangeCounts)
    ensures
        r.commits@ == commits_in(changes@, s),
        r.fixes@ == fixes_in(changes@, s),
        r.authors@ == authors_in(changes@, s),
        r.latest == latest_in(changes@, s),
{
    let mut commits = TextSet::new();
    let mut fixes = TextSet::new();
    let mut authors = TextSet::new();
    let mut latest: Option<i64> = None;
    for i in 0..changes.len()
        invariant
            commits@ == commits_in(changes@.take(i as int), s),
            fixes@ == fixes_in(changes@.take(i as int), s),
            authors@ == authors_in(changes@.take(i as int), s),
            latest == latest_in(changes@.take(i as int), s),
    {
        assert(changes@.take(i + 1).drop_last() == changes@.take(i as int));
        let change = &changes[i];
        if ranges_overlap(s.start_line, s.end_line, change.start_line, change.end_line)
            && change.timestamp as i128 >= s.since {
            commits.insert(change.commit.clone());
            if change.is_bug_fix {
                fixes.insert(change.commit.clone());
            }
            authors.insert(change.author.clone());
            match latest {
                Some(time) => {
                    if time < change.timestamp {
                        latest = Some(change.timestamp);
                    }
                },
                None => {
                    latest = Some(change.timestamp);
                },
            }
        }
    }
    assert(changes@.take(changes.len() as int) == changes@);
    ChangeCounts { commits, fixes, authors, latest }
}

/// How much some changes weigh: a bug fix counts three times.
pub open spec fn weight(modifications: nat, bug_fixes: nat) -> nat {
    modifications + 2 * bug_fixes
}

/// The selection of the changes to some lines in the days before an instant.
pub open spec fn in_days(start_line: u32, end_line: u32, reference: i64, days: int) -> Selection {
    Selection { start_line, end_line, since: (reference - days * 86400) as i128 }
}

/// The selection of all changes to some lines.
pub open spec fn ever(start_line: u32, end_line: u32) -> Selection {
    Selection { start_line, end_line, since: i128::MIN }
}

/// Whether a window tells of the selected changes, given how scores are worked out.
pub open spec fn is_window<F: Fn(u128, usize) -> Score>(
    w: ChurnWindow,
    changes: Seq<LineChange>,
    s: Selection,
    score: F,
) -> bool {
    &&& w.modifications == commits_in(changes, s).len()
    &&& if commits_in(changes, s).len() == 0 {
        w.score.bits == 0
    } else {
        call_ensures(
            score,
            (
                weight(commits_in(changes, s).len(), fixes_in(changes, s).len()) as u128,
                authors_in(changes, s).len() as usize,
            ),
            w.score,
        )
    }
}

fn window<F: Fn(u128, usize) -> Score>(changes: &Vec<LineChange>, s: Selection, score: &F) -> (w:
    ChurnWindow)
    requires
        forall|weight: u128, authors: usize| call_requires(score, (weight, authors)),
    ensures
        is_window(w, changes@, s, *score),
{
    let counts = count_changes(changes, s);
    let modifications: usize = counts.commits.len();
    let fixes: usize = counts.fixes.len();
    let authors: usize = counts.authors.len();
    if modifications == 0 {
        ChurnWindow { modifications, score: Score::zero() }
    } else {
        ChurnWindow {
            modifications,
            score: score(modifications as u128 + 2 * fixes as u128, authors),
        }
    }
}

/// Whether the windows tell of the changes to some lines before an instant.
pub open spec fn are_windows<F: Fn(u128, usize) -> Score>(
    w: ChurnWindows,
    changes: Seq<LineChange>,
    start_line: u32,
    end_line: u32,
    reference: i64,
    score: F,
) -> bool {
    &&& is_window(w.d7, changes, in_days(start_line, end_line, reference, 7), score)
    &&& is_window(w.d30, changes, in_days(start_line, end_line, reference, 30), score)
    &&& is_window(w.d90, changes, in_days(start_line, end_line, reference, 90), score)
}

fn windows<F: Fn(u128, usize) -> Score>(
    changes: &Vec<LineChange>,
    start_line: u32,
    end_line: u32,
    reference: i64,
    score: &F,
) -> (w: ChurnWindows)
    requires
        forall|weight: u128, authors: usize| call_requires(score, (weight, authors)),
    ensures
        are_windows(w, changes@, start_line, end_line, reference, *score),
{
    let now: i128 = reference as i128;
    ChurnWindows {
        d7: window(changes, Selection { start_line, end_line, since: now - 7 * 86400 }, score),
        d30: window(changes, Selection { start_line, end_line, since: now - 30 * 86400 }, score),
        d90: window(changes, Selection { start_line, end_line, since: now - 90 * 86400 }, score),
    }
}

/// Whether lines change more or less often than they used to: the rate of the last
/// 7 days against that of the last 90. More than 1.25 times as often is
/// accelerating, less than 0.75 times is cooling.
pub open spec fn velocity_of(d7: nat, d90: nat) -> Seq<char> {
    if d90 > 0 && 4 * (90 * d7) > 5 * (7 * d90) {
        "accelerating"@
    } else if d90 > 0 && 4 * (90 * d7) < 3 * (7 * d90) {
        "cooling"@
    } else {
        "stable"@
    }
}

/// Compares the rate of changes of the last 7 days with that of the last 90.
pub fn velocity(d7: usize, d90: usize) -> (s: String)
    ensures
        s@ == velocity_of(d7 as nat, d90 as nat),
{
    let recent: u128 = 4 * (90 * d7 as u128);
    let baseline: u128 = 7 * d90 as u128;
    if d90 > 0 && recent > 5 * baseline {
        "accelerating".to_string()
    } else if d90 > 0 && recent < 3 * baseline {
        "cooling".to_string()
    } else {
        "stable".to_string()
    }
}

/// Whether a text is when the last of the selected changes was committed.
pub open spec fn is_last_modified(
    text: Option<String>,
    changes: Seq<LineChange>,
    s: Selection,
) -> bool {
    match latest_in(changes, s) {
        Some(seconds) => match text {
            Some(t) => rfc3339_of(seconds) == Some(t@),
            None => rfc3339_of(seconds) is None,
        },
        None => text is None,
    }
}

fn last_modified(latest: Option<i64>) -> (r: Option<String>)
    ensures
        match latest {
            Some(seconds) => match r {
                Some(t) => rfc3339_of(seconds) == Some(t@),
                None => rfc3339_of(seconds) is None,
            },
            None => r is None,
        },
{
    match latest {
        Some(seconds) => write_rfc3339(seconds),
        None => None,
    }
}

/// At least one author.
pub open spec fn at_least_one(n: nat) -> nat {
    if n == 0 {
        1
    } else {
        n
    }
}

/// Whether the metrics are those of a whole file.
pub open spec fn is_file_churn<F: Fn(u128, usize) -> Score>(
    m: ChurnMetrics,
    entry: GitCacheEntry,
    reference: i64,
    score: F,
) -> bool {
    &&& m.times_modified == entry.times_modified
    &&& m.bug_fix_commits == entry.bug_fix_commits
    &&& m.authors_count == at_least_one(entry.authors@.len())
    &&& views(m.authors@) == entry.authors.list()
    &&& call_ensures(
        score,
        (
            weight(entry.times_modified as nat, entry.bug_fix_commits as nat) as u128,
            m.authors_count,
        ),
        m.churn_score,
    )
    &&& is_last_modified(m.last_modified, entry.line_changes@, ever(0, u32::MAX))
    &&& are_windows(m.windows, entry.line_changes@, 0, u32::MAX, reference, score)
    &&& m.velocity@ == velocity_of(
        m.windows.d7.modifications as nat,
        m.windows.d90.modifications as nat,
    )
}

/// Whether the metrics tell that lines were never changed.
pub open spec fn is_no_churn(m: ChurnMetrics) -> bool {
    &&& m.times_modified == 0
    &&& m.bug_fix_commits == 0
    &&& m.authors_count == 0
    &&& m.authors@.len() == 0
    &&& m.churn_score.bits == 0
    &&& m.last_modified is None
    &&& m.windows == ChurnWindows::none()
    &&& m.velocity@ == "stable"@
}

/// Whether the metrics are those of some lines whose changes are known.
pub open spec fn is_line_churn<F: Fn(u128, usize) -> Score>(
    m: ChurnMetrics,
    changes: Seq<LineChange>,
    start_line: u32,
    end_line: u32,
    reference: i64,
    score: F,
) -> bool {
    let s = ever(start_line, end_line);
    &&& m.times_modified == commits_in(changes, s).len()
    &&& m.bug_fix_commits == fixes_in(changes, s).len()
    &&& m.authors_count == authors_in(changes, s).len()
    &&& views(m.authors@).to_set() == authors_in(changes, s)
    &&& crate::table::ascending(views(m.authors@))
    &&& call_ensures(
        score,
        (
            weight(commits_in(changes, s).len(), fixes_in(changes, s).len()) as u128,
            m.authors_count,
        ),
        m.churn_score,
    )
    &&& is_last_modified(m.last_modified, changes, s)
    &&& are_windows(m.windows, changes, start_line, end_line, reference, score)
    &&& m.velocity@ == velocity_of(
        m.windows.d7.modifications as nat,
        m.windows.d90.modifications as nat,
    )
}

/// Whether the metrics are those of some lines of a file: of the whole file where
/// no lines are known.
pub open spec fn is_range_churn<F: Fn(u128, usize) -> Score>(
    m: ChurnMetrics,
    entry: GitCacheEntry,
    start_line: u32,
    end_line: u32,
    reference: i64,
    score: F,
) -> bool {
    if entry.line_changes@.len() == 0 {
        is_file_churn(m, entry, reference, score)
    } else if commits_in(entry.line_changes@, ever(start_line, end_line)).len() == 0 {
        is_no_churn(m)
    } else {
        is_line_churn(m, entry.line_changes@, start_line, end_line, reference, score)
    }
}

/// Where changes are selected there are authors.
proof fn lemma_authors_where_commits(changes: Seq<LineChange>, s: Selection)
    ensures
        commits_in(changes, s).finite(),
        authors_in(changes, s).finite(),
        commits_in(changes, s).len() > 0 ==> authors_in(changes, s).len() > 0,
    decreases changes.len(),
{
    if changes.len() > 0 {
        lemma_authors_where_commits(changes.drop_last(), s);
    }
}

/// Whatever one selection selects, the other does too.
pub open spec fn narrower(a: Selection, b: Selection) -> bool {
    b.start_line <= a.start_line && a.end_line <= b.end_line && b.since <= a.since
}

/// A wider selection, of more lines or of more time, has all the commits, bug
/// fixes and authors of a narrower one.
pub proof fn lemma_wider_selection(changes: Seq<LineChange>, a: Selection, b: Selection)
    requires
        narrower(a, b),
    ensures
        commits_in(changes, a).subset_of(commits_in(changes, b)),
        fixes_in(changes, a).subset_of(fixes_in(changes, b)),
        authors_in(changes, a).subset_of(authors_in(changes, b)),
        commits_in(changes, b).finite(),
        commits_in(changes, a).len() <= commits_in(changes, b).len(),
    decreases changes.len(),
{
    lemma_authors_where_commits(changes, b);
    if changes.len() > 0 {
        lemma_wider_selection(changes.drop_last(), a, b);
    }
    vstd::set_lib::lemma_len_subset(commits_in(changes, a), commits_in(changes, b));
}

/// Whether two changes read the same.
pub open spec fn change_alike(a: LineChange, b: LineChange) -> bool {
    &&& a.commit@ == b.commit@
    &&& a.start_line == b.start_line
    &&& a.end_line == b.end_line
    &&& a.is_bug_fix == b.is_bug_fix
    &&& a.author@ == b.author@
    &&& a.timestamp == b.timestamp
}

/// Whether a change that reads the same is among some changes.
pub open spec fn occurs_in(change: LineChange, changes: Seq<LineChange>) -> bool {
    exists|j: int| 0 <= j < changes.len() && #[trigger] change_alike(change, changes[j])
}

/// Whether all changes of a list are among those of another.
pub open spec fn all_occur_in(a: Seq<LineChange>, b: Seq<LineChange>) -> bool {
    forall|i: int| 0 <= i < a.len() ==> #[trigger] occurs_in(a[i], b)
}

/// A change that is selected counts.
proof fn lemma_selected_counts(changes: Seq<LineChange>, j: int, s: Selection)
    requires
        0 <= j < changes.len(),
        selects(s, changes[j]),
    ensures
        commits_in(changes, s).contains(changes[j].commit@),
        changes[j].is_bug_fix ==> fixes_in(changes, s).contains(changes[j].commit@),
        authors_in(changes, s).contains(changes[j].author@),
        latest_in(changes, s) is Some,
        latest_in(changes, s)->0 >= changes[j].timestamp,
    decreases changes.len(),
{
    if j < changes.len() - 1 {
        lemma_selected_counts(changes.drop_last(), j, s);
    }
}

/// No more is selected from fewer changes.
proof fn lemma_fewer_selected(a: Seq<LineChange>, b: Seq<LineChange>, s: Selection)
    requires
        all_occur_in(a, b),
    ensures
        commits_in(a, s).subset_of(commits_in(b, s)),
        fixes_in(a, s).subset_of(fixes_in(b, s)),
        authors_in(a, s).subset_of(authors_in(b, s)),
        latest_in(a, s) is Some ==> latest_in(b, s) is Some && latest_in(a, s)->0 <= latest_in(
            b,
            s,
        )->0,
    decreases a.len(),
{
    if a.len() > 0 {
        let rest = a.drop_last();
        assert forall|i: int| 0 <= i < rest.len() implies #[trigger] occurs_in(rest[i], b) by {
            assert(occurs_in(a[i], b));
        }
        lemma_fewer_selected(rest, b, s);
        assert(occurs_in(a[a.len() - 1], b));
        let j = choose|j: int| 0 <= j < b.len() && #[trigger] change_alike(a.last(), b[j]);
        if selects(s, a.last()) {
            lemma_selected_counts(b, j, s);
        }
    }
}

/// The same is selected from lists that hold the same changes.
pub proof fn lemma_same_changes_selected(a: Seq<LineChange>, b: Seq<LineChange>, s: Selection)
    requires
        all_occur_in(a, b),
        all_occur_in(b, a),
    ensures
        commits_in(a, s) == commits_in(b, s),
        fixes_in(a, s) == fixes_in(b, s),
        authors_in(a, s) == authors_in(b, s),
        latest_in(a, s) == latest_in(b, s),
{
    lemma_fewer_selected(a, b, s);
    lemma_fewer_selected(b, a, s);
    assert(commits_in(a, s) =~= commits_in(b, s));
    assert(fixes_in(a, s) =~= fixes_in(b, s));
    assert(authors_in(a, s) =~= authors_in(b, s));
}

/// The order of changes does not matter for what is selected from them.
pub proof fn lemma_selection_ignores_order(a: Seq<LineChange>, b: Seq<LineChange>, s: Selection)
    requires
        a.to_multiset() == b.to_multiset(),
    ensures
        commits_in(a, s) == commits_in(b, s),
        fixes_in(a, s) == fixes_in(b, s),
        authors_in(a, s) == authors_in(b, s),
        latest_in(a, s) == latest_in(b, s),
{
    lemma_rearranged_occur(a, b);
    lemma_rearranged_occur(b, a);
    lemma_same_changes_selected(a, b, s);
}

proof fn lemma_rearranged_occur(a: Seq<LineChange>, b: Seq<LineChange>)
    requires
        a.to_multiset() == b.to_multiset(),
    ensures
        all_occur_in(a, b),
{
    a.to_multiset_ensures();
    b.to_multiset_ensures();
    assert forall|i: int| 0 <= i < a.len() implies #[trigger] occurs_in(a[i], b) by {
        assert(a.contains(a[i]));
        assert(a.to_multiset().count(a[i]) > 0);
        assert(b.contains(a[i]));
        let j = choose|j: int| 0 <= j < b.len() && b[j] == a[i];
        assert(change_alike(a[i], b[j]));
    }
}

/// The windows of a history grow with their days, up to the whole history.
pub proof fn lemma_windows_grow<F: Fn(u128, usize) -> Score>(
    w: ChurnWindows,
    changes: Seq<LineChange>,
    start_line: u32,
    end_line: u32,
    reference: i64,
    score: F,
)
    requires
        are_windows(w, changes, start_line, end_line, reference, score),
    ensures
        w.d7.modifications <= w.d30.modifications <= w.d90.modifications <= commits_in(
            changes,
            ever(start_line, end_line),
        ).len(),
{
    let d7 = in_days(start_line, end_line, reference, 7);
    let d30 = in_days(start_line, end_line, reference, 30);
    let d90 = in_days(start_line, end_line, reference, 90);
    lemma_wider_selection(changes, d7, d30);
    lemma_wider_selection(changes, d30, d90);
    lemma_wider_selection(
        changes,
        d90,
        ever(start_line, end_line),
    );
}

/// Bug fixes are changes: there are no more of them than of commits.
pub proof fn lemma_fixes_are_changes(changes: Seq<LineChange>, s: Selection)
    ensures
        fixes_in(changes, s).subset_of(commits_in(changes, s)),
        fixes_in(changes, s).len() <= commits_in(changes, s).len(),
    decreases changes.len(),
{
    lemma_authors_where_commits(changes, s);
    if changes.len() > 0 {
        lemma_fixes_are_changes(changes.drop_last(), s);
    }
    vstd::set_lib::lemma_len_subset(fixes_in(changes, s), commits_in(changes, s));
}

/// The history of files.
pub struct GitAnalyzer;

impl GitAnalyzer {
    /// What the history of a whole file amounts to at an instant. The score is worked
    /// out from the weight of the changes and the number of authors.
    pub fn compute_churn_metrics<F: Fn(u128, usize) -> Score>(
        cache_entry: &GitCacheEntry,
        reference: i64,
        score: &F,
    ) -> (m: ChurnMetrics)
        requires
            forall|weight: u128, authors: usize| call_requires(score, (weight, authors)),
        ensures
            is_file_churn(m, *cache_entry, reference, *score),
    {
        let known: usize = cache_entry.authors.len();
        let authors_count: usize = if known == 0 {
            1
        } else {
            known
        };
        let all = Selection { start_line: 0, end_line: u32::MAX, since: i128::MIN };
        let counts = count_changes(&cache_entry.line_changes, all);
        let w = windows(&cache_entry.line_changes, 0, u32::MAX, reference, score);
        ChurnMetrics {
            times_modified: cache_entry.times_modified,
            bug_fix_commits: cache_entry.bug_fix_commits,
            authors_count,
            authors: copy_texts(cache_entry.authors.items()),
            churn_score: score(
                cache_entry.times_modified as u128 + 2 * cache_entry.bug_fix_commits as u128,
                authors_count,
            ),
            last_modified: last_modified(counts.latest),
            windows: w,
            velocity: velocity(w.d7.modifications, w.d90.modifications),
        }
    }

    /// What the history of some lines of a file amounts to at an instant.
    pub fn compute_churn_metrics_for_range<F: Fn(u128, usize) -> Score>(
        cache_entry: &GitCacheEntry,
        start_line: u32,
        end_line: u32,
        reference: i64,
        score: &F,
    ) -> (m: ChurnMetrics)
        requires
            forall|weight: u128, authors: usize| call_requires(score, (weight, authors)),
        ensures
            is_range_churn(m, *cache_entry, start_line, end_line, reference, *score),
    {
        if cache_entry.line_changes.len() == 0 {
            return Self::compute_churn_metrics(cache_entry, reference, score);
        }
        let s = Selection { start_line, end_line, since: i128::MIN };
        let counts = count_changes(&cache_entry.line_changes, s);
        let commits: usize = counts.commits.len();
        let fixes: usize = counts.fixes.len();
        let authors: usize = counts.authors.len();
        if commits == 0 {
            return ChurnMetrics {
                times_modified: 0,
                bug_fix_commits: 0,
                authors_count: 0,
                authors: Vec::new(),
                churn_score: Score::zero(),
                last_modified: None,
                windows: ChurnWindows::empty(),
                velocity: "stable".to_string(),
            };
        }
        proof {
            lemma_authors_where_commits(cache_entry.line_changes@, s);
        }
        let w = windows(&cache_entry.line_changes, start_line, end_line, reference, score);
        ChurnMetrics {
            times_modified: commits,
            bug_fix_commits: fixes,
            authors_count: authors,
            authors: counts.authors.into_items(),
            churn_score: score(commits as u128 + 2 * fixes as u128, authors),
            last_modified: last_modified(counts.latest),
            windows: w,
            velocity: velocity(w.d7.modifications, w.d90.modifications),
        }
    }

    /// The part of the metrics that is told of a function.
    pub fn churn_details(churn: &ChurnMetrics) -> (d: ChurnDetails)
        ensures
            d.score == churn.churn_score,
            d.times_modified == churn.times_modified,
            d.last_modified == churn.last_modified,
            d.windows == churn.windows,
            d.velocity == churn.velocity,
    {
        ChurnDetails {
            score: churn.churn_score,
            times_modified: churn.times_modified,
            last_modified: copy_text(&churn.last_modified),
            windows: churn.windows,
            velocity: churn.velocity.clone(),
        }
    }
}

/// Whether a function is told with the history of its lines.
pub open spec fn has_churn(
    after: FunctionMetrics,
    before: FunctionMetrics,
    churn: ChurnMetrics,
    path: Seq<char>,
    include_authors: bool,
) -> bool {
    &&& after == FunctionMetrics {
        times_modified: churn.times_modified,
        bug_fix_commits: churn.bug_fix_commits,
        authors_count: churn.authors_count,
        authors: after.authors,
        churn: ChurnDetails {
            score: churn.churn_score,
            times_modified: churn.times_modified,
            last_modified: churn.last_modified,
            windows: churn.windows,
            velocity: churn.velocity,
        },
        churn_score: churn.churn_score,
        file: after.file,
        ..before
    }
    &&& after.file@ == path
    &&& match after.authors {
        Some(list) => include_authors && list@ == churn.authors@,
        None => !include_authors,
    }
}

/// Whether a function is told with the history that a file's entry gives its lines.
pub open spec fn has_history<F: Fn(u128, usize) -> Score>(
    after: FunctionMetrics,
    before: FunctionMetrics,
    entry: GitCacheEntry,
    path: Seq<char>,
    include_authors: bool,
    reference: i64,
    score: F,
) -> bool {
    exists|churn: ChurnMetrics|
        is_range_churn(churn, entry, before.line, before.end_line, reference, score)
            && #[trigger] has_churn(after, before, churn, path, include_authors)
}

/// Whether every function of a file is told with the history of its lines, if the
/// file has one.
pub open spec fn have_churn<F: Fn(u128, usize) -> Score>(
    after: Seq<FunctionMetrics>,
    before: Seq<FunctionMetrics>,
    git_cache: TextMap<GitCacheEntry>,
    path: Seq<char>,
    include_authors: bool,
    reference: i64,
    score: F,
) -> bool {
    if git_cache@.contains_key(path) {
        &&& after.len() == before.len()
        &&& forall|i: int|
            0 <= i < after.len() ==> has_history(
                #[trigger] after[i],
                before[i],
                git_cache@[path],
                path,
                include_authors,
                reference,
                score,
            )
    } else {
        after == before
    }
}

/// Tells every function of a file with the history of its lines.
pub fn apply_git_metrics_to_functions<F: Fn(u128, usize) -> Score>(
    functions: &mut Vec<FunctionMetrics>,
    git_cache: &TextMap<GitCacheEntry>,
    path: &str,
    include_authors: bool,
    reference: i64,
    score: &F,
)
    requires
        forall|weight: u128, authors: usize| call_requires(score, (weight, authors)),
    ensures
        have_churn(
            final(functions)@,
            old(functions)@,
            *git_cache,
            path@,
            include_authors,
            reference,
            *score,
        ),
{
    let entry = match git_cache.get(path) {
        Some(entry) => entry,
        None => {
            return;
        },
    };
    let ghost before = functions@;
    let n: usize = functions.len();
    for i in 0..n
        invariant
            n == functions.len() == before.len(),
            before == old(functions)@,
            forall|weight: u128, authors: usize| call_requires(score, (weight, authors)),
            forall|k: int| i <= k < n ==> functions@[k] == before[k],
            forall|k: int|
                0 <= k < i ==> has_history(
                    #[trigger] functions@[k],
                    before[k],
                    *entry,
                    path@,
                    include_authors,
                    reference,
                    *score,
                ),
    {
        let churn = GitAnalyzer::compute_churn_metrics_for_range(
            entry,
            functions[i].line,
            functions[i].end_line,
            reference,
            score,
        );
        let ghost untouched = functions@;
        let function = &mut functions[i];
        function.times_modified = churn.times_modified;
        function.bug_fix_commits = churn.bug_fix_commits;
        function.authors_count = churn.authors_count;
        function.authors = if include_authors {
            Some(copy_texts(&churn.authors))
        } else {
            None
        };
        function.churn = GitAnalyzer::churn_details(&churn);
        function.churn_score = churn.churn_score;
        function.file = path.to_string();
        proof {
            assert(has_churn(functions@[i as int], before[i as int], churn, path@, include_authors));
            assert forall|k: int| 0 <= k < i + 1 implies has_history(
                #[trigger] functions@[k],
                before[k],
                *entry,
                path@,
                include_authors,
                reference,
                *score,
            ) by {
                if k < i {
                    assert(functions@[k] == untouched[k]);
                }
            }
        }
    }
}

} // verus!

//! What the history of a file tells of the lines of a function.

use super::churn::{
    authors_in, commits_in, ever, fixes_in, has_churn, has_history, have_churn, in_days,
    is_range_churn, is_window, latest_in, rfc3339_of, selects, Selection,
};
use crate::cache::{GitCacheEntry, LineChange};
use crate::metrics::{ChurnMetrics, ChurnWindow, FunctionMetrics};
use crate::score::Score;
use crate::table::{ascending, TextMap};
use crate::text::views;
use vstd::prelude::*;

verus! {

/// Whether a change, not made before an instant, changes some of the lines from one to
/// another.
pub open spec fn concerns(c: LineChange, first: u32, last: u32, since: int) -> bool {
    c.start_line <= last && first <= c.end_line && since <= c.timestamp
}

/// The commits that changed some lines since an instant.
pub open spec fn commits_since(
    changes: Seq<LineChange>,
    first: u32,
    last: u32,
    since: int,
) -> Set<Seq<char>> {
    Set::new(
        |x: Seq<char>|
            exists|i: int|
                0 <= i < changes.len() && concerns(#[trigger] changes[i], first, last, since)
                    && changes[i].commit@ == x,
    )
}

/// The bug fixes among them.
pub open spec fn fixes_since(
    changes: Seq<LineChange>,
    first: u32,
    last: u32,
    since: int,
) -> Set<Seq<char>> {
    Set::new(
        |x: Seq<char>|
            exists|i: int|
                0 <= i < changes.len() && concerns(#[trigger] changes[i], first, last, since)
                    && changes[i].is_bug_fix && changes[i].commit@ == x,
    )
}

/// Who changed some lines since an instant.
pub open spec fn authors_since(
    changes: Seq<LineChange>,
    first: u32,
    last: u32,
    since: int,
) -> Set<Seq<char>> {
    Set::new(
        |x: Seq<char>|
            exists|i: int|
                0 <= i < changes.len() && concerns(#[trigger] changes[i], first, last, since)
                    && changes[i].author@ == x,
    )
}

/// An instant before all others.
pub open spec fn always() -> int {
    i64::MIN as int
}

/// Whether an instant is that of the last change to some lines.
pub open spec fn is_last_change(
    changes: Seq<LineChange>,
    first: u32,
    last: u32,
    seconds: i64,
) -> bool {
    &&& exists|i: int|
        0 <= i < changes.len() && concerns(#[trigger] changes[i], first, last, always())
            && changes[i].timestamp == seconds
    &&& forall|i: int|
        0 <= i < changes.len() && concerns(#[trigger] changes[i], first, last, always())
            ==> changes[i].timestamp <= seconds
}

/// A selection selects what concerns its lines since its instant.
proof fn lemma_selection(changes: Seq<LineChange>, s: Selection, since: int)
    requires
        s.since == since || (s.since <= i64::MIN && since <= i64::MIN),
    ensures
        commits_in(changes, s) == commits_since(changes, s.start_line, s.end_line, since),
        fixes_in(changes, s) == fixes_since(changes, s.start_line, s.end_line, since),
        authors_in(changes, s) == authors_since(changes, s.start_line, s.end_line, since),
        commits_in(changes, s).finite(),
        fixes_in(changes, s).finite(),
        authors_in(changes, s).finite(),
        latest_in(changes, s) is None <==> commits_in(changes, s).len() == 0,
    decreases changes.len(),
{
    let a = s.start_line;
    let b = s.end_line;
    if changes.len() == 0 {
        assert(commits_in(changes, s) =~= commits_since(changes, a, b, since));
        assert(fixes_in(changes, s) =~= fixes_since(changes, a, b, since));
        assert(authors_in(changes, s) =~= authors_since(changes, a, b, since));
    } else {
        let n = changes.len() - 1;
        let rest = changes.drop_last();
        lemma_selection(rest, s, since);
        let c = changes[n];
        assert(selects(s, c) <==> concerns(c, a, b, since));
        assert forall|x: Seq<char>| commits_in(changes, s).contains(x) <==> commits_since(
            changes,
            a,
            b,
            since,
        ).contains(x) by {
            lemma_one_more(changes, a, b, since, x);
        }
        assert forall|x: Seq<char>| fixes_in(changes, s).contains(x) <==> fixes_since(
            changes,
            a,
            b,
            since,
        ).contains(x) by {
            lemma_one_more(changes, a, b, since, x);
        }
        assert forall|x: Seq<char>| authors_in(changes, s).contains(x) <==> authors_since(
            changes,
            a,
            b,
            since,
        ).contains(x) by {
            lemma_one_more(changes, a, b, since, x);
        }
        assert(commits_in(changes, s) =~= commits_since(changes, a, b, since));
        assert(fixes_in(changes, s) =~= fixes_since(changes, a, b, since));
        assert(authors_in(changes, s) =~= authors_since(changes, a, b, since));
        if latest_in(changes, s) is Some && selects(s, c) {
            assert(commits_in(changes, s).contains(c.commit@));
        }
    }
}

proof fn lemma_one_more(changes: Seq<LineChange>, a: u32, b: u32, since: int, x: Seq<char>)
    requires
        changes.len() > 0,
    ensures
        commits_since(changes, a, b, since).contains(x) <==> commits_since(
            changes.drop_last(),
            a,
            b,
            since,
        ).contains(x) || (concerns(changes.last(), a, b, since) && changes.last().commit@ == x),
        fixes_since(changes, a, b, since).contains(x) <==> fixes_since(
            changes.drop_last(),
            a,
            b,
            since,
        ).contains(x) || (concerns(changes.last(), a, b, since) && changes.last().is_bug_fix
            && changes.last().commit@ == x),
        authors_since(changes, a, b, since).contains(x) <==> authors_since(
            changes.drop_last(),
            a,
            b,
            since,
        ).contains(x) || (concerns(changes.last(), a, b, since) && changes.last().author@ == x),
{
    let n = changes.len() - 1;
    let rest = changes.drop_last();
    assert(changes[n] == changes.last());
    assert forall|i: int| 0 <= i < n implies #[trigger] changes[i] == rest[i] by {}
    if commits_since(rest, a, b, since).contains(x) {
        let i = choose|i: int|
            0 <= i < rest.len() && concerns(#[trigger] rest[i], a, b, since) && rest[i].commit@ == x;
        assert(changes[i] == rest[i]);
    }
    if fixes_since(rest, a, b, since).contains(x) {
        let i = choose|i: int|
            0 <= i < rest.len() && concerns(#[trigger] rest[i], a, b, since) && rest[i].is_bug_fix
                && rest[i].commit@ == x;
        assert(changes[i] == rest[i]);
    }
    if authors_since(rest, a, b, since).contains(x) {
        let i = choose|i: int|
            0 <= i < rest.len() && concerns(#[trigger] rest[i], a, b, since) && rest[i].author@ == x;
        assert(changes[i] == rest[i]);
    }
}

proof fn lemma_latest(changes: Seq<LineChange>, first: u32, last: u32)
    ensures
        latest_in(changes, ever(first, last)) is Some ==> is_last_change(
            changes,
            first,
            last,
            latest_in(changes, ever(first, last))->0,
        ),
        latest_in(changes, ever(first, last)) is None ==> forall|i: int|
            0 <= i < changes.len() ==> !concerns(#[trigger] changes[i], first, last, always()),
    decreases changes.len(),
{
    if changes.len() > 0 {
        let s = ever(first, last);
        let n = changes.len() - 1;
        let rest = changes.drop_last();
        lemma_latest(rest, first, last);
        assert forall|i: int| 0 <= i < n implies #[trigger] changes[i] == rest[i] by {}
        assert(selects(s, changes[n]) <==> concerns(changes[n], first, last, always()));
        if let Some(seconds) = latest_in(changes, s) {
            if latest_in(rest, s) == Some(seconds) {
                let i = choose|i: int|
                    0 <= i < rest.len() && concerns(#[trigger] rest[i], first, last, always())
                        && rest[i].timestamp == seconds;
                assert(changes[i] == rest[i]);
            } else {
                assert(changes[n].timestamp == seconds);
            }
        }
    }
}

/// Whether a window tells of the changes to some lines since an instant: how many
/// commits there were, and a score from those, the bug fixes, which count twice more,
/// and the authors.
pub open spec fn is_window_since<F: Fn(u128, usize) -> Score>(
    w: ChurnWindow,
    changes: Seq<LineChange>,
    first: u32,
    last: u32,
    since: int,
    score: F,
) -> bool {
    let commits = commits_since(changes, first, last, since);
    let fixes = fixes_since(changes, first, last, since);
    let authors = authors_since(changes, first, last, since);
    &&& w.modifications == commits.len()
    &&& commits.len() == 0 ==> w.score.bits == 0
    &&& commits.len() > 0 ==> call_ensures(
        score,
        ((commits.len() + 2 * fixes.len()) as u128, authors.len() as usize),
        w.score,
    )
}

proof fn lemma_window<F: Fn(u128, usize) -> Score>(
    w: ChurnWindow,
    changes: Seq<LineChange>,
    first: u32,
    last: u32,
    reference: i64,
    days: int,
    seconds: int,
    score: F,
)
    requires
        is_window(w, changes, in_days(first, last, reference, days), score),
        0 <= days <= 90,
        seconds == days * 24 * 60 * 60,
    ensures
        is_window_since(w, changes, first, last, reference - seconds, score),
{
    let s = in_days(first, last, reference, days);
    assert(s.since == reference - seconds);
    lemma_selection(changes, s, reference - seconds);
}

/// What a function is told of its history, where the changes of its file are known.
/// The windows reach 7, 30 and 90 days back from the reference, to the second. All
/// counts are of commits, and of people, that changed a line of the function; one that
/// changed several lines counts once.
pub proof fn lemma_history_of_lines<F: Fn(u128, usize) -> Score>(
    after: FunctionMetrics,
    before: FunctionMetrics,
    entry: GitCacheEntry,
    path: Seq<char>,
    include_authors: bool,
    reference: i64,
    score: F,
)
    requires
        has_history(after, before, entry, path, include_authors, reference, score),
        entry.line_changes@.len() > 0,
    ensures
        ({
            let changes = entry.line_changes@;
            let a = before.line;
            let b = before.end_line;
            let w = after.churn.windows;
            let commits = commits_since(changes, a, b, always());
            let fixes = fixes_since(changes, a, b, always());
            let authors = authors_since(changes, a, b, always());
            &&& is_window_since(w.d7, changes, a, b, reference - 604_800, score)
            &&& is_window_since(w.d30, changes, a, b, reference - 2_592_000, score)
            &&& is_window_since(w.d90, changes, a, b, reference - 7_776_000, score)
            &&& after.times_modified == commits.len()
            &&& after.churn.times_modified == commits.len()
            &&& after.bug_fix_commits == fixes.len()
            &&& after.authors_count == authors.len()
            &&& commits.len() == 0 ==> after.churn_score.bits == 0
            &&& commits.len() > 0 ==> call_ensures(
                score,
                ((commits.len() + 2 * fixes.len()) as u128, authors.len() as usize),
                after.churn_score,
            )
            &&& after.churn.score == after.churn_score
            &&& include_authors <==> after.authors is Some
            &&& include_authors ==> ascending(views(after.authors->0@)) && views(
                after.authors->0@,
            ).to_set() == authors
            &&& match after.churn.last_modified {
                Some(text) => exists|seconds: i64| #[trigger]
                    is_last_change(changes, a, b, seconds) && rfc3339_of(seconds) == Some(text@),
                None => commits.len() == 0 || exists|seconds: i64| #[trigger]
                    is_last_change(changes, a, b, seconds) && rfc3339_of(seconds) is None,
            }
        }),
{
    let changes = entry.line_changes@;
    let a = before.line;
    let b = before.end_line;
    let churn = choose|churn: ChurnMetrics|
        is_range_churn(churn, entry, a, b, reference, score) && #[trigger] has_churn(
            after,
            before,
            churn,
            path,
            include_authors,
        );
    let s = ever(a, b);
    lemma_selection(changes, s, always());
    lemma_latest(changes, a, b);
    let commits = commits_since(changes, a, b, always());
    if commits.len() == 0 {
        assert(commits =~= Set::empty());
        assert forall|i: int| 0 <= i < changes.len() implies !concerns(
            #[trigger] changes[i],
            a,
            b,
            always(),
        ) by {
            if concerns(changes[i], a, b, always()) {
                assert(commits.contains(changes[i].commit@));
            }
        }
        lemma_nothing_concerns(changes, a, b, reference - 604_800);
        lemma_nothing_concerns(changes, a, b, reference - 2_592_000);
        lemma_nothing_concerns(changes, a, b, reference - 7_776_000);
        lemma_nothing_concerns(changes, a, b, always());
        assert(views(churn.authors@) =~= Seq::empty());
        assert(views(churn.authors@).to_set() =~= authors_since(changes, a, b, always()));
    } else {
        lemma_window(churn.windows.d7, changes, a, b, reference, 7, 604_800, score);
        lemma_window(churn.windows.d30, changes, a, b, reference, 30, 2_592_000, score);
        lemma_window(churn.windows.d90, changes, a, b, reference, 90, 7_776_000, score);
    }
}

proof fn lemma_nothing_concerns(changes: Seq<LineChange>, a: u32, b: u32, since: int)
    requires
        forall|i: int|
            0 <= i < changes.len() ==> !concerns(#[trigger] changes[i], a, b, always()),
    ensures
        commits_since(changes, a, b, since).len() == 0,
        fixes_since(changes, a, b, since).len() == 0,
        authors_since(changes, a, b, since) == Set::<Seq<char>>::empty(),
{
    assert forall|i: int| 0 <= i < changes.len() implies !concerns(
        #[trigger] changes[i],
        a,
        b,
        since,
    ) by {
        assert(!concerns(changes[i], a, b, always()));
    }
    assert(commits_since(changes, a, b, since) =~= Set::empty());
    assert(fixes_since(changes, a, b, since) =~= Set::empty());
    assert(authors_since(changes, a, b, since) =~= Set::empty());
}

/// Whether lines change more or less often than they used to, by the rates of the last
/// 7 days and of the last 90: more than 1.25 times as often is accelerating, less than
/// 0.75 times is cooling, and anything else is stable.
pub proof fn lemma_velocity_compares_rates<F: Fn(u128, usize) -> Score>(
    after: FunctionMetrics,
    before: FunctionMetrics,
    entry: GitCacheEntry,
    path: Seq<char>,
    include_authors: bool,
    reference: i64,
    score: F,
)
    requires
        has_history(after, before, entry, path, include_authors, reference, score),
    ensures
        ({
            let week = after.churn.windows.d7.modifications;
            let quarter = after.churn.windows.d90.modifications;
            let v = after.churn.velocity@;
            &&& v == "accelerating"@ <==> quarter > 0 && week * 90 * 100 > quarter * 7 * 125
            &&& v == "cooling"@ <==> quarter > 0 && week * 90 * 100 < quarter * 7 * 75
            &&& v == "stable"@ <==> quarter == 0 || quarter * 7 * 75 <= week * 90 * 100 <= quarter
                * 7 * 125
        }),
{
    reveal_strlit("accelerating");
    reveal_strlit("cooling");
    reveal_strlit("stable");
    assert("accelerating"@.len() == 12);
    assert("cooling"@.len() == 7);
    assert("stable"@.len() == 6);
}

/// Where no single changes of a file are known, a function is told with the history of
/// the whole file.
pub proof fn lemma_history_of_whole_file<F: Fn(u128, usize) -> Score>(
    after: FunctionMetrics,
    before: FunctionMetrics,
    entry: GitCacheEntry,
    path: Seq<char>,
    include_authors: bool,
    reference: i64,
    score: F,
)
    requires
        has_history(after, before, entry, path, include_authors, reference, score),
        entry.line_changes@.len() == 0,
    ensures
        after.times_modified == entry.times_modified,
        after.bug_fix_commits == entry.bug_fix_commits,
        after.authors_count == if entry.authors@.len() == 0 {
            1
        } else {
            entry.authors@.len()
        },
        call_ensures(
            score,
            (
                (entry.times_modified + 2 * entry.bug_fix_commits) as u128,
                after.authors_count,
            ),
            after.churn_score,
        ),
        include_authors ==> views(after.authors->0@) == entry.authors.list(),
        after.churn.last_modified is None,
        after.churn.windows.d7.modifications == 0,
        after.churn.windows.d30.modifications == 0,
        after.churn.windows.d90.modifications == 0,
        after.churn.velocity@ == "stable"@,
{
}

/// The history changes nothing of a function but what it tells of its history, and the
/// name of its file. A function of a file without history stays as it is.
pub proof fn lemma_history_leaves_the_rest<F: Fn(u128, usize) -> Score>(
    after: Seq<FunctionMetrics>,
    before: Seq<FunctionMetrics>,
    git_cache: TextMap<GitCacheEntry>,
    path: Seq<char>,
    include_authors: bool,
    reference: i64,
    score: F,
    i: int,
)
    requires
        have_churn(after, before, git_cache, path, include_authors, reference, score),
        0 <= i < before.len(),
    ensures
        after.len() == before.len(),
        !git_cache@.contains_key(path) ==> after[i] == before[i],
        git_cache@.contains_key(path) ==> has_history(
            after[i],
            before[i],
            git_cache@[path],
            path,
            include_authors,
            reference,
            score,
        ) && after[i].file@ == path,
        after[i] == (FunctionMetrics {
            times_modified: after[i].times_modified,
            bug_fix_commits: after[i].bug_fix_commits,
            authors_count: after[i].authors_count,
            authors: after[i].authors,
            churn: after[i].churn,
            churn_score: after[i].churn_score,
            file: after[i].file,
            ..before[i]
        }),
{
    if git_cache@.contains_key(path) {
        assert(has_history(
            after[i],
            before[i],
            git_cache@[path],
            path,
            include_authors,
            reference,
            score,
        ));
    }
}

} // verus!

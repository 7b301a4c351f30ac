//! What is kept of each file, when it is used again, and how it is put together.

use crate::cache::{is_loaded, AnalysisCache, CacheRead, FileCacheEntry, GitCacheEntry};
use crate::digest::digest_of;
use crate::error::UchikomiError;
use crate::gather::gathered;
use crate::git::churn::have_churn;
use crate::liveness::{lemma_no_units, lemma_units, units};
use crate::metrics::{same_functions, FunctionMetrics, ScoringPolicy};
use crate::registry::grammar_at;
use crate::score::Score;
use crate::scoring::is_default_policy;
use crate::table::TextMap;
use crate::worker::{are_functions_of, is_file_output, is_selection, WalkEntry, WorkerOutput};
use vstd::prelude::*;

verus! {

/// Whether an entry for a file came of an output.
pub open spec fn keeps(output: WorkerOutput, path: Seq<char>) -> bool {
    output.cache_entry is Some && (output.cache_entry->0).0@ == path
}

/// Everything that came of each file is put together, file after file: the functions,
/// the warnings and the files left out; and for each file what came of it last is kept.
pub proof fn lemma_everything_is_put_together(outputs: Seq<WorkerOutput>)
    ensures
        ({
            let g = gathered(outputs);
            &&& g.functions == outputs.map_values(
                |o: WorkerOutput| o.functions@,
            ).flatten_alt()
            &&& g.warnings == outputs.map_values(|o: WorkerOutput| o.warnings@).flatten_alt()
            &&& g.skipped_files == outputs.map_values(
                |o: WorkerOutput| o.skipped_files@,
            ).flatten_alt()
            &&& forall|path: Seq<char>| #[trigger]
                g.active_paths.contains(path) <==> exists|k: int|
                    0 <= k < outputs.len() && (#[trigger] outputs[k]).active_path is Some
                        && outputs[k].active_path->0@ == path
            &&& forall|path: Seq<char>| #[trigger]
                g.cache_entries.contains_key(path) <==> exists|k: int|
                    0 <= k < outputs.len() && #[trigger] keeps(outputs[k], path)
            &&& forall|path: Seq<char>, k: int|
                0 <= k < outputs.len() && #[trigger] keeps(outputs[k], path) && (forall|l: int|
                    k < l < outputs.len() ==> !#[trigger] keeps(outputs[l], path))
                    ==> g.cache_entries[path] == (outputs[k].cache_entry->0).1
        }),
    decreases outputs.len(),
{
    let functions = |o: WorkerOutput| o.functions@;
    let warnings = |o: WorkerOutput| o.warnings@;
    let skipped = |o: WorkerOutput| o.skipped_files@;
    let g = gathered(outputs);
    if outputs.len() > 0 {
        let had = outputs.drop_last();
        let last = outputs.last();
        let n = had.len() as int;
        lemma_everything_is_put_together(had);
        let h = gathered(had);
        assert(outputs.map_values(functions).drop_last() =~= had.map_values(functions));
        assert(outputs.map_values(warnings).drop_last() =~= had.map_values(warnings));
        assert(outputs.map_values(skipped).drop_last() =~= had.map_values(skipped));
        assert forall|k: int| 0 <= k < n implies had[k] == outputs[k] by {}
        assert forall|path: Seq<char>| #[trigger] g.active_paths.contains(path) <==> exists|k: int|
            0 <= k < outputs.len() && (#[trigger] outputs[k]).active_path is Some
                && outputs[k].active_path->0@ == path by {
            if h.active_paths.contains(path) {
                let k = choose|k: int|
                    0 <= k < had.len() && (#[trigger] had[k]).active_path is Some
                        && had[k].active_path->0@ == path;
                assert(outputs[k].active_path is Some);
            }
            if exists|k: int|
                0 <= k < outputs.len() && (#[trigger] outputs[k]).active_path is Some
                    && outputs[k].active_path->0@ == path {
                let k = choose|k: int|
                    0 <= k < outputs.len() && (#[trigger] outputs[k]).active_path is Some
                        && outputs[k].active_path->0@ == path;
                if k < n {
                    assert(had[k].active_path is Some);
                    assert(h.active_paths.contains(path));
                }
            }
            if last.active_path is Some && last.active_path->0@ == path {
                assert(outputs[n].active_path is Some);
            }
        }
        assert forall|path: Seq<char>| #[trigger]
            g.cache_entries.contains_key(path) <==> exists|k: int|
                0 <= k < outputs.len() && #[trigger] keeps(outputs[k], path) by {
            if h.cache_entries.contains_key(path) {
                let k = choose|k: int| 0 <= k < had.len() && #[trigger] keeps(had[k], path);
                assert(keeps(outputs[k], path));
            }
            if exists|k: int| 0 <= k < outputs.len() && #[trigger] keeps(outputs[k], path) {
                let k = choose|k: int|
                    0 <= k < outputs.len() && #[trigger] keeps(outputs[k], path);
                if k < n {
                    assert(keeps(had[k], path));
                    assert(h.cache_entries.contains_key(path));
                }
            }
            if keeps(last, path) {
                assert(keeps(outputs[n], path));
            }
        }
        assert forall|path: Seq<char>, k: int|
            0 <= k < outputs.len() && #[trigger] keeps(outputs[k], path) && (forall|l: int|
                k < l < outputs.len() ==> !#[trigger] keeps(
                    outputs[l],
                    path,
                )) implies g.cache_entries[path] == (outputs[k].cache_entry->0).1 by {
            if k < n {
                assert(!keeps(outputs[n], path));
                assert(keeps(had[k], path));
                assert forall|l: int| k < l < had.len() implies !#[trigger] keeps(
                    had[l],
                    path,
                ) by {
                    assert(!keeps(outputs[l], path));
                }
                assert(h.cache_entries.contains_key(path));
            }
        }
    }
}

/// The files whose functions were kept are counted, and those whose functions were not,
/// as far as they can be counted.
pub proof fn lemma_uses_of_the_cache_are_counted(outputs: Seq<WorkerOutput>)
    ensures
        ({
            let hits = units(
                Seq::new(outputs.len(), |k: int| outputs[k].cache_hit as nat),
            ).len();
            let misses = units(
                Seq::new(outputs.len(), |k: int| outputs[k].cache_miss as nat),
            ).len();
            &&& gathered(outputs).cache_hits == if hits <= usize::MAX {
                hits
            } else {
                usize::MAX as nat
            }
            &&& gathered(outputs).cache_misses == if misses <= usize::MAX {
                misses
            } else {
                usize::MAX as nat
            }
        }),
{
    lemma_uses(outputs);
}

spec fn hits_of(outputs: Seq<WorkerOutput>) -> Seq<nat> {
    Seq::new(outputs.len(), |k: int| outputs[k].cache_hit as nat)
}

spec fn misses_of(outputs: Seq<WorkerOutput>) -> Seq<nat> {
    Seq::new(outputs.len(), |k: int| outputs[k].cache_miss as nat)
}

proof fn lemma_uses(outputs: Seq<WorkerOutput>)
    ensures
        units(hits_of(outputs)).finite(),
        units(misses_of(outputs)).finite(),
        gathered(outputs).cache_hits == if units(hits_of(outputs)).len() <= usize::MAX {
            units(hits_of(outputs)).len()
        } else {
            usize::MAX as nat
        },
        gathered(outputs).cache_misses == if units(misses_of(outputs)).len() <= usize::MAX {
            units(misses_of(outputs)).len()
        } else {
            usize::MAX as nat
        },
    decreases outputs.len(),
{
    if outputs.len() == 0 {
        lemma_no_units();
        assert(hits_of(outputs) =~= Seq::<nat>::empty());
        assert(misses_of(outputs) =~= Seq::<nat>::empty());
    } else {
        let had = outputs.drop_last();
        let last = outputs.last();
        lemma_uses(had);
        lemma_units(hits_of(had), last.cache_hit as nat);
        lemma_units(misses_of(had), last.cache_miss as nat);
        assert(hits_of(outputs) =~= hits_of(had).push(last.cache_hit as nat));
        assert(misses_of(outputs) =~= misses_of(had).push(last.cache_miss as nat));
    }
}

/// What was kept of a file is used again only while its content is the same: once the
/// content has another digest, or nothing was kept, the file is read anew, and what its
/// functions are is told by its content alone.
pub proof fn lemma_changed_file_is_read_anew<F: Fn(u128, usize) -> Score>(
    output: WorkerOutput,
    source: &[u8],
    path: Seq<char>,
    files: Map<Seq<char>, FileCacheEntry>,
    git_cache: TextMap<GitCacheEntry>,
    include_authors: bool,
    reference: i64,
    score: F,
)
    requires
        is_file_output(
            output,
            Ok(source),
            path,
            files,
            git_cache,
            include_authors,
            reference,
            score,
        ),
        !files.contains_key(path) || files[path].content_hash@ != digest_of(source@),
    ensures
        output.cache_hit == 0,
        output.cache_miss == 1,
        output.skipped_files@.len() == 0 ==> exists|found: Seq<FunctionMetrics>| #[trigger]
            are_functions_of(found, source@, path) && have_churn(
                output.functions@,
                found,
                git_cache,
                path,
                include_authors,
                reference,
                score,
            ),
        output.skipped_files@.len() == 0 ==> keeps(output, path) && (
        output.cache_entry->0).1.content_hash@ == digest_of(source@) && same_functions(
            (output.cache_entry->0).1.functions@,
            output.functions@,
        ),
        output.skipped_files@.len() > 0 ==> output.functions@.len() == 0 && output.cache_entry
            is None,
{
}

/// A file whose content is the same is told with the functions that were kept.
pub proof fn lemma_same_file_is_used_again<F: Fn(u128, usize) -> Score>(
    output: WorkerOutput,
    source: &[u8],
    path: Seq<char>,
    files: Map<Seq<char>, FileCacheEntry>,
    git_cache: TextMap<GitCacheEntry>,
    include_authors: bool,
    reference: i64,
    score: F,
)
    requires
        is_file_output(
            output,
            Ok(source),
            path,
            files,
            git_cache,
            include_authors,
            reference,
            score,
        ),
        files.contains_key(path),
        files[path].content_hash@ == digest_of(source@),
    ensures
        output.cache_hit == 1,
        output.cache_miss == 0,
        output.skipped_files@.len() == 0,
        exists|found: Seq<FunctionMetrics>| #[trigger]
            same_functions(found, files[path].functions@) && have_churn(
                output.functions@,
                found,
                git_cache,
                path,
                include_authors,
                reference,
                score,
            ),
{
    let found = choose|found: Seq<FunctionMetrics>| #[trigger]
        crate::worker::are_found(found, files, path, source@) && crate::worker::tells_functions(
            output,
            found,
            path,
            source@,
            git_cache,
            include_authors,
            reference,
            score,
        );
    assert(same_functions(found, files[path].functions@));
}

/// A file that cannot be read is left out, and it is told why.
pub proof fn lemma_unread_file_is_left_out<F: Fn(u128, usize) -> Score>(
    output: WorkerOutput,
    err: String,
    path: Seq<char>,
    files: Map<Seq<char>, FileCacheEntry>,
    git_cache: TextMap<GitCacheEntry>,
    include_authors: bool,
    reference: i64,
    score: F,
)
    requires
        is_file_output(
            output,
            Err(err),
            path,
            files,
            git_cache,
            include_authors,
            reference,
            score,
        ),
    ensures
        output.functions@.len() == 0,
        output.cache_entry is None,
        output.cache_hit == 0 && output.cache_miss == 0,
        output.skipped_files@.len() == 1,
        output.skipped_files@[0].path@ == path,
        output.skipped_files@[0].reason@ == "failed to read file: "@ + err@,
        output.active_path is Some && output.active_path->0@ == path,
{
}

/// Of what is found on a walk, files of a known language that lie in the repository are
/// analyzed, by their path in it; files outside of it are warned of; nothing else is
/// looked at.
pub proof fn lemma_what_is_analyzed(
    r: Option<Result<String, WorkerOutput>>,
    entry: WalkEntry,
    repo_path_abs: Seq<char>,
)
    requires
        is_selection(r, entry, repo_path_abs),
    ensures
        ({
            let below = crate::path::path_below(entry.path@, repo_path_abs);
            &&& (r is Some && r->0 is Ok) <==> entry.is_file && below is Some && grammar_at(
                below->0,
            ) is Some
            &&& r is Some && r->0 is Ok ==> (r->0)->Ok_0@ == below->0
            &&& (r is Some && r->0 is Err) <==> entry.is_file && below is None
        }),
{
}

/// A cache file is loaded only if it starts with `CHRN` and the version, which is two;
/// others are refused. Without a file there is nothing in the cache.
pub proof fn lemma_other_files_are_refused(
    r: Result<AnalysisCache, UchikomiError>,
    bytes: &[u8],
    cache: AnalysisCache,
)
    requires
        is_loaded(r, (CacheRead::Content { bytes, decoded: Ok(cache) })),
    ensures
        r is Ok <==> bytes@.len() >= 8 && bytes@[0] == 67 && bytes@[1] == 72 && bytes@[2] == 82
            && bytes@[3] == 78 && bytes@[4] == 2 && bytes@[5] == 0 && bytes@[6] == 0 && bytes@[7]
            == 0,
        r is Ok ==> r->Ok_0 == cache,
        r is Err ==> r->Err_0 is CacheError,
{
    if bytes@.len() >= 8 {
        let head = bytes@.take(8);
        if crate::cache::is_cache_file(bytes@) {
            assert(head == crate::cache::cache_header());
            assert(head[0] == 67 && head[1] == 72 && head[2] == 82 && head[3] == 78 && head[4] == 2
                && head[5] == 0 && head[6] == 0 && head[7] == 0);
        } else if bytes@[0] == 67 && bytes@[1] == 72 && bytes@[2] == 82 && bytes@[3] == 78
            && bytes@[4] == 2 && bytes@[5] == 0 && bytes@[6] == 0 && bytes@[7] == 0 {
            assert(head =~= crate::cache::cache_header());
        }
    }
}

/// The weights of the default policy make up a whole, and each level begins where more
/// functions are left behind than the one below it.
pub proof fn lemma_default_policy_is_balanced(policy: ScoringPolicy)
    requires
        is_default_policy(policy),
    ensures
        ({
            let w = policy.weights;
            let t = policy.thresholds;
            &&& w.cognitive + w.cyclomatic + w.churn + w.churn_recent + w.fan_in + w.loc
                + w.authors + w.coverage_gap == 100
            &&& w.cognitive == 35 && w.churn == 30 && w.cyclomatic == 15 && w.loc == 10
                && w.authors == 10
            &&& t.critical == 95 && t.high == 80 && t.medium == 50
        }),
{
}

/// The message of an error says of what sort it is, and then what caused it.
pub proof fn lemma_messages_name_the_sort(e: UchikomiError, s: String)
    requires
        call_ensures(UchikomiError::message, (&e,), s),
    ensures
        match e {
            UchikomiError::ParseError(cause) => s@ == "Parse error: "@ + cause@,
            UchikomiError::GitError(cause) => s@ == "Git error: "@ + cause@,
            UchikomiError::IoError(cause) => s@ == "IO error: "@ + cause@,
            UchikomiError::CacheError(cause) => s@ == "Cache error: "@ + cause@,
            UchikomiError::SerializationError(cause) => s@ == "Serialization error: "@ + cause@,
            UchikomiError::Other(cause) => s@ == "Error: "@ + cause@,
        },
{
}

} // verus!

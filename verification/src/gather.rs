//! What came of many files, gathered.

use crate::cache::FileCacheEntry;
use crate::git::history::{add_counts, plus};
use crate::order::reversed;
use crate::metrics::{AnalysisWarning, FunctionMetrics, SkippedFile};
use crate::table::{TextMap, TextSet};
use crate::worker::{CacheStats, WorkerOutput};
use vstd::prelude::*;

verus! {

/// What was gathered from some files.
pub struct WorkerAccumulator {
    pub functions: Vec<FunctionMetrics>,
    pub cache_entries: TextMap<FileCacheEntry>,
    pub active_paths: TextSet,
    pub cache_hits: usize,
    pub cache_misses: usize,
    pub warnings: Vec<AnalysisWarning>,
    pub skipped_files: Vec<SkippedFile>,
}

/// What an accumulator holds.
#[verifier::ext_equal]
pub struct Gathered {
    pub functions: Seq<FunctionMetrics>,
    pub cache_entries: Map<Seq<char>, FileCacheEntry>,
    pub active_paths: Set<Seq<char>>,
    pub cache_hits: nat,
    pub cache_misses: nat,
    pub warnings: Seq<AnalysisWarning>,
    pub skipped_files: Seq<SkippedFile>,
}

impl View for WorkerAccumulator {
    type V = Gathered;

    open spec fn view(&self) -> Gathered {
        Gathered {
            functions: self.functions@,
            cache_entries: self.cache_entries@,
            active_paths: self.active_paths@,
            cache_hits: self.cache_hits as nat,
            cache_misses: self.cache_misses as nat,
            warnings: self.warnings@,
            skipped_files: self.skipped_files@,
        }
    }
}

impl Gathered {
    /// Nothing.
    pub open spec fn nothing() -> Gathered {
        Gathered {
            functions: Seq::empty(),
            cache_entries: Map::empty(),
            active_paths: Set::empty(),
            cache_hits: 0,
            cache_misses: 0,
            warnings: Seq::empty(),
            skipped_files: Seq::empty(),
        }
    }

    /// Whether the counts are such as are held.
    pub open spec fn is_counted(self) -> bool {
        self.cache_hits <= usize::MAX && self.cache_misses <= usize::MAX
    }

    /// What came of one file.
    pub open spec fn of(output: WorkerOutput) -> Gathered {
        Gathered {
            functions: output.functions@,
            cache_entries: match output.cache_entry {
                Some((path, entry)) => Map::empty().insert(path@, entry),
                None => Map::empty(),
            },
            active_paths: match output.active_path {
                Some(path) => Set::empty().insert(path@),
                None => Set::empty(),
            },
            cache_hits: output.cache_hit as nat,
            cache_misses: output.cache_miss as nat,
            warnings: output.warnings@,
            skipped_files: output.skipped_files@,
        }
    }

    /// This, followed by what was gathered from other files. Of two cache entries
    /// for a file the later one stays.
    pub open spec fn and(self, more: Gathered) -> Gathered {
        Gathered {
            functions: self.functions + more.functions,
            cache_entries: self.cache_entries.union_prefer_right(more.cache_entries),
            active_paths: self.active_paths.union(more.active_paths),
            cache_hits: plus(self.cache_hits, more.cache_hits),
            cache_misses: plus(self.cache_misses, more.cache_misses),
            warnings: self.warnings + more.warnings,
            skipped_files: self.skipped_files + more.skipped_files,
        }
    }
}

impl WorkerAccumulator {
    /// Nothing.
    pub fn new() -> (acc: WorkerAccumulator)
        ensures
            acc@ == Gathered::nothing(),
            acc.cache_entries.keys() == Seq::<Seq<char>>::empty(),
    {
        WorkerAccumulator {
            functions: Vec::new(),
            cache_entries: TextMap::new(),
            active_paths: TextSet::new(),
            cache_hits: 0,
            cache_misses: 0,
            warnings: Vec::new(),
            skipped_files: Vec::new(),
        }
    }

    /// Adds what came of a file.
    pub fn absorb(&mut self, output: WorkerOutput)
        ensures
            final(self)@ == old(self)@.and(Gathered::of(output)),
    {
        let ghost before = self@;
        let ghost given = Gathered::of(output);
        let WorkerOutput {
            mut functions,
            cache_entry,
            active_path,
            cache_hit,
            cache_miss,
            mut warnings,
            mut skipped_files,
        } = output;
        self.functions.append(&mut functions);
        if let Some((path, entry)) = cache_entry {
            let _replaced = self.cache_entries.insert(path, entry);
        }
        assert(self.cache_entries@ =~= before.cache_entries.union_prefer_right(
            given.cache_entries,
        ));
        if let Some(path) = active_path {
            let _fresh = self.active_paths.insert(path);
        }
        assert(self.active_paths@ =~= before.active_paths.union(given.active_paths));
        self.cache_hits = add_counts(self.cache_hits, cache_hit);
        self.cache_misses = add_counts(self.cache_misses, cache_miss);
        self.warnings.append(&mut warnings);
        self.skipped_files.append(&mut skipped_files);
        assert(self@ =~= before.and(given));
    }

    /// Adds what was gathered from other files.
    pub fn merge(&mut self, other: WorkerAccumulator)
        ensures
            final(self)@ == old(self)@.and(other@),
    {
        let ghost before = self@;
        let ghost given = other@;
        let WorkerAccumulator {
            mut functions,
            cache_entries,
            active_paths,
            cache_hits,
            cache_misses,
            mut warnings,
            mut skipped_files,
        } = other;
        self.functions.append(&mut functions);
        self.cache_entries.extend(cache_entries);
        self.active_paths.absorb(&active_paths);
        self.cache_hits = add_counts(self.cache_hits, cache_hits);
        self.cache_misses = add_counts(self.cache_misses, cache_misses);
        self.warnings.append(&mut warnings);
        self.skipped_files.append(&mut skipped_files);
        assert(self@ =~= before.and(given));
    }

    /// Gathers what came of files, in their order.
    pub fn gather(outputs: Vec<WorkerOutput>) -> (acc: WorkerAccumulator)
        ensures
            acc@ == gathered(outputs@),
    {
        let mut acc = WorkerAccumulator::new();
        let ghost all = outputs@;
        let mut rest = reversed(outputs);
        while rest.len() > 0
            invariant
                rest.len() <= all.len(),
                forall|i: int|
                    0 <= i < rest.len() ==> #[trigger] rest@[i] == all[all.len() - 1 - i],
                acc@ == gathered(all.take(all.len() - rest.len())),
            decreases rest.len(),
        {
            let ghost n = all.len() - rest.len();
            if let Some(output) = rest.pop() {
                acc.absorb(output);
                proof {
                    assert(all.take(n + 1).drop_last() == all.take(n));
                    assert(all.take(n + 1).last() == output);
                }
            }
        }
        assert(all.take(all.len() as int) == all);
        acc
    }

    /// How often the cache could be used.
    pub fn cache_stats(&self) -> (stats: CacheStats)
        ensures
            stats.hits == self@.cache_hits,
            stats.misses == self@.cache_misses,
    {
        CacheStats { hits: self.cache_hits, misses: self.cache_misses }
    }
}

/// What is gathered from files one after the other.
pub open spec fn gathered(outputs: Seq<WorkerOutput>) -> Gathered
    decreases outputs.len(),
{
    if outputs.len() == 0 {
        Gathered::nothing()
    } else {
        gathered(outputs.drop_last()).and(Gathered::of(outputs.last()))
    }
}

/// It does not matter in which groups files are gathered.
pub proof fn lemma_gathering_is_associative(a: Gathered, b: Gathered, c: Gathered)
    ensures
        a.and(b).and(c) == a.and(b.and(c)),
{
    assert(a.and(b).and(c) =~= a.and(b.and(c)));
}

/// What is gathered can be held.
proof fn lemma_gathered_is_counted(outputs: Seq<WorkerOutput>)
    ensures
        gathered(outputs).is_counted(),
    decreases outputs.len(),
{
    if outputs.len() > 0 {
        lemma_gathered_is_counted(outputs.drop_last());
    }
}

/// Files may be gathered in two parts at a time, one after the other or side by
/// side: the parts put together are the whole.
pub proof fn lemma_parts_are_gathered_as_the_whole(a: Seq<WorkerOutput>, b: Seq<WorkerOutput>)
    ensures
        gathered(a + b) == gathered(a).and(gathered(b)),
    decreases b.len(),
{
    if b.len() == 0 {
        lemma_gathered_is_counted(a);
        assert(a + b == a);
        assert(gathered(a).and(Gathered::nothing()) =~= gathered(a));
    } else {
        let rest = b.drop_last();
        lemma_parts_are_gathered_as_the_whole(a, rest);
        assert((a + b).drop_last() == a + rest);
        lemma_gathering_is_associative(gathered(a), gathered(rest), Gathered::of(b.last()));
    }
}

} // verus!

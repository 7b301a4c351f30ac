//! The orders in which functions are told.

use crate::metrics::{AnalysisWarning, FunctionMetrics, Hotspot};
use crate::order::{
    is_stable_sort, lemma_text_le_antisymmetric, lemma_text_le_total, lemma_text_le_transitive,
    stable_sort, text_at_most, text_le, Ranking,
};
use crate::scoring::{risk_of, risk_score};
use crate::text::joined3;
use vstd::prelude::*;

verus! {

/// Whether a function may stand before another by its place: by file, then name,
/// then line.
pub open spec fn location_le(a: FunctionMetrics, b: FunctionMetrics) -> bool {
    if a.file@ != b.file@ {
        text_le(a.file@, b.file@)
    } else if a.name@ != b.name@ {
        text_le(a.name@, b.name@)
    } else {
        a.line <= b.line
    }
}

fn location_at_most(a: &FunctionMetrics, b: &FunctionMetrics) -> (r: bool)
    ensures
        r == location_le(*a, *b),
{
    if !a.file.as_str().eq(b.file.as_str()) {
        text_at_most(a.file.as_str(), b.file.as_str())
    } else if !a.name.as_str().eq(b.name.as_str()) {
        text_at_most(a.name.as_str(), b.name.as_str())
    } else {
        a.line <= b.line
    }
}

proof fn lemma_location_total(a: FunctionMetrics, b: FunctionMetrics)
    ensures
        location_le(a, b) || location_le(b, a),
{
    lemma_text_le_total(a.file@, b.file@);
    lemma_text_le_total(a.name@, b.name@);
}

proof fn lemma_location_transitive(a: FunctionMetrics, b: FunctionMetrics, c: FunctionMetrics)
    requires
        location_le(a, b),
        location_le(b, c),
    ensures
        location_le(a, c),
{
    if a.file@ != b.file@ && b.file@ != c.file@ {
        lemma_text_le_transitive(a.file@, b.file@, c.file@);
        if a.file@ == c.file@ {
            lemma_text_le_antisymmetric(a.file@, b.file@);
        }
    }
    if a.file@ == b.file@ && b.file@ == c.file@ {
        if a.name@ != b.name@ && b.name@ != c.name@ {
            lemma_text_le_transitive(a.name@, b.name@, c.name@);
            if a.name@ == c.name@ {
                lemma_text_le_antisymmetric(a.name@, b.name@);
            }
        }
    }
}

/// What functions are sorted by.
#[derive(Clone, Copy, Debug, PartialEq, Eq, Structural)]
pub enum SortKey {
    Location,
    Churn,
    Risk,
    Cognitive,
    Cyclomatic,
    LinesOfCode,
}

/// What a word says to sort by.
pub open spec fn sort_key(word: Seq<char>) -> Option<SortKey> {
    if word == "file"@ || word == "location"@ {
        Some(SortKey::Location)
    } else if word == "churn_score"@ || word == "churn"@ {
        Some(SortKey::Churn)
    } else if word == "risk"@ || word == "risk_score"@ {
        Some(SortKey::Risk)
    } else if word == "cognitive"@ || word == "cognitive_complexity"@ {
        Some(SortKey::Cognitive)
    } else if word == "cyclomatic"@ || word == "cyclomatic_complexity"@ {
        Some(SortKey::Cyclomatic)
    } else if word == "loc"@ || word == "lines_of_code"@ {
        Some(SortKey::LinesOfCode)
    } else {
        None
    }
}

impl SortKey {
    /// What a word says to sort by.
    pub fn from_word(sort_by: &str) -> (key: Option<SortKey>)
        ensures
            key == sort_key(sort_by@),
    {
        if sort_by.eq("file") || sort_by.eq("location") {
            Some(SortKey::Location)
        } else if sort_by.eq("churn_score") || sort_by.eq("churn") {
            Some(SortKey::Churn)
        } else if sort_by.eq("risk") || sort_by.eq("risk_score") {
            Some(SortKey::Risk)
        } else if sort_by.eq("cognitive") || sort_by.eq("cognitive_complexity") {
            Some(SortKey::Cognitive)
        } else if sort_by.eq("cyclomatic") || sort_by.eq("cyclomatic_complexity") {
            Some(SortKey::Cyclomatic)
        } else if sort_by.eq("loc") || sort_by.eq("lines_of_code") {
            Some(SortKey::LinesOfCode)
        } else {
            None
        }
    }

    /// The number that a function is sorted by.
    pub open spec fn measure(self, f: FunctionMetrics) -> int {
        match self {
            SortKey::Location => 0,
            SortKey::Churn => f.churn_score.key(),
            SortKey::Risk => risk_of(f).key(),
            SortKey::Cognitive => f.cognitive_complexity as int,
            SortKey::Cyclomatic => f.cyclomatic_complexity as int,
            SortKey::LinesOfCode => f.lines_of_code as int,
        }
    }

    /// Whether one function measures more than another, and whether it measures less.
    fn compare(&self, a: &FunctionMetrics, b: &FunctionMetrics) -> (r: (bool, bool))
        ensures
            r.0 == (self.measure(*a) > self.measure(*b)),
            r.1 == (self.measure(*a) < self.measure(*b)),
    {
        match self {
            SortKey::Location => (false, false),
            SortKey::Churn => (
                !a.churn_score.at_most(b.churn_score),
                !b.churn_score.at_most(a.churn_score),
            ),
            SortKey::Risk => {
                let x = risk_score(a);
                let y = risk_score(b);
                (!x.at_most(y), !y.at_most(x))
            },
            SortKey::Cognitive => (
                a.cognitive_complexity > b.cognitive_complexity,
                a.cognitive_complexity < b.cognitive_complexity,
            ),
            SortKey::Cyclomatic => (
                a.cyclomatic_complexity > b.cyclomatic_complexity,
                a.cyclomatic_complexity < b.cyclomatic_complexity,
            ),
            SortKey::LinesOfCode => (
                a.lines_of_code > b.lines_of_code,
                a.lines_of_code < b.lines_of_code,
            ),
        }
    }
}

impl Ranking<FunctionMetrics> for SortKey {
    /// The larger measure first; of equal measures, by place.
    open spec fn at_most(&self, a: FunctionMetrics, b: FunctionMetrics) -> bool {
        if self.measure(a) != self.measure(b) {
            self.measure(a) > self.measure(b)
        } else {
            location_le(a, b)
        }
    }

    proof fn lemma_total(&self, a: FunctionMetrics, b: FunctionMetrics) {
        lemma_location_total(a, b);
    }

    proof fn lemma_transitive(&self, a: FunctionMetrics, b: FunctionMetrics, c: FunctionMetrics) {
        if self.measure(a) == self.measure(b) && self.measure(b) == self.measure(c) {
            lemma_location_transitive(a, b, c);
        }
    }

    fn in_order(&self, a: &FunctionMetrics, b: &FunctionMetrics) -> (r: bool) {
        let (more, less) = self.compare(a, b);
        if more {
            true
        } else if less {
            false
        } else {
            location_at_most(a, b)
        }
    }
}

/// What a word says to sort by, which is the place where it says nothing.
pub open spec fn effective_key(sort_by: Seq<char>) -> SortKey {
    match sort_key(sort_by) {
        Some(key) => key,
        None => SortKey::Location,
    }
}

/// Whether a warning says that a word cannot be sorted by.
pub open spec fn is_unsupported_sort(w: AnalysisWarning, sort_by: Seq<char>) -> bool {
    &&& w.code@ == "unsupported_sort"@
    &&& w.message@ == "Unsupported sort field '"@ + sort_by + "'. Falling back to file order."@
}

/// Sorts functions by what a word says.
pub fn sort_functions(
    functions: &mut Vec<FunctionMetrics>,
    sort_by: &str,
    warnings: &mut Vec<AnalysisWarning>,
)
    ensures
        is_stable_sort(&effective_key(sort_by@), old(functions)@, final(functions)@),
        if sort_key(sort_by@) is Some {
            final(warnings)@ == old(warnings)@
        } else {
            &&& final(warnings)@.len() == old(warnings)@.len() + 1
            &&& final(warnings)@.drop_last() == old(warnings)@
            &&& is_unsupported_sort(final(warnings)@.last(), sort_by@)
        },
{
    let mut taken: Vec<FunctionMetrics> = Vec::new();
    std::mem::swap(&mut taken, functions);
    match SortKey::from_word(sort_by) {
        Some(key) => {
            let mut sorted = stable_sort(&key, taken);
            std::mem::swap(&mut sorted, functions);
        },
        None => {
            let ghost before = warnings@;
            warnings.push(
                AnalysisWarning {
                    code: "unsupported_sort".to_string(),
                    message: joined3(
                        "Unsupported sort field '",
                        sort_by,
                        "'. Falling back to file order.",
                    ),
                },
            );
            assert(warnings@.drop_last() == before);
            let mut sorted = stable_sort(&SortKey::Location, taken);
            std::mem::swap(&mut sorted, functions);
        },
    }
}

/// Whether two functions stand at the same place.
pub open spec fn same_place(a: FunctionMetrics, b: FunctionMetrics) -> bool {
    a.file@ == b.file@ && a.name@ == b.name@ && a.line == b.line
}

/// Functions are told in the same order whatever order their files were read in,
/// unless two of them stand at the same place.
pub proof fn lemma_order_ignores_arrival(
    key: SortKey,
    a: Seq<FunctionMetrics>,
    b: Seq<FunctionMetrics>,
    order: Seq<int>,
    x: Seq<FunctionMetrics>,
    y: Seq<FunctionMetrics>,
)
    requires
        crate::order::is_arrangement(order, a.len()),
        b.len() == a.len(),
        forall|i: int| 0 <= i < b.len() ==> #[trigger] b[i] == a[order[i]],
        forall|i: int, j: int|
            #![trigger a[i], a[j]]
            0 <= i < j < a.len() ==> !same_place(a[i], a[j]),
        is_stable_sort(&key, a, x),
        is_stable_sort(&key, b, y),
    ensures
        x == y,
{
    assert forall|i: int, j: int|
        #![trigger a[i], a[j]]
        0 <= i < j < a.len() implies !(key.at_most(a[i], a[j]) && key.at_most(a[j], a[i])) by {
        if key.at_most(a[i], a[j]) && key.at_most(a[j], a[i]) {
            if a[i].file@ != a[j].file@ {
                lemma_text_le_antisymmetric(a[i].file@, a[j].file@);
            } else if a[i].name@ != a[j].name@ {
                lemma_text_le_antisymmetric(a[i].name@, a[j].name@);
            }
            assert(same_place(a[i], a[j]));
        }
    }
    crate::order::lemma_sort_ignores_arrival(&key, a, b, order, x, y);
}

/// Keeps no more than so many functions.
pub fn apply_function_limit(functions: &mut Vec<FunctionMetrics>, limit: Option<usize>)
    ensures
        final(functions)@ == match limit {
            Some(n) => if n < old(functions)@.len() {
                old(functions)@.take(n as int)
            } else {
                old(functions)@
            },
            None => old(functions)@,
        },
{
    if let Some(n) = limit {
        functions.truncate(n);
    }
}

/// Hotspots by risk, churn and complexity, the largest first, then by place.
pub struct HotspotOrder;

/// Whether one hotspot may stand before another.
pub open spec fn hotspot_le(a: Hotspot, b: Hotspot) -> bool {
    if a.risk_score.key() != b.risk_score.key() {
        a.risk_score.key() > b.risk_score.key()
    } else if a.churn_score.key() != b.churn_score.key() {
        a.churn_score.key() > b.churn_score.key()
    } else if a.cognitive_complexity != b.cognitive_complexity {
        a.cognitive_complexity > b.cognitive_complexity
    } else if a.file@ != b.file@ {
        text_le(a.file@, b.file@)
    } else {
        a.line <= b.line
    }
}

impl Ranking<Hotspot> for HotspotOrder {
    open spec fn at_most(&self, a: Hotspot, b: Hotspot) -> bool {
        hotspot_le(a, b)
    }

    proof fn lemma_total(&self, a: Hotspot, b: Hotspot) {
        lemma_text_le_total(a.file@, b.file@);
    }

    proof fn lemma_transitive(&self, a: Hotspot, b: Hotspot, c: Hotspot) {
        if a.file@ != b.file@ && b.file@ != c.file@ && text_le(a.file@, b.file@) && text_le(
            b.file@,
            c.file@,
        ) {
            lemma_text_le_transitive(a.file@, b.file@, c.file@);
            if a.file@ == c.file@ {
                lemma_text_le_antisymmetric(a.file@, b.file@);
            }
        }
    }

    fn in_order(&self, a: &Hotspot, b: &Hotspot) -> (r: bool) {
        if !a.risk_score.at_most(b.risk_score) {
            return true;
        }
        if !b.risk_score.at_most(a.risk_score) {
            return false;
        }
        if !a.churn_score.at_most(b.churn_score) {
            return true;
        }
        if !b.churn_score.at_most(a.churn_score) {
            return false;
        }
        if a.cognitive_complexity != b.cognitive_complexity {
            return a.cognitive_complexity > b.cognitive_complexity;
        }
        if !a.file.as_str().eq(b.file.as_str()) {
            return text_at_most(a.file.as_str(), b.file.as_str());
        }
        a.line <= b.line
    }
}

/// A function as a hotspot.
pub open spec fn hotspot_of(f: FunctionMetrics) -> Hotspot {
    Hotspot {
        id: f.id,
        name: f.name,
        file: f.file,
        line: f.line,
        risk_score: risk_of(f),
        churn_score: f.churn_score,
        cognitive_complexity: f.cognitive_complexity,
    }
}

/// Functions as hotspots.
pub open spec fn hotspots_of(functions: Seq<FunctionMetrics>) -> Seq<Hotspot> {
    functions.map_values(|f: FunctionMetrics| hotspot_of(f))
}

/// Whether these are the hotspots of some functions: the first five in order.
pub open spec fn are_hotspots(hotspots: Seq<Hotspot>, functions: Seq<FunctionMetrics>) -> bool {
    exists|sorted: Seq<Hotspot>| #[trigger]
        is_stable_sort(&HotspotOrder, hotspots_of(functions), sorted) && hotspots == if sorted.len() > 5 {
            sorted.take(5)
        } else {
            sorted
        }
}

/// The functions of the highest risk.
pub fn top_hotspots(functions: &Vec<FunctionMetrics>) -> (hotspots: Vec<Hotspot>)
    ensures
        are_hotspots(hotspots@, functions@),
{
    let ghost wanted = hotspots_of(functions@);
    let mut list: Vec<Hotspot> = Vec::new();
    for i in 0..functions.len()
        invariant
            wanted == hotspots_of(functions@),
            list@ == wanted.take(i as int),
    {
        let f = &functions[i];
        list.push(
            Hotspot {
                id: f.id.clone(),
                name: f.name.clone(),
                file: f.file.clone(),
                line: f.line,
                risk_score: risk_score(f),
                churn_score: f.churn_score,
                cognitive_complexity: f.cognitive_complexity,
            },
        );
        assert(wanted.take(i + 1) == wanted.take(i as int).push(wanted[i as int]));
    }
    assert(wanted.take(functions.len() as int) == wanted);
    let mut sorted = stable_sort(&HotspotOrder, list);
    let ghost all = sorted@;
    assert(is_stable_sort(&HotspotOrder, wanted, all));
    sorted.truncate(5);
    assert(sorted@ == if all.len() > 5 {
        all.take(5)
    } else {
        all
    });
    sorted
}

} // verus!

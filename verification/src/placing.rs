//! The order in which functions are shown, and which of them are.

use crate::liveness::{comes_first, lemma_first_difference};
use crate::metrics::{FunctionMetrics, Hotspot};
use crate::order::{is_stable_arrangement, is_stable_sort, lemma_arrangement_covers};
use crate::ranking::{are_hotspots, effective_key, hotspots_of, HotspotOrder};
use crate::score::Score;
use vstd::prelude::*;

verus! {

/// The risk of a function, which is zero where it is not known.
pub open spec fn final_risk(f: FunctionMetrics) -> Score {
    if f.risk is Some {
        f.risk->0.final_score
    } else {
        Score { bits: 0 }
    }
}

/// The number that functions are sorted by under a word, the largest first.
pub open spec fn number_for(word: Seq<char>, f: FunctionMetrics) -> int {
    if word == "churn"@ || word == "churn_score"@ {
        f.churn_score.key()
    } else if word == "risk"@ || word == "risk_score"@ {
        final_risk(f).key()
    } else if word == "cognitive"@ || word == "cognitive_complexity"@ {
        f.cognitive_complexity as int
    } else if word == "cyclomatic"@ || word == "cyclomatic_complexity"@ {
        f.cyclomatic_complexity as int
    } else if word == "loc"@ || word == "lines_of_code"@ {
        f.lines_of_code as int
    } else {
        0
    }
}

/// Whether a function may stand before another by its file, then its name, then its
/// line.
pub open spec fn stands_first(a: FunctionMetrics, b: FunctionMetrics) -> bool {
    ||| comes_first(a.file@, b.file@)
    ||| a.file@ == b.file@ && comes_first(a.name@, b.name@)
    ||| a.file@ == b.file@ && a.name@ == b.name@ && a.line <= b.line
}

proof fn lemma_words_apart()
    ensures
        "churn"@ != "file"@,
        "churn"@ != "location"@,
        "churn_score"@ != "file"@,
        "churn_score"@ != "location"@,
        "risk"@ != "file"@,
        "risk"@ != "location"@,
        "risk_score"@ != "file"@,
        "risk_score"@ != "location"@,
        "cognitive"@ != "file"@,
        "cognitive"@ != "location"@,
        "cognitive_complexity"@ != "file"@,
        "cognitive_complexity"@ != "location"@,
        "cyclomatic"@ != "file"@,
        "cyclomatic"@ != "location"@,
        "cyclomatic_complexity"@ != "file"@,
        "cyclomatic_complexity"@ != "location"@,
        "loc"@ != "file"@,
        "loc"@ != "location"@,
        "lines_of_code"@ != "file"@,
        "lines_of_code"@ != "location"@,
{
    reveal_strlit("file");
    reveal_strlit("location");
    reveal_strlit("churn");
    reveal_strlit("churn_score");
    reveal_strlit("risk");
    reveal_strlit("risk_score");
    reveal_strlit("cognitive");
    reveal_strlit("cognitive_complexity");
    reveal_strlit("cyclomatic");
    reveal_strlit("cyclomatic_complexity");
    reveal_strlit("loc");
    reveal_strlit("lines_of_code");
    assert("file"@.len() == 4 && "file"@[0] == 'f');
    assert("risk"@[0] == 'r');
    assert("location"@.len() == 8);
    assert("churn"@.len() == 5 && "churn_score"@.len() == 11 && "risk_score"@.len() == 10);
    assert("cognitive"@.len() == 9 && "cognitive_complexity"@.len() == 20);
    assert("cyclomatic"@.len() == 10 && "cyclomatic_complexity"@.len() == 21);
    assert("loc"@.len() == 3 && "lines_of_code"@.len() == 13);
}

/// Functions that are sorted by a word stand with the largest number first, and where
/// the numbers are the same by file, name and line. None is lost and none comes twice.
pub proof fn lemma_word_says_the_order(
    word: Seq<char>,
    before: Seq<FunctionMetrics>,
    after: Seq<FunctionMetrics>,
) -> (places: Seq<int>)
    requires
        is_stable_sort(&effective_key(word), before, after),
    ensures
        after.len() == before.len() == places.len(),
        forall|k: int|
            #![trigger places[k]]
            0 <= k < after.len() ==> 0 <= places[k] < before.len() && after[k]
                == before[places[k]],
        forall|k: int, l: int|
            #![trigger places[k], places[l]]
            0 <= k < l < after.len() ==> places[k] != places[l],
        forall|i: int| 0 <= i < before.len() ==> #[trigger] places.contains(i),
        forall|k: int, l: int|
            #![trigger after[k], after[l]]
            0 <= k < l < after.len() ==> {
                let a = number_for(word, after[k]);
                let b = number_for(word, after[l]);
                a > b || a == b && stands_first(after[k], after[l])
            },
{
    let key = effective_key(word);
    let order = choose|order: Seq<int>| is_stable_arrangement(&key, before, after, order);
    lemma_words_apart();
    assert forall|k: int, l: int|
        #![trigger after[k], after[l]]
        0 <= k < l < after.len() implies {
        let a = number_for(word, after[k]);
        let b = number_for(word, after[l]);
        a > b || a == b && stands_first(after[k], after[l])
    } by {
        let x = after[k];
        let y = after[l];
        assert(crate::order::Ranking::at_most(&key, x, y));
        assert(number_for(word, x) == key.measure(x));
        assert(number_for(word, y) == key.measure(y));
        lemma_first_difference(x.file@, y.file@);
        lemma_first_difference(x.name@, y.name@);
    }
    assert forall|i: int| 0 <= i < before.len() implies #[trigger] order.contains(i) by {
        lemma_arrangement_covers(order, before.len(), i);
    }
    assert forall|k: int| 0 <= k < after.len() implies 0 <= #[trigger] order[k] < before.len()
        && after[k] == before[order[k]] by {}
    order
}

/// Whether a function is a worse spot than another: by risk, then churn, then cognitive
/// complexity, then by standing earlier in the order of files and lines.
pub open spec fn is_worse(a: FunctionMetrics, b: FunctionMetrics) -> bool {
    ||| final_risk(a).key() > final_risk(b).key()
    ||| final_risk(a).key() == final_risk(b).key() && {
        ||| a.churn_score.key() > b.churn_score.key()
        ||| a.churn_score.key() == b.churn_score.key() && {
            ||| a.cognitive_complexity > b.cognitive_complexity
            ||| a.cognitive_complexity == b.cognitive_complexity && {
                ||| comes_first(a.file@, b.file@)
                ||| a.file@ == b.file@ && a.line < b.line
            }
        }
    }
}

/// Whether a hotspot tells a function.
pub open spec fn is_spot(h: Hotspot, f: FunctionMetrics) -> bool {
    &&& h.id == f.id
    &&& h.name == f.name
    &&& h.file == f.file
    &&& h.line == f.line
    &&& h.risk_score == final_risk(f)
    &&& h.churn_score == f.churn_score
    &&& h.cognitive_complexity == f.cognitive_complexity
}

/// The hotspots are the five worst functions, or all where there are fewer, the worst
/// first: none that is left out is worse than one that is told.
pub proof fn lemma_hotspots_are_the_worst(
    hotspots: Seq<Hotspot>,
    functions: Seq<FunctionMetrics>,
) -> (places: Seq<int>)
    requires
        are_hotspots(hotspots, functions),
    ensures
        hotspots.len() == if functions.len() < 5 {
            functions.len()
        } else {
            5
        },
        places.len() == hotspots.len(),
        forall|k: int|
            #![trigger places[k]]
            0 <= k < places.len() ==> 0 <= places[k] < functions.len() && is_spot(
                hotspots[k],
                functions[places[k]],
            ),
        forall|k: int, l: int|
            #![trigger places[k], places[l]]
            0 <= k < l < places.len() ==> places[k] != places[l] && !is_worse(
                functions[places[l]],
                functions[places[k]],
            ),
        forall|i: int, k: int|
            #![trigger functions[i], places[k]]
            0 <= i < functions.len() && !places.contains(i) && 0 <= k < places.len()
                ==> !is_worse(functions[i], functions[places[k]]),
{
    let all = hotspots_of(functions);
    let sorted = choose|sorted: Seq<Hotspot>| #[trigger]
        is_stable_sort(&HotspotOrder, all, sorted) && hotspots == if sorted.len() > 5 {
            sorted.take(5)
        } else {
            sorted
        };
    let order = choose|order: Seq<int>| is_stable_arrangement(&HotspotOrder, all, sorted, order);
    let n = hotspots.len() as int;
    let places = order.take(n);
    assert forall|k: int| 0 <= k < functions.len() implies 0 <= #[trigger] order[k]
        < functions.len() && is_spot(sorted[k], functions[order[k]]) by {
        assert(sorted[k] == all[order[k]]);
    }
    assert forall|k: int, l: int|
        #![trigger order[k], order[l]]
        0 <= k < l < functions.len() implies !is_worse(
        functions[order[l]],
        functions[order[k]],
    ) by {
        let x = sorted[k];
        let y = sorted[l];
        assert(crate::order::Ranking::at_most(&HotspotOrder, x, y));
        assert(is_spot(x, functions[order[k]]));
        assert(is_spot(y, functions[order[l]]));
        lemma_first_difference(x.file@, y.file@);
        lemma_first_difference(y.file@, x.file@);
        if crate::order::text_le(x.file@, y.file@) && crate::order::text_le(y.file@, x.file@) {
            crate::order::lemma_text_le_antisymmetric(x.file@, y.file@);
        }
    }
    assert forall|i: int, k: int|
        #![trigger functions[i], places[k]]
        0 <= i < functions.len() && !places.contains(i) && 0 <= k < places.len() implies !is_worse(
        functions[i],
        functions[places[k]],
    ) by {
        lemma_arrangement_covers(order, all.len(), i);
        let l = choose|l: int| 0 <= l < order.len() && order[l] == i;
        if l < n {
            assert(places[l] == i);
        }
        assert(order[k] == places[k]);
        assert(!is_worse(functions[order[l]], functions[order[k]]));
    }
    assert forall|k: int| 0 <= k < places.len() implies 0 <= #[trigger] places[k]
        < functions.len() && is_spot(hotspots[k], functions[places[k]]) by {
        assert(places[k] == order[k]);
    }
    assert forall|k: int, l: int|
        #![trigger places[k], places[l]]
        0 <= k < l < places.len() implies places[k] != places[l] && !is_worse(
        functions[places[l]],
        functions[places[k]],
    ) by {
        assert(places[k] == order[k] && places[l] == order[l]);
    }
    places
}

} // verus!

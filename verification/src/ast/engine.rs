//! Measures every function of a syntax tree.

use super::calls::{
    collect_call_names, count_body, identifier_bytes_before, identifiers_before, mentioned,
    statements_before,
};
use super::complexity::{
    cognitive_of, cyclomatic_of, deepest_of, is_tally, lemma_function_bounds, tally_nodes, Tally,
};
use super::quality::{
    comment_lines, count_lines, count_placeholders, docstring_bytes, documentation_grade,
    documentation_quality, filled_lines, hollow_grade, hollow_kind, leading_docstring_chars,
    placeholders,
};
use super::reach::{initial_kind, initial_reachability_kind};
use super::source::{slice_text, text_or_nothing};
use super::tree::{
    children_of, end_of, first_where, in_range, is_preorder, places, NodeFacts, SyntaxTree,
};
use super::{LanguageSupport, Rules};
use crate::digest::{digest_of, stable_hash_hex};
use crate::error::UchikomiError;
use crate::metrics::{
    ChurnDetails, CouplingMetrics, FunctionMetrics, ReachabilityMetrics,
};
use crate::score::{Ratio, Score};
use crate::table::ascending;
use crate::text::{chars_of, join, join_with, joined3, lines_of, views, words, words_of};
use vstd::prelude::*;
use vstd::utf8::encode_utf8;

verus! {

/// Whether a node is the body of something.
pub open spec fn is_body(node: NodeFacts) -> bool {
    node.kind == "statement_block"@ || node.kind == "block"@ || node.kind == "compound_statement"@
        || node.kind == "declaration_list"@
}

/// Where the signature of the function at `f` ends.
pub open spec fn signature_end(t: Seq<NodeFacts>, f: int) -> nat {
    match first_where(t, children_of(t, f), |n: NodeFacts| is_body(n)) {
        Some(body) => t[body].start_byte,
        None => t[f].end_byte,
    }
}

/// The signature of the function at `f`, with one blank between its words.
pub open spec fn signature_of(t: Seq<NodeFacts>, f: int, source: Seq<char>) -> Seq<char> {
    join_with(words_of(text_or_nothing(source, t[f].start_byte, signature_end(t, f))), seq![' '])
}

/// The function nodes among the first `n` nodes, in order.
pub open spec fn functions_before(t: Seq<NodeFacts>, rules: Rules, n: int) -> Seq<int>
    decreases n,
{
    if n <= 0 {
        seq![]
    } else if (rules.function)(t[n - 1].kind) {
        functions_before(t, rules, n - 1).push(n - 1)
    } else {
        functions_before(t, rules, n - 1)
    }
}

/// The function nodes of a tree, in order.
pub open spec fn functions_of(t: Seq<NodeFacts>, rules: Rules) -> Seq<int> {
    functions_before(t, rules, t.len() as int)
}

/// The text of the function at `f`.
pub open spec fn function_text(t: Seq<NodeFacts>, f: int, source: Seq<char>) -> Seq<char> {
    text_or_nothing(source, t[f].start_byte, t[f].end_byte)
}

/// How a function is identified: by its file, its name, and its signature.
pub open spec fn function_id(
    t: Seq<NodeFacts>,
    rules: Rules,
    f: int,
    source: Seq<char>,
    file: Seq<char>,
) -> Seq<char> {
    file + seq![':'] + (rules.name)(t, f, source) + seq![':'] + digest_of(
        encode_utf8(signature_of(t, f, source)),
    )
}

/// Whether the metrics tell how complex the function at `f` is, and where it is.
pub open spec fn tells_complexity(
    m: FunctionMetrics,
    t: Seq<NodeFacts>,
    rules: Rules,
    f: int,
    source: Seq<char>,
    file: Seq<char>,
) -> bool {
    &&& m.id@ == function_id(t, rules, f, source, file)
    &&& m.name@ == (rules.name)(t, f, source)
    &&& m.file@ == file
    &&& m.line == t[f].start_row + 1
    &&& m.end_line == t[f].end_row + 1
    &&& m.cyclomatic_complexity == cyclomatic_of(t, rules, f)
    &&& m.cognitive_complexity == cognitive_of(t, rules, f)
    &&& m.nesting_depth == deepest_of(t, rules, f)
    &&& m.lines_of_code == t[f].end_row - t[f].start_row + 1
}

/// Whether the metrics tell of what quality the function at `f` is.
pub open spec fn tells_quality(
    m: FunctionMetrics,
    t: Seq<NodeFacts>,
    rules: Rules,
    f: int,
    source: Seq<char>,
) -> bool {
    let text = function_text(t, f, source);
    let end = end_of(t, f);
    &&& m.body_hash@ == digest_of(encode_utf8(text))
    &&& m.executable_statements == statements_before(t, rules, f, end)
    &&& m.is_hollow == (statements_before(t, rules, f, end) == 0)
    &&& m.hollow_kind@ == hollow_grade(m.is_hollow, comment_lines(lines_of(text)))
    &&& m.comment_ratio.numerator == comment_lines(lines_of(text))
    &&& m.comment_ratio.denominator == filled_lines(lines_of(text))
    &&& m.placeholder_count == placeholders(text)
    &&& m.has_docstring == (docstring_bytes(t, f, source) > 0)
    &&& m.documentation_quality@ == documentation_grade(
        docstring_bytes(t, f, source),
        cognitive_of(t, rules, f),
    )
    &&& m.identifier_verbosity.numerator == identifier_bytes_before(t, rules, source, f, end)
    &&& m.identifier_verbosity.denominator == identifiers_before(t, rules, source, f, end)
}

/// Whether the metrics tell what the function at `f` mentions, and what is known
/// at first of who reaches it.
pub open spec fn tells_surroundings(
    m: FunctionMetrics,
    t: Seq<NodeFacts>,
    rules: Rules,
    f: int,
    source: Seq<char>,
) -> bool {
    &&& ascending(views(m.coupling.callees@))
    &&& forall|name: Seq<char>| #[trigger]
        views(m.coupling.callees@).contains(name) <==> mentioned(t, rules, source, f, name)
    &&& m.coupling.callers@.len() == 0
    &&& m.coupling.fan_in == 0
    &&& m.coupling.fan_out == 0
    &&& m.coupling.instability == Ratio { numerator: 0, denominator: 0 }
    &&& !m.reachability.is_reachable
    &&& m.reachability.kind@ == initial_kind(t, f, source)
}

/// Whether nothing is told yet that takes more than the source.
pub open spec fn tells_no_more(m: FunctionMetrics) -> bool {
    &&& m.times_modified == 0
    &&& m.bug_fix_commits == 0
    &&& m.authors_count == 0
    &&& m.authors is None
    &&& m.churn.is_none()
    &&& m.churn_score.bits == 0
    &&& m.coverage is None
    &&& m.normalized is None
    &&& m.risk is None
    &&& m.percentile is None
}

/// Whether the metrics are those of the function at `f`.
pub open spec fn describes(
    m: FunctionMetrics,
    t: Seq<NodeFacts>,
    rules: Rules,
    f: int,
    source: Seq<char>,
    file: Seq<char>,
) -> bool {
    &&& tells_complexity(m, t, rules, f, source, file)
    &&& tells_quality(m, t, rules, f, source)
    &&& tells_surroundings(m, t, rules, f, source)
    &&& tells_no_more(m)
}

/// Whether the cognitive complexity of every function can be told.
pub open spec fn is_measurable(t: Seq<NodeFacts>, rules: Rules) -> bool {
    forall|k: int|
        0 <= k < functions_of(t, rules).len() ==> cognitive_of(
            t,
            rules,
            #[trigger] functions_of(t, rules)[k],
        ) <= u32::MAX
}

/// Whether the list holds the metrics of all functions of a tree, in order.
pub open spec fn describes_all(
    list: Seq<FunctionMetrics>,
    t: Seq<NodeFacts>,
    rules: Rules,
    source: Seq<char>,
    file: Seq<char>,
) -> bool {
    &&& list.len() == functions_of(t, rules).len()
    &&& forall|k: int|
        0 <= k < list.len() ==> describes(
            #[trigger] list[k],
            t,
            rules,
            functions_of(t, rules)[k],
            source,
            file,
        )
}

/// What is told where a function is too complex to be measured.
pub open spec fn too_complex(file: Seq<char>) -> Seq<char> {
    "Failed to parse "@ + file + ": complexity out of range"@
}

/// Measures the functions of one file.
pub struct ComplexityEngine<'a, L: LanguageSupport + ?Sized> {
    source: &'a str,
    file_path: &'a str,
    support: &'a L,
}

impl<'a, L: LanguageSupport + ?Sized> ComplexityEngine<'a, L> {
    /// The source text.
    pub closed spec fn text(&self) -> Seq<char> {
        self.source@
    }

    /// The path of the file.
    pub closed spec fn path(&self) -> Seq<char> {
        self.file_path@
    }

    /// The rules of the language.
    pub closed spec fn rules(&self) -> Rules {
        self.support.rules()
    }

    /// An engine for a source text.
    pub fn new(source: &'a str, file_path: &'a str, support: &'a L) -> (engine: Self)
        ensures
            engine.text() == source@,
            engine.path() == file_path@,
            engine.rules() == support.rules(),
    {
        ComplexityEngine { source, file_path, support }
    }

    /// Measures all functions of the tree of the source text.
    pub fn analyze(&self, tree: &SyntaxTree) -> (r: Result<Vec<FunctionMetrics>, UchikomiError>)
        ensures
            match r {
                Ok(list) => is_measurable(tree@, self.rules()) && describes_all(
                    list@,
                    tree@,
                    self.rules(),
                    self.text(),
                    self.path(),
                ),
                Err(e) => !is_measurable(tree@, self.rules()) && e is ParseError && e.cause()
                    == too_complex(self.path()),
            },
    {
        let ghost t = tree@;
        let ghost rules = self.rules();
        let n = tree.len();
        let tallies = tally_nodes(tree, self.support);
        let mut list: Vec<FunctionMetrics> = Vec::new();
        let ghost mut done: Seq<int> = seq![];
        for f in 0..n
            invariant
                t == tree@,
                rules == self.rules(),
                n == t.len(),
                is_preorder(t),
                in_range(t),
                tallies.len() == n,
                forall|i: int|
                    0 <= i < n ==> is_tally(t, rules, #[trigger] tallies@[i], i, n as int),
                done == functions_before(t, rules, f as int),
                list.len() == done.len(),
                forall|k: int|
                    0 <= k < list.len() ==> describes(
                        #[trigger] list@[k],
                        t,
                        rules,
                        done[k],
                        self.text(),
                        self.path(),
                    ),
                forall|k: int|
                    0 <= k < done.len() ==> cognitive_of(t, rules, #[trigger] done[k]) <= u32::MAX,
        {
            if self.support.is_function(tree.node(f)) {
                assert(is_tally(t, rules, tallies@[f as int], f as int, n as int));
                proof {
                    lemma_function_bounds(t, rules, tallies@[f as int], f as int);
                    lemma_functions_prefix(t, rules, f + 1, n as int);
                }
                if tallies[f].cognitive > u32::MAX as u64 {
                    let ghost all = functions_of(t, rules);
                    let ghost k = done.len() as int;
                    assert(functions_before(t, rules, f + 1)[k] == f);
                    assert(all[k] == f);
                    return Err(UchikomiError::ParseError(
                        joined3("Failed to parse ", self.file_path, ": complexity out of range"),
                    ));
                }
                let ghost before = list@;
                let metrics = self.measure(tree, &tallies, f);
                list.push(metrics);
                proof {
                    let old_done = done;
                    done = done.push(f as int);
                    assert forall|k: int| 0 <= k < list.len() implies describes(
                        #[trigger] list@[k],
                        t,
                        rules,
                        done[k],
                        self.text(),
                        self.path(),
                    ) by {
                        if k < before.len() {
                            assert(list@[k] == before[k]);
                            assert(done[k] == old_done[k]);
                        }
                    }
                    assert forall|k: int| 0 <= k < done.len() implies cognitive_of(
                        t,
                        rules,
                        #[trigger] done[k],
                    ) <= u32::MAX by {
                        if k < old_done.len() {
                            assert(done[k] == old_done[k]);
                        }
                    }
                }
            }
        }
        assert(done == functions_of(t, rules));
        Ok(list)
    }

    /// Measures the function at a node.
    fn measure(&self, tree: &SyntaxTree, tallies: &Vec<Tally>, f: usize) -> (m: FunctionMetrics)
        requires
            f < tree@.len(),
            (self.rules().function)(tree@[f as int].kind),
            tallies.len() == tree@.len(),
            forall|i: int|
                0 <= i < tallies.len() ==> is_tally(
                    tree@,
                    self.rules(),
                    #[trigger] tallies@[i],
                    i,
                    tree@.len() as int,
                ),
            cognitive_of(tree@, self.rules(), f as int) <= u32::MAX,
        ensures
            describes(m, tree@, self.rules(), f as int, self.text(), self.path()),
    {
        let ghost t = tree@;
        let ghost rules = self.rules();
        let n = tree.len();
        proof {
            assert(is_tally(t, rules, tallies@[f as int], f as int, n as int));
            lemma_function_bounds(t, rules, tallies@[f as int], f as int);
            reveal(is_tally);
        }
        let node = tree.node(f);
        let line: u32 = node.start_row as u32 + 1;
        let end_line: u32 = node.end_row as u32 + 1;
        let cognitive: u32 = tallies[f].cognitive as u32;
        let cyclomatic: u32 = tallies[f].cyclomatic as u32 + 1;
        let nesting_depth: u32 = tallies[f].deepest as u32;
        let name = self.support.extract_name(tree, f, self.source);
        let id = self.identify(tree, f, name.as_str());
        let text = self.text_or_empty(node.start_byte, node.end_byte);
        let body_hash = stable_hash_hex(text.as_bytes());
        let chars = chars_of(text);
        let (comments, filled) = count_lines(chars.as_slice());
        let placeholder_count = count_placeholders(chars.as_slice());
        let docstring_chars = leading_docstring_chars(tree, f, self.source);
        let counts = count_body(tree, self.support, tallies, f, self.source);
        let callees = collect_call_names(tree, self.support, tallies, f, self.source);
        let is_hollow = counts.statements == 0;
        FunctionMetrics {
            id,
            name,
            file: self.file_path.to_string(),
            line,
            end_line,
            body_hash,
            cyclomatic_complexity: cyclomatic,
            cognitive_complexity: cognitive,
            nesting_depth,
            lines_of_code: end_line - line + 1,
            executable_statements: counts.statements,
            is_hollow,
            hollow_kind: hollow_kind(is_hollow, comments),
            comment_ratio: Ratio::new(comments, filled),
            placeholder_count,
            has_docstring: docstring_chars > 0,
            documentation_quality: documentation_quality(docstring_chars, cognitive),
            identifier_verbosity: Ratio {
                numerator: counts.identifier_bytes,
                denominator: counts.identifiers as u128,
            },
            times_modified: 0,
            bug_fix_commits: 0,
            authors_count: 0,
            authors: None,
            churn: ChurnDetails::none(),
            churn_score: Score::zero(),
            coverage: None,
            coupling: CouplingMetrics {
                fan_in: 0,
                fan_out: 0,
                callers: Vec::new(),
                callees,
                instability: Ratio { numerator: 0, denominator: 0 },
            },
            reachability: ReachabilityMetrics {
                is_reachable: false,
                kind: initial_reachability_kind(tree, f, self.source),
            },
            normalized: None,
            risk: None,
            percentile: None,
        }
    }

    fn text_or_empty(&self, start: usize, end: usize) -> (text: &'a str)
        ensures
            text@ == text_or_nothing(self.text(), start as nat, end as nat),
    {
        match slice_text(self.source, start, end) {
            Some(text) => text,
            None => {
                proof {
                    reveal_strlit("");
                    assert(""@ =~= Seq::<char>::empty());
                }
                ""
            },
        }
    }

    /// The identity of a function that has been named.
    fn identify(&self, tree: &SyntaxTree, f: usize, name: &str) -> (id: String)
        requires
            f < tree@.len(),
            name@ == (self.rules().name)(tree@, f as int, self.text()),
        ensures
            id@ == function_id(tree@, self.rules(), f as int, self.text(), self.path()),
    {
        let node = tree.node(f);
        let end: usize = match body_start(tree, f) {
            Some(start) => start,
            None => node.end_byte,
        };
        let text = self.text_or_empty(node.start_byte, end);
        let chars = chars_of(text);
        let list = words(chars.as_slice());
        proof {
            reveal_strlit(" ");
            reveal_strlit(":");
            assert(" "@ =~= seq![' ']);
            assert(":"@ =~= seq![':']);
        }
        let signature = join(&list, " ");
        let digest = stable_hash_hex(signature.as_str().as_bytes());
        let place = joined3(self.file_path, ":", name);
        joined3(place.as_str(), ":", digest.as_str())
    }
}

/// More nodes only add functions behind those found.
proof fn lemma_functions_prefix(t: Seq<NodeFacts>, rules: Rules, a: int, b: int)
    requires
        0 <= a <= b,
    ensures
        functions_before(t, rules, a).len() <= functions_before(t, rules, b).len(),
        forall|k: int|
            0 <= k < functions_before(t, rules, a).len() ==> functions_before(t, rules, b)[k]
                == #[trigger] functions_before(t, rules, a)[k],
    decreases b - a,
{
    if a < b {
        lemma_functions_prefix(t, rules, a, b - 1);
    }
}

/// Where the body of a function starts.
fn body_start(tree: &SyntaxTree, f: usize) -> (r: Option<usize>)
    requires
        f < tree@.len(),
    ensures
        match r {
            Some(start) => start == signature_end(tree@, f as int),
            None => signature_end(tree@, f as int) == tree@[f as int].end_byte,
        },
{
    let list = tree.children(f);
    let ghost wanted = |n: NodeFacts| is_body(n);
    let ghost all = places(list@);
    assert(all.skip(0) == all);
    for k in 0..list.len()
        invariant
            all == places(list@),
            wanted == (|n: NodeFacts| is_body(n)),
            all == children_of(tree@, f as int),
            forall|j: int| 0 <= j < list.len() ==> f < #[trigger] list@[j] < tree@.len(),
            first_where(tree@, children_of(tree@, f as int), |n: NodeFacts| is_body(n))
                == first_where(tree@, all.skip(k as int), wanted),
    {
        assert(all.skip(k as int).drop_first() == all.skip(k + 1));
        let c: usize = list[k];
        let node = tree.node(c);
        let kind = node.kind;
        if kind.eq("statement_block") || kind.eq("block") || kind.eq("compound_statement")
            || kind.eq("declaration_list") {
            return Some(node.start_byte);
        }
    }
    None
}

} // verus!

//! From source text to metrics.

use super::cursor::{
    c_nodes, collect, parse_c, parse_rust, parse_tsx, parse_typescript, rust_nodes, tsx_nodes,
    typescript_nodes,
};
use super::engine::{describes_all, is_measurable, too_complex, ComplexityEngine};
use super::tree::{facts, in_range, is_preorder, NodeFacts, SyntaxNode, SyntaxTree};
use super::{Grammar, LanguageSupport, Rules};
use crate::error::UchikomiError;
use crate::metrics::FunctionMetrics;
use crate::text::{joined, joined3};
use vstd::prelude::*;

verus! {

/// The nodes that parsing finds in a source text.
pub open spec fn nodes_of(grammar: Grammar, source: Seq<char>) -> Option<Seq<NodeFacts>> {
    match grammar {
        Grammar::Rust => rust_nodes(source),
        Grammar::C => c_nodes(source),
        Grammar::TypeScript => typescript_nodes(source),
        Grammar::Tsx => tsx_nodes(source),
    }
}

/// Why a file cannot be analyzed, given the nodes that parsing found in it.
pub open spec fn refusal(
    parsed: Option<Seq<NodeFacts>>,
    rules: Rules,
    file: Seq<char>,
) -> Option<Seq<char>> {
    match parsed {
        None => Some("Failed to parse "@ + file),
        Some(t) => if t.len() > 0 && t[0].broken {
            Some("Failed to parse "@ + file + ": syntax errors detected"@)
        } else if !is_preorder(t) || !in_range(t) {
            Some("Failed to parse "@ + file + ": positions out of range"@)
        } else if !is_measurable(t, rules) {
            Some(too_complex(file))
        } else {
            None
        },
    }
}

/// Whether this is the outcome of analyzing a file in which parsing found these
/// nodes: the metrics of all its functions, or the reason why there are none.
pub open spec fn is_analysis(
    r: Result<Vec<FunctionMetrics>, UchikomiError>,
    parsed: Option<Seq<NodeFacts>>,
    rules: Rules,
    source: Seq<char>,
    file: Seq<char>,
) -> bool {
    match r {
        Ok(list) => refusal(parsed, rules, file) is None && describes_all(
            list@,
            parsed->0,
            rules,
            source,
            file,
        ),
        Err(e) => e is ParseError && refusal(parsed, rules, file) == Some(e.cause()),
    }
}

/// The facts of an optional list of nodes.
pub open spec fn optional_facts(nodes: Option<Vec<SyntaxNode>>) -> Option<Seq<NodeFacts>> {
    match nodes {
        Some(list) => Some(facts(list@)),
        None => None,
    }
}

/// Analysis of source files.
pub struct AstParser;

impl AstParser {
    /// Parses a source text and measures its functions.
    pub fn analyze_source<L: LanguageSupport + ?Sized>(
        source: &str,
        file_path: &str,
        support: &L,
    ) -> (r: Result<Vec<FunctionMetrics>, UchikomiError>)
        ensures
            is_analysis(
                r,
                nodes_of(support.grammar(), source@),
                support.rules(),
                source@,
                file_path@,
            ),
    {
        let parsed = Self::parse(source, support.language());
        Self::analyze_nodes(parsed, source, file_path, support)
    }

    /// Measures the functions of a source text in which parsing found these nodes.
    pub fn analyze_nodes<L: LanguageSupport + ?Sized>(
        parsed: Option<Vec<SyntaxNode>>,
        source: &str,
        file_path: &str,
        support: &L,
    ) -> (r: Result<Vec<FunctionMetrics>, UchikomiError>)
        ensures
            is_analysis(r, optional_facts(parsed), support.rules(), source@, file_path@),
    {
        match parsed {
            None => Err(UchikomiError::ParseError(joined("Failed to parse ", file_path))),
            Some(nodes) => {
                let ghost t = facts(nodes@);
                assert(nodes.len() > 0 ==> t[0] == nodes@[0]@);
                if nodes.len() > 0 && nodes[0].broken {
                    return Err(UchikomiError::ParseError(
                        joined3("Failed to parse ", file_path, ": syntax errors detected"),
                    ));
                }
                match SyntaxTree::from_nodes(nodes) {
                    Some(tree) => {
                        let _nodes: usize = tree.len();
                        let engine = ComplexityEngine::new(source, file_path, support);
                        engine.analyze(&tree)
                    },
                    None => Err(UchikomiError::ParseError(
                        joined3("Failed to parse ", file_path, ": positions out of range"),
                    )),
                }
            },
        }
    }

    /// The nodes that parsing finds in a source text.
    fn parse(source: &str, grammar: Grammar) -> (nodes: Option<Vec<SyntaxNode>>)
        ensures
            optional_facts(nodes) == nodes_of(grammar, source@),
    {
        let parsed = match grammar {
            Grammar::Rust => parse_rust(source),
            Grammar::C => parse_c(source),
            Grammar::TypeScript => parse_typescript(source),
            Grammar::Tsx => parse_tsx(source),
        };
        match parsed {
            Ok(Some(tree)) => Some(collect(&tree)),
            _ => None,
        }
    }
}

} // verus!

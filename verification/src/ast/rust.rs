//! Rust.

use super::source::{node_text_or_unknown, text_or_unknown};
use super::tree::{child_of_kind, NodeFacts, SyntaxNode, SyntaxTree};
use super::{CognitiveComplexity, Grammar, LanguageSupport, Rules};
use vstd::prelude::*;

verus! {

/// Support for Rust.
pub struct RustSupport;

/// The kinds of nodes that are functions.
pub open spec fn rust_function(kind: Seq<char>) -> bool {
    kind == "function_item"@ || kind == "method_declaration"@
}

/// The kinds of nodes that open another path.
pub open spec fn rust_increment(kind: Seq<char>) -> bool {
    ||| kind == "if_expression"@
    ||| kind == "if_let_expression"@
    ||| kind == "match_expression"@
    ||| kind == "for_expression"@
    ||| kind == "while_expression"@
    ||| kind == "loop_expression"@
    ||| kind == "match_arm"@
    ||| kind == "match_pattern"@
    ||| kind == "?"@
}

/// How a kind of node counts towards cognitive complexity.
pub open spec fn rust_cognitive(kind: Seq<char>) -> CognitiveComplexity {
    if kind == "if_expression"@ || kind == "if_let_expression"@ || kind == "for_expression"@
        || kind == "while_expression"@ || kind == "loop_expression"@ {
        CognitiveComplexity::Nesting
    } else if kind == "match_expression"@ {
        CognitiveComplexity::Structure
    } else if kind == "binary_expression"@ {
        CognitiveComplexity::Logical
    } else {
        CognitiveComplexity::Nothing
    }
}

/// The first identifier of the function.
pub open spec fn rust_name(t: Seq<NodeFacts>, i: int, source: Seq<char>) -> Seq<char> {
    match child_of_kind(t, i, "identifier"@) {
        Some(identifier) => text_or_unknown(t, identifier, source),
        None => "<anonymous>"@,
    }
}

impl LanguageSupport for RustSupport {
    open spec fn handled(&self) -> Seq<Seq<char>> {
        seq!["rs"@]
    }

    open spec fn grammar(&self) -> Grammar {
        Grammar::Rust
    }

    open spec fn rules(&self) -> Rules {
        Rules {
            function: |kind: Seq<char>| rust_function(kind),
            increment: |kind: Seq<char>| rust_increment(kind),
            cognitive: |kind: Seq<char>| rust_cognitive(kind),
            name: |t: Seq<NodeFacts>, i: int, source: Seq<char>| rust_name(t, i, source),
        }
    }

    fn extensions(&self) -> (list: &[&'static str]) {
        &["rs"]
    }

    fn language(&self) -> (grammar: Grammar) {
        Grammar::Rust
    }

    fn is_function(&self, node: &SyntaxNode) -> (r: bool) {
        node.kind.eq("function_item") || node.kind.eq("method_declaration")
    }

    fn is_complexity_increment(&self, node: &SyntaxNode) -> (r: bool) {
        let kind = node.kind;
        kind.eq("if_expression") || kind.eq("if_let_expression") || kind.eq("match_expression")
            || kind.eq("for_expression") || kind.eq("while_expression") || kind.eq(
            "loop_expression",
        ) || kind.eq("match_arm") || kind.eq("match_pattern") || kind.eq("?")
    }

    fn cognitive_complexity(&self, node: &SyntaxNode) -> (r: CognitiveComplexity) {
        let kind = node.kind;
        if kind.eq("if_expression") || kind.eq("if_let_expression") || kind.eq("for_expression")
            || kind.eq("while_expression") || kind.eq("loop_expression") {
            CognitiveComplexity::Nesting
        } else if kind.eq("match_expression") {
            CognitiveComplexity::Structure
        } else if kind.eq("binary_expression") {
            CognitiveComplexity::Logical
        } else {
            CognitiveComplexity::Nothing
        }
    }

    fn extract_name(&self, tree: &SyntaxTree, i: usize, source: &str) -> (name: String) {
        match tree.child_of_kind(i, "identifier") {
            Some(identifier) => node_text_or_unknown(tree, identifier, source),
            None => "<anonymous>".to_string(),
        }
    }
}

} // verus!

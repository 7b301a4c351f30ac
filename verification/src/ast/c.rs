//! C.

use super::source::{node_text_or_unknown, text_or_unknown};
use super::tree::{child_of_kind, NodeFacts, SyntaxNode, SyntaxTree};
use super::{CognitiveComplexity, Grammar, LanguageSupport, Rules};
use vstd::prelude::*;

verus! {

/// Support for C.
pub struct CSupport;

/// The kinds of nodes that are functions.
pub open spec fn c_function(kind: Seq<char>) -> bool {
    kind == "function_definition"@
}

/// The kinds of nodes that open another path.
pub open spec fn c_increment(kind: Seq<char>) -> bool {
    ||| kind == "if_statement"@
    ||| kind == "for_statement"@
    ||| kind == "while_statement"@
    ||| kind == "do_statement"@
    ||| kind == "case_statement"@
    ||| kind == "&&"@
    ||| kind == "||"@
    ||| kind == "conditional_expression"@
}

/// How a kind of node counts towards cognitive complexity.
pub open spec fn c_cognitive(kind: Seq<char>) -> CognitiveComplexity {
    if kind == "if_statement"@ || kind == "for_statement"@ || kind == "while_statement"@ || kind
        == "do_statement"@ || kind == "conditional_expression"@ {
        CognitiveComplexity::Nesting
    } else if kind == "switch_statement"@ {
        CognitiveComplexity::Structure
    } else if kind == "binary_expression"@ {
        CognitiveComplexity::Logical
    } else {
        CognitiveComplexity::Nothing
    }
}

/// The identifier in the declarator of the function.
pub open spec fn c_name(t: Seq<NodeFacts>, i: int, source: Seq<char>) -> Seq<char> {
    match child_of_kind(t, i, "function_declarator"@) {
        Some(declarator) => match child_of_kind(t, declarator, "identifier"@) {
            Some(identifier) => text_or_unknown(t, identifier, source),
            None => "<anonymous>"@,
        },
        None => "<anonymous>"@,
    }
}

impl LanguageSupport for CSupport {
    open spec fn handled(&self) -> Seq<Seq<char>> {
        seq!["c"@, "h"@]
    }

    open spec fn grammar(&self) -> Grammar {
        Grammar::C
    }

    open spec fn rules(&self) -> Rules {
        Rules {
            function: |kind: Seq<char>| c_function(kind),
            increment: |kind: Seq<char>| c_increment(kind),
            cognitive: |kind: Seq<char>| c_cognitive(kind),
            name: |t: Seq<NodeFacts>, i: int, source: Seq<char>| c_name(t, i, source),
        }
    }

    fn extensions(&self) -> (list: &[&'static str]) {
        &["c", "h"]
    }

    fn language(&self) -> (grammar: Grammar) {
        Grammar::C
    }

    fn is_function(&self, node: &SyntaxNode) -> (r: bool) {
        node.kind.eq("function_definition")
    }

    fn is_complexity_increment(&self, node: &SyntaxNode) -> (r: bool) {
        let kind = node.kind;
        kind.eq("if_statement") || kind.eq("for_statement") || kind.eq("while_statement")
            || kind.eq("do_statement") || kind.eq("case_statement") || kind.eq("&&") || kind.eq(
            "||",
        ) || kind.eq("conditional_expression")
    }

    fn cognitive_complexity(&self, node: &SyntaxNode) -> (r: CognitiveComplexity) {
        let kind = node.kind;
        if kind.eq("if_statement") || kind.eq("for_statement") || kind.eq("while_statement")
            || kind.eq("do_statement") || kind.eq("conditional_expression") {
            CognitiveComplexity::Nesting
        } else if kind.eq("switch_statement") {
            CognitiveComplexity::Structure
        } else if kind.eq("binary_expression") {
            CognitiveComplexity::Logical
        } else {
            CognitiveComplexity::Nothing
        }
    }

    fn extract_name(&self, tree: &SyntaxTree, i: usize, source: &str) -> (name: String) {
        match tree.child_of_kind(i, "function_declarator") {
            Some(declarator) => match tree.child_of_kind(declarator, "identifier") {
                Some(identifier) => node_text_or_unknown(tree, identifier, source),
                None => "<anonymous>".to_string(),
            },
            None => "<anonymous>".to_string(),
        }
    }
}

} // verus!

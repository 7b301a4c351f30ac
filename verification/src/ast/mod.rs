//! Syntax trees and what is measured on them.
pub mod c;
pub mod calls;
pub mod complexity;
pub mod cursor;
pub mod engine;
pub mod exposure;
pub mod laws;
pub mod measures;
pub mod parser;
pub mod quality;
pub mod reach;
pub mod reading;
pub mod remarks;
pub mod rust;
pub mod shape;
pub mod source;
pub mod tables;
pub mod tree;
pub mod typescript;

use tree::{NodeFacts, SyntaxNode, SyntaxTree};
use vstd::prelude::*;

verus! {

/// How a node counts towards cognitive complexity.
#[derive(Clone, Copy, Debug, Eq, PartialEq, Structural)]
pub enum CognitiveComplexity {
    /// Not at all.
    Nothing,
    /// As part of a chain of logical operators.
    Logical,
    /// By itself.
    Structure,
    /// By itself, and by making what is inside it count more.
    Nesting,
}

/// A grammar that sources are parsed with.
#[derive(Clone, Copy, Debug, Eq, PartialEq, Structural)]
pub enum Grammar {
    Rust,
    C,
    TypeScript,
    Tsx,
}

/// The characters of each of some strings.
pub open spec fn texts(list: Seq<&'static str>) -> Seq<Seq<char>> {
    Seq::new(list.len(), |i: int| list[i]@)
}

/// The rules of a language.
pub struct Rules {
    /// The kinds of nodes that are functions.
    pub function: spec_fn(Seq<char>) -> bool,
    /// The kinds of nodes that open another path through a function.
    pub increment: spec_fn(Seq<char>) -> bool,
    /// How each kind of node counts towards cognitive complexity.
    pub cognitive: spec_fn(Seq<char>) -> CognitiveComplexity,
    /// The name of the function at a node.
    pub name: spec_fn(Seq<NodeFacts>, int, Seq<char>) -> Seq<char>,
}

/// What the analysis has to know of a language.
pub trait LanguageSupport: Send + Sync {
    /// The file extensions of the language.
    spec fn handled(&self) -> Seq<Seq<char>>;

    /// The grammar of the language.
    spec fn grammar(&self) -> Grammar;

    /// The rules of the language.
    spec fn rules(&self) -> Rules;

    fn extensions(&self) -> (list: &[&'static str])
        ensures
            texts(list@) == self.handled(),
    ;

    fn language(&self) -> (grammar: Grammar)
        ensures
            grammar == self.grammar(),
    ;

    fn is_function(&self, node: &SyntaxNode) -> (r: bool)
        ensures
            r == (self.rules().function)(node@.kind),
    ;

    fn is_complexity_increment(&self, node: &SyntaxNode) -> (r: bool)
        ensures
            r == (self.rules().increment)(node@.kind),
    ;

    fn cognitive_complexity(&self, node: &SyntaxNode) -> (r: CognitiveComplexity)
        ensures
            r == (self.rules().cognitive)(node@.kind),
    ;

    fn extract_name(&self, tree: &SyntaxTree, i: usize, source: &str) -> (name: String)
        requires
            i < tree@.len(),
        ensures
            name@ == (self.rules().name)(tree@, i as int, source@),
    ;
}

} // verus!

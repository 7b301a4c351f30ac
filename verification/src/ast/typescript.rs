//! TypeScript and JavaScript, with and without JSX.

use super::source::{node_text_or_unknown, text_or_unknown};
use super::tree::{
    child_in_field, children_of, first_where, found, parent_of, places, NodeFacts, SyntaxNode,
    SyntaxTree,
};
use super::{CognitiveComplexity, Grammar, LanguageSupport, Rules};
use vstd::prelude::*;

verus! {

/// Support for TypeScript and JavaScript.
pub struct TypeScriptSupport {
    is_tsx: bool,
}

impl TypeScriptSupport {
    /// Whether JSX is understood.
    pub closed spec fn tsx(&self) -> bool {
        self.is_tsx
    }

    /// Support with or without JSX.
    pub fn new(is_tsx: bool) -> (support: Self)
        ensures
            support.tsx() == is_tsx,
    {
        TypeScriptSupport { is_tsx }
    }
}

/// Whether a node names something.
pub open spec fn is_identifier(node: NodeFacts) -> bool {
    node.kind == "identifier"@ || node.kind == "property_identifier"@
}

/// The first child that names something.
pub open spec fn identifier_child(t: Seq<NodeFacts>, i: int) -> Option<int> {
    first_where(t, children_of(t, i), |n: NodeFacts| is_identifier(n))
}

/// The name that a function is bound to by the declaration around it.
pub open spec fn binding_identifier(t: Seq<NodeFacts>, i: int) -> Option<int> {
    let p = parent_of(t, i);
    if p >= 0 && (t[p].kind == "variable_declarator"@ || t[p].kind == "public_field_definition"@) {
        identifier_child(t, p)
    } else {
        None
    }
}

/// What a function is assigned to.
pub open spec fn assigned_node(t: Seq<NodeFacts>, i: int) -> Option<int> {
    let p = parent_of(t, i);
    if p >= 0 && t[p].kind == "assignment_expression"@ {
        child_in_field(t, p, "left"@)
    } else {
        None
    }
}

/// The node that tells the name of a function.
pub open spec fn naming_node(t: Seq<NodeFacts>, i: int) -> Option<int> {
    match identifier_child(t, i) {
        Some(c) => Some(c),
        None => match binding_identifier(t, i) {
            Some(c) => Some(c),
            None => assigned_node(t, i),
        },
    }
}

fn first_identifier_child(tree: &SyntaxTree, i: usize) -> (r: Option<usize>)
    requires
        i < tree@.len(),
    ensures
        found(r) == identifier_child(tree@, i as int),
        r matches Some(c) ==> c < tree@.len(),
{
    let list = tree.children(i);
    let ghost wanted = |n: NodeFacts| is_identifier(n);
    let ghost all = places(list@);
    assert(all.skip(0) == all);
    for k in 0..list.len()
        invariant
            all == places(list@),
            wanted == (|n: NodeFacts| is_identifier(n)),
            all == children_of(tree@, i as int),
            forall|j: int| 0 <= j < list.len() ==> i < #[trigger] list@[j] < tree@.len(),
            identifier_child(tree@, i as int) == first_where(tree@, all.skip(k as int), wanted),
    {
        assert(all.skip(k as int).drop_first() == all.skip(k + 1));
        let c: usize = list[k];
        let kind = tree.node(c).kind;
        if kind.eq("identifier") || kind.eq("property_identifier") {
            return Some(c);
        }
    }
    None
}

fn parent_binding(tree: &SyntaxTree, i: usize) -> (r: Option<usize>)
    requires
        i < tree@.len(),
    ensures
        found(r) == binding_identifier(tree@, i as int),
        r matches Some(c) ==> c < tree@.len(),
{
    match tree.parent(i) {
        Some(p) => {
            let kind = tree.node(p).kind;
            if kind.eq("variable_declarator") || kind.eq("public_field_definition") {
                first_identifier_child(tree, p)
            } else {
                None
            }
        },
        None => None,
    }
}

fn assignment_target(tree: &SyntaxTree, i: usize) -> (r: Option<usize>)
    requires
        i < tree@.len(),
    ensures
        found(r) == assigned_node(tree@, i as int),
        r matches Some(c) ==> c < tree@.len(),
{
    match tree.parent(i) {
        Some(p) => {
            if tree.node(p).kind.eq("assignment_expression") {
                tree.child_in_field(p, "left")
            } else {
                None
            }
        },
        None => None,
    }
}

/// The kinds of nodes that are functions.
pub open spec fn typescript_function(kind: Seq<char>) -> bool {
    ||| kind == "function_declaration"@
    ||| kind == "function_expression"@
    ||| kind == "arrow_function"@
    ||| kind == "method_definition"@
}

/// The kinds of nodes that open another path.
pub open spec fn typescript_increment(kind: Seq<char>) -> bool {
    ||| kind == "if"@
    ||| kind == "for"@
    ||| kind == "while"@
    ||| kind == "do"@
    ||| kind == "case"@
    ||| kind == "catch"@
    ||| kind == "&&"@
    ||| kind == "||"@
    ||| kind == "?"@
}

/// How a kind of node counts towards cognitive complexity.
pub open spec fn typescript_cognitive(kind: Seq<char>) -> CognitiveComplexity {
    if kind == "if_statement"@ || kind == "for_statement"@ || kind == "while_statement"@ || kind
        == "do_statement"@ || kind == "catch_clause"@ || kind == "ternary_expression"@ {
        CognitiveComplexity::Nesting
    } else if kind == "switch_statement"@ {
        CognitiveComplexity::Structure
    } else if kind == "binary_expression"@ {
        CognitiveComplexity::Logical
    } else {
        CognitiveComplexity::Nothing
    }
}

/// Its own identifier, else the name it is bound to, else what it is assigned to.
pub open spec fn typescript_name(t: Seq<NodeFacts>, i: int, source: Seq<char>) -> Seq<char> {
    match naming_node(t, i) {
        Some(node) => text_or_unknown(t, node, source),
        None => "<anonymous>"@,
    }
}

/// The rules of TypeScript and JavaScript.
pub open spec fn typescript_rules() -> Rules {
    Rules {
        function: |kind: Seq<char>| typescript_function(kind),
        increment: |kind: Seq<char>| typescript_increment(kind),
        cognitive: |kind: Seq<char>| typescript_cognitive(kind),
        name: |t: Seq<NodeFacts>, i: int, source: Seq<char>| typescript_name(t, i, source),
    }
}

impl LanguageSupport for TypeScriptSupport {
    open spec fn handled(&self) -> Seq<Seq<char>> {
        if self.tsx() {
            seq!["tsx"@, "jsx"@]
        } else {
            seq!["ts"@, "js"@]
        }
    }

    open spec fn grammar(&self) -> Grammar {
        if self.tsx() {
            Grammar::Tsx
        } else {
            Grammar::TypeScript
        }
    }

    open spec fn rules(&self) -> Rules {
        typescript_rules()
    }

    fn extensions(&self) -> (list: &[&'static str]) {
        if self.is_tsx {
            &["tsx", "jsx"]
        } else {
            &["ts", "js"]
        }
    }

    fn language(&self) -> (grammar: Grammar) {
        if self.is_tsx {
            Grammar::Tsx
        } else {
            Grammar::TypeScript
        }
    }

    fn is_function(&self, node: &SyntaxNode) -> (r: bool) {
        let kind = node.kind;
        kind.eq("function_declaration") || kind.eq("function_expression") || kind.eq(
            "arrow_function",
        ) || kind.eq("method_definition")
    }

    fn is_complexity_increment(&self, node: &SyntaxNode) -> (r: bool) {
        let kind = node.kind;
        kind.eq("if") || kind.eq("for") || kind.eq("while") || kind.eq("do") || kind.eq("case")
            || kind.eq("catch") || kind.eq("&&") || kind.eq("||") || kind.eq("?")
    }

    fn cognitive_complexity(&self, node: &SyntaxNode) -> (r: CognitiveComplexity) {
        let kind = node.kind;
        if kind.eq("if_statement") || kind.eq("for_statement") || kind.eq("while_statement")
            || kind.eq("do_statement") || kind.eq("catch_clause") || kind.eq("ternary_expression") {
            CognitiveComplexity::Nesting
        } else if kind.eq("switch_statement") {
            CognitiveComplexity::Structure
        } else if kind.eq("binary_expression") {
            CognitiveComplexity::Logical
        } else {
            CognitiveComplexity::Nothing
        }
    }

    fn extract_name(&self, tree: &SyntaxTree, i: usize, source: &str) -> (name: String) {
        if let Some(c) = first_identifier_child(tree, i) {
            return node_text_or_unknown(tree, c, source);
        }
        if let Some(c) = parent_binding(tree, i) {
            return node_text_or_unknown(tree, c, source);
        }
        if let Some(c) = assignment_target(tree, i) {
            return node_text_or_unknown(tree, c, source);
        }
        "<anonymous>".to_string()
    }
}

} // verus!

//! Which language a file is written in.

use crate::ast::c::CSupport;
use crate::ast::rust::RustSupport;
use crate::ast::typescript::TypeScriptSupport;
use crate::ast::tree::{SyntaxNode, SyntaxTree};
use crate::ast::{texts, CognitiveComplexity, Grammar, LanguageSupport, Rules};
use crate::path::{extension, extension_of};
use vstd::prelude::*;

verus! {

/// The grammar for files with an extension.
pub open spec fn grammar_for(extension: Seq<char>) -> Option<Grammar> {
    if extension == "ts"@ || extension == "js"@ {
        Some(Grammar::TypeScript)
    } else if extension == "tsx"@ || extension == "jsx"@ {
        Some(Grammar::Tsx)
    } else if extension == "rs"@ {
        Some(Grammar::Rust)
    } else if extension == "c"@ || extension == "h"@ {
        Some(Grammar::C)
    } else {
        None
    }
}

/// The grammar for the file at a path.
pub open spec fn grammar_at(path: Seq<char>) -> Option<Grammar> {
    match extension_of(path) {
        Some(e) => grammar_for(e),
        None => None,
    }
}

/// The rules of the language that a grammar describes.
pub open spec fn rules_of(grammar: Grammar) -> Rules {
    match grammar {
        Grammar::Rust => RustSupport.rules(),
        Grammar::C => CSupport.rules(),
        _ => crate::ast::typescript::typescript_rules(),
    }
}

/// The file extensions of a grammar.
pub open spec fn extensions_of(grammar: Grammar) -> Seq<Seq<char>> {
    match grammar {
        Grammar::TypeScript => seq!["ts"@, "js"@],
        Grammar::Tsx => seq!["tsx"@, "jsx"@],
        Grammar::Rust => seq!["rs"@],
        Grammar::C => seq!["c"@, "h"@],
    }
}

/// The grammars in the order in which they are tried.
pub open spec fn all_grammars() -> Seq<Grammar> {
    seq![Grammar::TypeScript, Grammar::Tsx, Grammar::Rust, Grammar::C]
}

/// A supported language.
pub enum Language {
    TypeScript(TypeScriptSupport),
    Rust(RustSupport),
    C(CSupport),
}

impl LanguageSupport for Language {
    open spec fn handled(&self) -> Seq<Seq<char>> {
        match self {
            Language::TypeScript(support) => support.handled(),
            Language::Rust(support) => support.handled(),
            Language::C(support) => support.handled(),
        }
    }

    open spec fn grammar(&self) -> Grammar {
        match self {
            Language::TypeScript(support) => support.grammar(),
            Language::Rust(support) => support.grammar(),
            Language::C(support) => support.grammar(),
        }
    }

    open spec fn rules(&self) -> Rules {
        match self {
            Language::TypeScript(support) => support.rules(),
            Language::Rust(support) => support.rules(),
            Language::C(support) => support.rules(),
        }
    }

    fn extensions(&self) -> (list: &[&'static str]) {
        match self {
            Language::TypeScript(support) => support.extensions(),
            Language::Rust(support) => support.extensions(),
            Language::C(support) => support.extensions(),
        }
    }

    fn language(&self) -> (grammar: Grammar) {
        match self {
            Language::TypeScript(support) => support.language(),
            Language::Rust(support) => support.language(),
            Language::C(support) => support.language(),
        }
    }

    fn is_function(&self, node: &SyntaxNode) -> (r: bool) {
        match self {
            Language::TypeScript(support) => support.is_function(node),
            Language::Rust(support) => support.is_function(node),
            Language::C(support) => support.is_function(node),
        }
    }

    fn is_complexity_increment(&self, node: &SyntaxNode) -> (r: bool) {
        match self {
            Language::TypeScript(support) => support.is_complexity_increment(node),
            Language::Rust(support) => support.is_complexity_increment(node),
            Language::C(support) => support.is_complexity_increment(node),
        }
    }

    fn cognitive_complexity(&self, node: &SyntaxNode) -> (r: CognitiveComplexity) {
        match self {
            Language::TypeScript(support) => support.cognitive_complexity(node),
            Language::Rust(support) => support.cognitive_complexity(node),
            Language::C(support) => support.cognitive_complexity(node),
        }
    }

    fn extract_name(&self, tree: &SyntaxTree, i: usize, source: &str) -> (name: String) {
        match self {
            Language::TypeScript(support) => support.extract_name(tree, i, source),
            Language::Rust(support) => support.extract_name(tree, i, source),
            Language::C(support) => support.extract_name(tree, i, source),
        }
    }
}

/// The languages that can be analyzed.
pub struct LanguageRegistry {
    supports: Vec<Language>,
}

impl LanguageRegistry {
    #[verifier::type_invariant]
    spec fn well_formed(self) -> bool {
        &&& self.supports.len() == 4
        &&& forall|i: int|
            0 <= i < 4 ==> (#[trigger] self.supports@[i]).grammar() == all_grammars()[i]
                && self.supports@[i].rules() == rules_of(all_grammars()[i])
                && self.supports@[i].handled() == extensions_of(all_grammars()[i])
    }

    /// The grammars, in the order in which they are tried.
    pub closed spec fn grammars(&self) -> Seq<Grammar> {
        self.supports@.map_values(|support: Language| support.grammar())
    }

    /// All supported languages.
    pub fn new() -> (registry: Self)
        ensures
            registry.grammars() == all_grammars(),
    {
        let mut supports: Vec<Language> = Vec::new();
        supports.push(Language::TypeScript(TypeScriptSupport::new(false)));
        supports.push(Language::TypeScript(TypeScriptSupport::new(true)));
        supports.push(Language::Rust(RustSupport));
        supports.push(Language::C(CSupport));
        LanguageRegistry { supports }
    }

    /// The support for the language of a file, if it has one.
    pub fn get_support(&self, file_path: &str) -> (r: Option<&Language>)
        ensures
            match r {
                Some(support) => grammar_at(file_path@) == Some(support.grammar())
                    && support.rules() == rules_of(support.grammar()),
                None => grammar_at(file_path@) is None,
            },
    {
        proof {
            use_type_invariant(self);
        }
        let ext = match extension(file_path) {
            Some(e) => e,
            None => {
                return None;
            },
        };
        for i in 0..self.supports.len()
            invariant
                self.well_formed(),
                extension_of(file_path@) == Some(ext@),
                forall|j: int|
                    0 <= j < i ==> !(#[trigger] extensions_of(all_grammars()[j])).contains(ext@),
        {
            let support = &self.supports[i];
            let list = support.extensions();
            let ghost all = texts(list@);
            for k in 0..list.len()
                invariant
                    self.well_formed(),
                    i < self.supports.len(),
                    extension_of(file_path@) == Some(ext@),
                    support == &self.supports@[i as int],
                    all == texts(list@),
                    all == extensions_of(all_grammars()[i as int]),
                    forall|j: int|
                        0 <= j < i ==> !(#[trigger] extensions_of(all_grammars()[j])).contains(
                            ext@,
                        ),
                    forall|j: int| 0 <= j < k ==> #[trigger] all[j] != ext@,
            {
                assert(all[k as int] == list@[k as int]@);
                if list[k].eq(ext.as_str()) {
                    proof {
                        lemma_first_grammar(ext@, i as int);
                    }
                    return Some(support);
                }
            }
        }
        proof {
            lemma_no_grammar(ext@);
        }
        None
    }
}

proof fn lemma_extensions(ext: Seq<char>)
    ensures
        extensions_of(Grammar::TypeScript).contains(ext) <==> ext == "ts"@ || ext == "js"@,
        extensions_of(Grammar::Tsx).contains(ext) <==> ext == "tsx"@ || ext == "jsx"@,
        extensions_of(Grammar::Rust).contains(ext) <==> ext == "rs"@,
        extensions_of(Grammar::C).contains(ext) <==> ext == "c"@ || ext == "h"@,
{
    let a = extensions_of(Grammar::TypeScript);
    assert(a[0] == "ts"@ && a[1] == "js"@);
    let b = extensions_of(Grammar::Tsx);
    assert(b[0] == "tsx"@ && b[1] == "jsx"@);
    let c = extensions_of(Grammar::Rust);
    assert(c[0] == "rs"@);
    let d = extensions_of(Grammar::C);
    assert(d[0] == "c"@ && d[1] == "h"@);
}

/// The first grammar that has an extension is the grammar for it.
proof fn lemma_first_grammar(ext: Seq<char>, i: int)
    requires
        0 <= i < 4,
        extensions_of(all_grammars()[i]).contains(ext),
        forall|j: int| 0 <= j < i ==> !(#[trigger] extensions_of(all_grammars()[j])).contains(ext),
    ensures
        grammar_for(ext) == Some(all_grammars()[i]),
{
    lemma_extensions(ext);
    if i > 0 {
        assert(!extensions_of(all_grammars()[0]).contains(ext));
    }
    if i > 1 {
        assert(!extensions_of(all_grammars()[1]).contains(ext));
    }
    if i > 2 {
        assert(!extensions_of(all_grammars()[2]).contains(ext));
    }
}

/// An extension that no grammar has has no grammar.
proof fn lemma_no_grammar(ext: Seq<char>)
    requires
        forall|j: int| 0 <= j < 4 ==> !(#[trigger] extensions_of(all_grammars()[j])).contains(ext),
    ensures
        grammar_for(ext) is None,
{
    lemma_extensions(ext);
    assert(!extensions_of(all_grammars()[0]).contains(ext));
    assert(!extensions_of(all_grammars()[1]).contains(ext));
    assert(!extensions_of(all_grammars()[2]).contains(ext));
    assert(!extensions_of(all_grammars()[3]).contains(ext));
}

impl Default for LanguageRegistry {
    fn default() -> (registry: Self)
        ensures
            registry.grammars() == all_grammars(),
    {
        Self::new()
    }
}

} // verus!

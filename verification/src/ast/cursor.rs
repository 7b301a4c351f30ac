//! Parsing with `tree_sitter`, and reading its trees node by node.

use super::tree::{
    end_of, facts, follows, is_preorder, lemma_first_back_at, lemma_first_back_at_is,
    lemma_parent, parent_of, NodeFacts, SyntaxNode,
};
use vstd::prelude::*;

verus! {

/// `tree_sitter::Tree`.
#[verifier::external_type_specification]
#[verifier::external_body]
pub struct ExTree(tree_sitter::Tree);

/// `tree_sitter::TreeCursor`.
#[verifier::external_type_specification]
#[verifier::external_body]
pub struct ExTreeCursor<'a>(tree_sitter::TreeCursor<'a>);

/// `tree_sitter::LanguageError`.
#[verifier::external_type_specification]
#[verifier::external_body]
pub struct ExLanguageError(tree_sitter::LanguageError);

/// The nodes of the tree that `tree_sitter` finds with the Rust grammar in a
/// source text, in preorder, if it returns a tree.
pub uninterp spec fn rust_nodes(source: Seq<char>) -> Option<Seq<NodeFacts>>;

/// The same with the C grammar.
pub uninterp spec fn c_nodes(source: Seq<char>) -> Option<Seq<NodeFacts>>;

/// The same with the TypeScript grammar.
pub uninterp spec fn typescript_nodes(source: Seq<char>) -> Option<Seq<NodeFacts>>;

/// The same with the TSX grammar.
pub uninterp spec fn tsx_nodes(source: Seq<char>) -> Option<Seq<NodeFacts>>;

/// The nodes of a tree, in preorder.
pub uninterp spec fn tree_nodes(tree: tree_sitter::Tree) -> Seq<NodeFacts>;

/// The nodes of the tree that a cursor walks, in preorder.
pub uninterp spec fn cursor_nodes(cursor: tree_sitter::TreeCursor<'_>) -> Seq<NodeFacts>;

/// The place in preorder of the node that a cursor stands on.
pub uninterp spec fn cursor_place(cursor: tree_sitter::TreeCursor<'_>) -> int;

/// The nodes of the tree, if there is one.
pub open spec fn parsed_nodes(tree: Option<tree_sitter::Tree>) -> Option<Seq<NodeFacts>> {
    match tree {
        Some(t) => Some(tree_nodes(t)),
        None => None,
    }
}

/// `tree_sitter::Parser::parse` on the whole text with the grammar
/// `tree_sitter_rust::language`. The nodes it finds depend on the text alone.
/// `Parser::set_language` refuses only grammars of an ABI version that the parser
/// does not know, and the grammar has version 14, which it does.
#[verifier::external_body]
pub(crate) fn parse_rust(source: &str) -> (r: Result<
    Option<tree_sitter::Tree>,
    tree_sitter::LanguageError,
>)
    ensures
        r is Ok,
        parsed_nodes(r->Ok_0) == rust_nodes(source@),
{
    let mut parser = tree_sitter::Parser::new();
    parser.set_language(tree_sitter_rust::language())?;
    Ok(parser.parse(source, None))
}

/// The same with the grammar `tree_sitter_c::language`.
#[verifier::external_body]
pub(crate) fn parse_c(source: &str) -> (r: Result<
    Option<tree_sitter::Tree>,
    tree_sitter::LanguageError,
>)
    ensures
        r is Ok,
        parsed_nodes(r->Ok_0) == c_nodes(source@),
{
    let mut parser = tree_sitter::Parser::new();
    parser.set_language(tree_sitter_c::language())?;
    Ok(parser.parse(source, None))
}

/// The same with the grammar `tree_sitter_typescript::language_typescript`.
#[verifier::external_body]
pub(crate) fn parse_typescript(source: &str) -> (r: Result<
    Option<tree_sitter::Tree>,
    tree_sitter::LanguageError,
>)
    ensures
        r is Ok,
        parsed_nodes(r->Ok_0) == typescript_nodes(source@),
{
    let mut parser = tree_sitter::Parser::new();
    parser.set_language(tree_sitter_typescript::language_typescript())?;
    Ok(parser.parse(source, None))
}

/// The same with the grammar `tree_sitter_typescript::language_tsx`.
#[verifier::external_body]
pub(crate) fn parse_tsx(source: &str) -> (r: Result<
    Option<tree_sitter::Tree>,
    tree_sitter::LanguageError,
>)
    ensures
        r is Ok,
        parsed_nodes(r->Ok_0) == tsx_nodes(source@),
{
    let mut parser = tree_sitter::Parser::new();
    parser.set_language(tree_sitter_typescript::language_tsx())?;
    Ok(parser.parse(source, None))
}

/// `tree_sitter::Tree::walk`: a cursor on the root. The nodes of a tree, listed in
/// preorder with their depths, start with the only root, and each is at most one
/// step below the one before it.
#[verifier::external_body]
fn walk<'a>(tree: &'a tree_sitter::Tree) -> (cursor: tree_sitter::TreeCursor<'a>)
    ensures
        cursor_nodes(cursor) == tree_nodes(*tree),
        is_preorder(cursor_nodes(cursor)),
        cursor_place(cursor) == 0,
{
    tree.walk()
}

/// `tree_sitter::TreeCursor::node` and `field_name`: what the library uses of the
/// node that the cursor stands on, at a depth that the caller kept count of.
#[verifier::external_body]
fn read(cursor: &tree_sitter::TreeCursor<'_>, depth: usize) -> (node: SyntaxNode)
    requires
        depth == cursor_nodes(*cursor)[cursor_place(*cursor)].depth,
    ensures
        node@ == cursor_nodes(*cursor)[cursor_place(*cursor)],
{
    let node = cursor.node();
    SyntaxNode {
        depth,
        kind: node.kind(),
        field: cursor.field_name(),
        named: node.is_named(),
        broken: node.has_error(),
        start_byte: node.start_byte(),
        end_byte: node.end_byte(),
        start_row: node.start_position().row,
        end_row: node.end_position().row,
    }
}

/// `tree_sitter::TreeCursor::goto_first_child`: moves to the first child, and
/// tells whether there is one. In preorder it is the next node.
#[verifier::external_body]
fn goto_first_child(cursor: &mut tree_sitter::TreeCursor<'_>) -> (moved: bool)
    ensures
        cursor_nodes(*final(cursor)) == cursor_nodes(*old(cursor)),
        ({
            let t = cursor_nodes(*old(cursor));
            let i = cursor_place(*old(cursor));
            &&& moved == (i + 1 < t.len() && t[i + 1].depth == t[i].depth + 1)
            &&& cursor_place(*final(cursor)) == if moved {
                i + 1
            } else {
                i
            }
        }),
{
    cursor.goto_first_child()
}

/// `tree_sitter::TreeCursor::goto_next_sibling`: moves to the next node under the
/// same parent, and tells whether there is one. In preorder it is the first node
/// behind the descendants, if that is equally deep.
#[verifier::external_body]
fn goto_next_sibling(cursor: &mut tree_sitter::TreeCursor<'_>) -> (moved: bool)
    ensures
        cursor_nodes(*final(cursor)) == cursor_nodes(*old(cursor)),
        ({
            let t = cursor_nodes(*old(cursor));
            let i = cursor_place(*old(cursor));
            &&& moved == (end_of(t, i) < t.len() && t[end_of(t, i)].depth == t[i].depth)
            &&& cursor_place(*final(cursor)) == if moved {
                end_of(t, i)
            } else {
                i
            }
        }),
{
    cursor.goto_next_sibling()
}

/// `tree_sitter::TreeCursor::goto_parent`: moves to the parent, and tells whether
/// there is one.
#[verifier::external_body]
fn goto_parent(cursor: &mut tree_sitter::TreeCursor<'_>) -> (moved: bool)
    ensures
        cursor_nodes(*final(cursor)) == cursor_nodes(*old(cursor)),
        ({
            let t = cursor_nodes(*old(cursor));
            let i = cursor_place(*old(cursor));
            &&& moved == (parent_of(t, i) >= 0)
            &&& cursor_place(*final(cursor)) == if moved {
                parent_of(t, i)
            } else {
                i
            }
        }),
{
    cursor.goto_parent()
}

/// All nodes of a tree, in preorder.
pub(crate) fn collect(tree: &tree_sitter::Tree) -> (nodes: Vec<SyntaxNode>)
    ensures
        facts(nodes@) == tree_nodes(*tree),
        is_preorder(tree_nodes(*tree)),
{
    let mut cursor = walk(tree);
    let ghost t = tree_nodes(*tree);
    let mut depth: usize = 0;
    let root = read(&cursor, depth);
    let mut nodes: Vec<SyntaxNode> = Vec::new();
    nodes.push(root);
    assert(facts(nodes@) == t.take(1));
    while advance(&mut cursor, &mut depth, nodes.len())
        invariant
            is_preorder(t),
            cursor_nodes(cursor) == t,
            0 < nodes.len() <= t.len(),
            cursor_place(cursor) == nodes.len() - 1,
            depth == t[nodes.len() - 1].depth,
            depth < nodes.len(),
            facts(nodes@) == t.take(nodes.len() as int),
        decreases t.len() - nodes.len(),
    {
        let ghost before = nodes@;
        let node = read(&cursor, depth);
        nodes.push(node);
        assert(facts(nodes@) == t.take(nodes.len() as int)) by {
            assert forall|i: int| 0 <= i < before.len() implies facts(nodes@)[i] == t[i] by {
                assert(facts(before)[i] == t.take(before.len() as int)[i]);
            }
        }
    }
    assert(t.take(t.len() as int) == t);
    nodes
}

/// Moves to the next node in preorder, and tells whether there is one.
fn advance(cursor: &mut tree_sitter::TreeCursor<'_>, depth: &mut usize, next: usize) -> (more: bool)
    requires
        is_preorder(cursor_nodes(*old(cursor))),
        0 < next <= cursor_nodes(*old(cursor)).len(),
        cursor_place(*old(cursor)) == next - 1,
        *old(depth) == cursor_nodes(*old(cursor))[next - 1].depth,
        *old(depth) < next,
    ensures
        cursor_nodes(*final(cursor)) == cursor_nodes(*old(cursor)),
        more == (next < cursor_nodes(*old(cursor)).len()),
        more ==> cursor_place(*final(cursor)) == next,
        more ==> *final(depth) == cursor_nodes(*old(cursor))[next as int].depth,
        more ==> *final(depth) <= next,
{
    let ghost t = cursor_nodes(*cursor);
    if goto_first_child(cursor) {
        *depth = *depth + 1;
        return true;
    }
    proof {
        if next < t.len() {
            assert(follows(t, next as int));
        }
        lemma_first_back_at_is(t, next as int, t[next - 1].depth, next as int);
    }
    loop
        invariant
            is_preorder(t),
            t == cursor_nodes(*old(cursor)),
            cursor_nodes(*cursor) == t,
            0 < next <= t.len(),
            0 <= cursor_place(*cursor) < next,
            *depth == t[cursor_place(*cursor)].depth,
            *depth < next,
            end_of(t, cursor_place(*cursor)) == next,
        decreases *depth,
    {
        let ghost i = cursor_place(*cursor);
        proof {
            lemma_first_back_at(t, i + 1, t[i].depth);
        }
        if goto_next_sibling(cursor) {
            return true;
        }
        proof {
            lemma_parent(t, i);
        }
        if !goto_parent(cursor) {
            return false;
        }
        proof {
            let p = parent_of(t, i);
            lemma_first_back_at_is(t, p + 1, t[p].depth, next as int);
        }
        *depth = *depth - 1;
    }
}

} // verus!

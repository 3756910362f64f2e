//! The result of a parse: a syntax tree and the errors met on the way.

use vstd::prelude::*;
use rowan::GreenNode;
use crate::green::{
    green_child_count, green_child_node, green_child_text_len, green_children, green_kind, green_node_kind,
    green_tree, leaf_bytes, leaves_of, lemma_bytes_prefix, lemma_nodes_at_in_append, lemma_nodes_at_in_push,
    nodes_at, nodes_at_in, tree_bytes, GreenTree,
};
use crate::kinds::{NodeType, Types};
use crate::token::Token;

verus! {

/// An error that occured during parsing
#[derive(Clone, Debug, PartialEq)]
pub enum ParseError {
    /// A node of kind `Error` in the tree, and the byte offset where its
    /// text starts in the text of the whole tree: input that did not fit the
    /// grammar
    Unexpected(GreenNode, u32),
    /// The input ended where a token was needed
    UnexpectedEOF,
    /// The input ended where the given token was needed
    UnexpectedEOFWanted(Token),
}

impl ParseError {
    /// Errors that the parser records itself: the input ended too early.
    pub open spec fn is_eof(self) -> bool {
        self is UnexpectedEOF || self is UnexpectedEOFWanted
    }

    /// Whether this error reports the given `Error` node at the given offset.
    pub open spec fn reports(self, node: (GreenTree, nat)) -> bool {
        match self {
            ParseError::Unexpected(n, offset) => green_tree(n) == node.0 && offset == node.1,
            _ => false,
        }
    }

    /// Two errors that say the same: the same kind of error, and the same
    /// tree at the same offset, or the same wanted token.
    pub open spec fn same_as(self, other: ParseError) -> bool {
        match (self, other) {
            (ParseError::Unexpected(a, oa), ParseError::Unexpected(b, ob)) => green_tree(a) == green_tree(b)
                && oa == ob,
            _ => self == other,
        }
    }
}

/// The raw kind of error nodes.
pub open spec fn error_kind() -> u16 {
    Types::spec_kind_to_raw(NodeType::Error)
}

/// The `Error` nodes of a tree, in preorder, each with the byte offset where
/// its text starts.
pub open spec fn error_nodes(t: GreenTree) -> Seq<(GreenTree, nat)> {
    nodes_at(t, error_kind(), 0)
}

/// `errs` lists, after `first`, one error for each entry of `nodes`, in order.
pub open spec fn reports_all(errs: Seq<ParseError>, first: int, nodes: Seq<(GreenTree, nat)>) -> bool {
    &&& errs.len() == first + nodes.len()
    &&& forall|j: int| 0 <= j < nodes.len() ==> (#[trigger] errs[first + j]).reports(nodes[j])
}

/// A copy of an error.
fn copy_error(e: &ParseError) -> (r: ParseError)
    ensures
        r.same_as(*e),
        e.is_eof() ==> r == *e,
{
    match e {
        ParseError::Unexpected(n, offset) => ParseError::Unexpected(n.clone(), *offset),
        ParseError::UnexpectedEOF => ParseError::UnexpectedEOF,
        ParseError::UnexpectedEOFWanted(t) => ParseError::UnexpectedEOFWanted(*t),
    }
}

/// A copy of a list of errors that all report an early end of input.
fn copy_eof_errors(errs: &Vec<ParseError>) -> (r: Vec<ParseError>)
    requires
        forall|i: int| 0 <= i < errs@.len() ==> (#[trigger] errs@[i]).is_eof(),
    ensures
        r@ == errs@,
{
    let mut out: Vec<ParseError> = Vec::new();
    let mut i: usize = 0;
    while i < errs.len()
        invariant
            i <= errs@.len(),
            out@ == errs@.take(i as int),
            forall|k: int| 0 <= k < errs@.len() ==> (#[trigger] errs@[k]).is_eof(),
        decreases errs.len() - i,
    {
        let e = copy_error(&errs[i]);
        out.push(e);
        assert(errs@.take(i + 1) =~= errs@.take(i as int).push(errs@[i as int]));
        i = i + 1;
    }
    assert(errs@.take(errs@.len() as int) =~= errs@);
    out
}

/// Append an `Unexpected` error for each `Error` node of the tree, in
/// preorder, with its offset when the text of the tree starts at `offset`.
fn collect_error_nodes(g: &GreenNode, offset: u32, out: &mut Vec<ParseError>)
    requires
        offset + tree_bytes(green_tree(*g)) <= u32::MAX,
    ensures
        final(out)@.take(old(out)@.len() as int) == old(out)@,
        reports_all(final(out)@, old(out)@.len() as int, nodes_at(green_tree(*g), error_kind(), offset as nat)),
    decreases green_tree(*g),
{
    let ghost start = out@;
    let ghost children = green_children(*g);
    let is_error = green_node_kind(g) == Types::kind_to_raw(NodeType::Error);
    if is_error {
        out.push(ParseError::Unexpected(g.clone(), offset));
    }
    let ghost base = out@.len() as int;
    let n = green_child_count(g);
    let mut i: usize = 0;
    let mut pos: u32 = offset;
    assert(children.take(0) =~= Seq::<GreenTree>::empty());
    assert(tree_bytes(green_tree(*g)) == leaf_bytes(leaves_of(children)));
    while i < n
        invariant
            i <= n,
            n == children.len(),
            children == green_children(*g),
            out@.take(start.len() as int) == start,
            base == start.len() + (if is_error { 1int } else { 0int }),
            is_error ==> out@[start.len() as int].reports((green_tree(*g), offset as nat)),
            reports_all(out@, base, nodes_at_in(children.take(i as int), error_kind(), offset as nat)),
            pos == offset + leaf_bytes(leaves_of(children.take(i as int))),
            tree_bytes(green_tree(*g)) == leaf_bytes(leaves_of(children)),
            offset + tree_bytes(green_tree(*g)) <= u32::MAX,
        decreases n - i,
    {
        let ghost before = out@;
        proof {
            assert(children.take(i + 1) =~= children.take(i as int).push(children[i as int]));
            lemma_nodes_at_in_push(children.take(i as int), children[i as int], error_kind(), offset as nat);
            lemma_bytes_prefix(children, i as int);
        }
        match green_child_node(g, i) {
            Some(child) => {
                proof {
                    lemma_child_decreases(*g, i as int);
                }
                collect_error_nodes(&child, pos, out);
                proof {
                    assert(out@.take(start.len() as int) =~= before.take(start.len() as int));
                    let prev = nodes_at_in(children.take(i as int), error_kind(), offset as nat);
                    let sub = nodes_at(green_tree(child), error_kind(), pos as nat);
                    let all = prev + sub;
                    assert forall|j: int| 0 <= j < all.len() implies (#[trigger] out@[base + j]).reports(all[j]) by {
                        if j < prev.len() {
                            assert(out@.take(before.len() as int)[base + j] == before[base + j]);
                            assert(before[base + j].reports(prev[j]));
                        } else {
                            assert(out@[before.len() + (j - prev.len())].reports(sub[j - prev.len()]));
                        }
                    }
                }
            },
            None => {
                assert(nodes_at(children[i as int], error_kind(), pos as nat) =~= Seq::<(GreenTree, nat)>::empty());
            },
        }
        let len = green_child_text_len(g, i);
        pos = pos + len;
        i = i + 1;
    }
    proof {
        assert(children.take(n as int) =~= children);
        let nodes = nodes_at(green_tree(*g), error_kind(), offset as nat);
        if is_error {
            assert forall|j: int| 0 <= j < nodes.len() implies (#[trigger] out@[start.len() + j]).reports(nodes[j]) by {
                if j > 0 {
                    assert(out@[start.len() + j] == out@[base + (j - 1)]);
                }
            }
        }
    }
}

/// A child of a tree comes before the tree in the order of recursion.
proof fn lemma_child_decreases(g: GreenNode, i: int)
    requires
        0 <= i < green_children(g).len(),
    ensures
        decreases_to!(green_tree(g) => green_children(g)[i]),
{
    let t = green_tree(g);
    assert(t->Node_children == green_children(g));
    assert(decreases_to!(t => t->Node_children));
    assert(decreases_to!(t->Node_children => t->Node_children[i]));
}

/// The first `Error` node of the tree in preorder, if any, with its offset
/// when the text of the tree starts at `offset`.
fn first_error_node(g: &GreenNode, offset: u32) -> (r: Option<(GreenNode, u32)>)
    requires
        offset + tree_bytes(green_tree(*g)) <= u32::MAX,
    ensures
        r is None <==> nodes_at(green_tree(*g), error_kind(), offset as nat).len() == 0,
        r matches Some((n, o)) ==> (green_tree(n), o as nat) == nodes_at(
            green_tree(*g),
            error_kind(),
            offset as nat,
        )[0],
    decreases green_tree(*g),
{
    let ghost children = green_children(*g);
    if green_node_kind(g) == Types::kind_to_raw(NodeType::Error) {
        return Some((g.clone(), offset));
    }
    let n = green_child_count(g);
    let mut i: usize = 0;
    let mut pos: u32 = offset;
    assert(children.take(0) =~= Seq::<GreenTree>::empty());
    assert(tree_bytes(green_tree(*g)) == leaf_bytes(leaves_of(children)));
    while i < n
        invariant
            i <= n,
            n == children.len(),
            children == green_children(*g),
            green_kind(*g) != error_kind(),
            nodes_at_in(children.take(i as int), error_kind(), offset as nat).len() == 0,
            pos == offset + leaf_bytes(leaves_of(children.take(i as int))),
            tree_bytes(green_tree(*g)) == leaf_bytes(leaves_of(children)),
            offset + tree_bytes(green_tree(*g)) <= u32::MAX,
        decreases n - i,
    {
        proof {
            assert(children.take(i + 1) =~= children.take(i as int).push(children[i as int]));
            lemma_nodes_at_in_push(children.take(i as int), children[i as int], error_kind(), offset as nat);
            lemma_bytes_prefix(children, i as int);
        }
        match green_child_node(g, i) {
            Some(child) => {
                proof {
                    lemma_child_decreases(*g, i as int);
                }
                let found = first_error_node(&child, pos);
                if found.is_some() {
                    proof {
                        let upto = children.take(i + 1);
                        let after = children.skip(i + 1);
                        assert(upto + after =~= children);
                        lemma_nodes_at_in_append(upto, after, error_kind(), offset as nat);
                        assert(nodes_at_in(upto, error_kind(), offset as nat) =~= nodes_at(
                            children[i as int],
                            error_kind(),
                            pos as nat,
                        ));
                    }
                    return found;
                }
            },
            None => {
                assert(nodes_at(children[i as int], error_kind(), pos as nat) =~= Seq::<(GreenTree, nat)>::empty());
            },
        }
        let len = green_child_text_len(g, i);
        pos = pos + len;
        i = i + 1;
    }
    assert(children.take(n as int) =~= children);
    None
}

/// The result of a parse
pub struct AST {
    node: GreenNode,
    errors: Vec<ParseError>,
}

impl AST {
    /// The root is a `Root` node whose text fits rowan's 32-bit sizes, and
    /// the recorded errors are early ends of input.
    #[verifier::type_invariant]
    closed spec fn inv(self) -> bool {
        &&& green_kind(self.node) == Types::spec_kind_to_raw(NodeType::Root)
        &&& tree_bytes(green_tree(self.node)) <= u32::MAX
        &&& forall|i: int| 0 <= i < self.errors@.len() ==> (#[trigger] self.errors@[i]).is_eof()
    }

    /// The syntax tree.
    pub closed spec fn tree(self) -> GreenTree {
        green_tree(self.node)
    }

    /// The errors that the parser recorded while building the tree.
    pub closed spec fn recorded_errors(self) -> Seq<ParseError> {
        self.errors@
    }

    /// All errors in the tree: the recorded ones, then one `Unexpected` for
    /// each `Error` node of the tree, in preorder, with its offset.
    pub open spec fn lists_errors(self, errs: Seq<ParseError>) -> bool {
        &&& errs.take(self.recorded_errors().len() as int) == self.recorded_errors()
        &&& reports_all(errs, self.recorded_errors().len() as int, error_nodes(self.tree()))
    }

    /// An AST of a tree and recorded errors.
    pub(crate) fn from_parts(node: GreenNode, errors: Vec<ParseError>) -> (ast: AST)
        requires
            green_kind(node) == Types::spec_kind_to_raw(NodeType::Root),
            tree_bytes(green_tree(node)) <= u32::MAX,
            forall|i: int| 0 <= i < errors@.len() ==> (#[trigger] errors@[i]).is_eof(),
        ensures
            ast.tree() == green_tree(node),
            ast.recorded_errors() == errors@,
    {
        AST { node, errors }
    }

    /// Return the root node
    pub fn into_node(self) -> (node: GreenNode)
        ensures
            green_tree(node) == self.tree(),
    {
        self.node
    }

    /// Return a reference to the root node
    pub fn node(&self) -> (node: &GreenNode)
        ensures
            green_tree(*node) == self.tree(),
    {
        &self.node
    }

    /// Return a borrowed root node, which is of kind `Root`
    pub fn root(&self) -> (node: &GreenNode)
        ensures
            green_tree(*node) == self.tree(),
            green_kind(*node) == Types::spec_kind_to_raw(NodeType::Root),
    {
        proof {
            use_type_invariant(self);
        }
        &self.node
    }

    /// Return an owned root node, which is of kind `Root`
    pub fn into_root(self) -> (node: GreenNode)
        ensures
            green_tree(node) == self.tree(),
            green_kind(node) == Types::spec_kind_to_raw(NodeType::Root),
    {
        proof {
            use_type_invariant(&self);
        }
        self.node
    }

    /// Return all errors in the tree, if any
    pub fn errors(&self) -> (errs: Vec<ParseError>)
        ensures
            self.lists_errors(errs@),
    {
        proof {
            use_type_invariant(self);
        }
        let mut errors = copy_eof_errors(&self.errors);
        assert(errors@.take(self.errors@.len() as int) =~= self.errors@);
        collect_error_nodes(&self.node, 0, &mut errors);
        errors
    }

    /// Either return the first error in the tree, or if there are none return self
    pub fn as_result(self) -> (r: Result<AST, ParseError>)
        ensures
            self.recorded_errors().len() > 0 ==> r == Err::<AST, ParseError>(self.recorded_errors()[0]),
            self.recorded_errors().len() == 0 && error_nodes(self.tree()).len() > 0 ==> (r matches Err(
                e,
            ) && e.reports(error_nodes(self.tree())[0])),
            self.recorded_errors().len() == 0 && error_nodes(self.tree()).len() == 0 ==> r == Ok::<
                AST,
                ParseError,
            >(self),
    {
        proof {
            use_type_invariant(&self);
        }
        if self.errors.len() > 0 {
            return Err(copy_error(&self.errors[0]));
        }
        match first_error_node(&self.node, 0) {
            Some((node, offset)) => Err(ParseError::Unexpected(node, offset)),
            None => Ok(self),
        }
    }
}

impl Clone for AST {
    /// Another handle on the same tree, with the same recorded errors.
    fn clone(&self) -> (r: AST)
        ensures
            r.tree() == self.tree(),
            r.recorded_errors() == self.recorded_errors(),
    {
        proof {
            use_type_invariant(self);
        }
        let errors = copy_eof_errors(&self.errors);
        AST { node: self.node.clone(), errors }
    }
}

/// `as_result` gives an error exactly when `errors` lists one, and then the
/// first error that `errors` lists.
pub proof fn lemma_as_result_is_first_error(ast: AST, errs: Seq<ParseError>, r: Result<AST, ParseError>)
    requires
        ast.lists_errors(errs),
        ast.recorded_errors().len() > 0 ==> r == Err::<AST, ParseError>(ast.recorded_errors()[0]),
        ast.recorded_errors().len() == 0 && error_nodes(ast.tree()).len() > 0 ==> (r matches Err(e)
            && e.reports(error_nodes(ast.tree())[0])),
        ast.recorded_errors().len() == 0 && error_nodes(ast.tree()).len() == 0 ==> r == Ok::<
            AST,
            ParseError,
        >(ast),
    ensures
        r is Ok <==> errs.len() == 0,
        r matches Err(e) ==> e.same_as(errs[0]),
{
    let k = ast.recorded_errors().len() as int;
    if k > 0 {
        assert(errs.take(k)[0] == errs[0]);
    } else if error_nodes(ast.tree()).len() > 0 {
        assert(errs[k + 0].reports(error_nodes(ast.tree())[0]));
    }
}

} // verus!

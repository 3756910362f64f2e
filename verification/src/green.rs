//! Syntax trees as the `rowan` crate builds and stores them, and a
//! mathematical model of them that the parser's contracts speak of.

use vstd::prelude::*;
use vstd::utf8::encode_utf8;
use rowan::{Checkpoint, GreenNode, GreenNodeBuilder, NodeOrToken, SyntaxKind};

verus! {

#[verifier::external_type_specification]
#[verifier::external_body]
pub struct ExGreenNode(GreenNode);

#[verifier::external_type_specification]
#[verifier::external_body]
pub struct ExGreenNodeBuilder<'cache>(GreenNodeBuilder<'cache>);

#[verifier::external_type_specification]
#[verifier::external_body]
pub struct ExCheckpoint(Checkpoint);

/// A syntax tree as a mathematical value: inner nodes carry a raw kind and
/// their children in order, leaves (tokens) carry a raw kind and their text.
pub enum GreenTree {
    Node { kind: u16, children: Seq<GreenTree> },
    Token { kind: u16, text: Seq<char> },
}

impl GreenTree {
    pub open spec fn kind(self) -> u16 {
        match self {
            GreenTree::Node { kind, .. } => kind,
            GreenTree::Token { kind, .. } => kind,
        }
    }
}

/// The leaves of a tree, left to right: each a raw kind and its text.
pub open spec fn leaves(t: GreenTree) -> Seq<(u16, Seq<char>)>
    decreases t,
{
    match t {
        GreenTree::Node { children, .. } => leaves_of(children),
        GreenTree::Token { kind, text } => seq![(kind, text)],
    }
}

/// The leaves of a sequence of trees, left to right.
pub open spec fn leaves_of(s: Seq<GreenTree>) -> Seq<(u16, Seq<char>)>
    decreases s,
{
    if s.len() == 0 {
        Seq::empty()
    } else {
        leaves_of(s.drop_last()) + leaves(s.last())
    }
}

/// The number of bytes that the texts of some leaves take in UTF-8.
pub open spec fn leaf_bytes(l: Seq<(u16, Seq<char>)>) -> nat
    decreases l.len(),
{
    if l.len() == 0 {
        0
    } else {
        leaf_bytes(l.drop_last()) + encode_utf8(l.last().1).len()
    }
}

/// The number of bytes that the text of a tree takes in UTF-8.
pub open spec fn tree_bytes(t: GreenTree) -> nat {
    leaf_bytes(leaves(t))
}

/// The inner nodes of a tree whose kind is `kind`, in preorder, each with
/// the byte offset where its text starts, when the tree's text starts at
/// `start`.
pub open spec fn nodes_at(t: GreenTree, kind: u16, start: nat) -> Seq<(GreenTree, nat)>
    decreases t,
{
    match t {
        GreenTree::Node { kind: k, children } => {
            if k == kind {
                seq![(t, start)] + nodes_at_in(children, kind, start)
            } else {
                nodes_at_in(children, kind, start)
            }
        },
        GreenTree::Token { .. } => Seq::empty(),
    }
}

/// The inner nodes of a sequence of trees whose kind is `kind`, in preorder,
/// with their offsets, when the text of the sequence starts at `start`.
pub open spec fn nodes_at_in(s: Seq<GreenTree>, kind: u16, start: nat) -> Seq<(GreenTree, nat)>
    decreases s,
{
    if s.len() == 0 {
        Seq::empty()
    } else {
        nodes_at_in(s.drop_last(), kind, start) + nodes_at(
            s.last(),
            kind,
            start + leaf_bytes(leaves_of(s.drop_last())),
        )
    }
}

/// The children that a tree builder holds: the finished trees of the node
/// under construction and of its unfinished ancestors, left to right.
pub uninterp spec fn builder_children(b: GreenNodeBuilder<'static>) -> Seq<GreenTree>;

/// The nodes that a tree builder has started and not finished, outermost
/// first: each its raw kind and the index in the builder's children where
/// its own children begin.
pub uninterp spec fn builder_parents(b: GreenNodeBuilder<'static>) -> Seq<(u16, nat)>;

/// The number of builder children that a checkpoint marks.
pub uninterp spec fn checkpoint_index(c: Checkpoint) -> nat;

/// The raw kind of the root of a tree.
pub uninterp spec fn green_kind(g: GreenNode) -> u16;

/// The children of the root of a tree.
pub uninterp spec fn green_children(g: GreenNode) -> Seq<GreenTree>;

/// A tree as a mathematical value.
pub open spec fn green_tree(g: GreenNode) -> GreenTree {
    GreenTree::Node { kind: green_kind(g), children: green_children(g) }
}

/// `GreenNodeBuilder::new`: a builder with no children and no started node.
#[verifier::external_body]
pub(crate) fn builder_new() -> (b: GreenNodeBuilder<'static>)
    ensures
        builder_children(b) == Seq::<GreenTree>::empty(),
        builder_parents(b) == Seq::<(u16, nat)>::empty(),
{
    GreenNodeBuilder::new()
}

/// `GreenNodeBuilder::token`: appends a leaf with the given kind and text to
/// the builder's children.
#[verifier::external_body]
pub(crate) fn builder_token(b: &mut GreenNodeBuilder<'static>, kind: u16, text: &str)
    ensures
        builder_children(*final(b)) == builder_children(*old(b)).push(
            GreenTree::Token { kind, text: text@ },
        ),
        builder_parents(*final(b)) == builder_parents(*old(b)),
{
    b.token(SyntaxKind(kind), text)
}

/// `GreenNodeBuilder::start_node`: starts a node of the given kind whose
/// children begin at the current end of the builder's children.
#[verifier::external_body]
pub(crate) fn builder_start_node(b: &mut GreenNodeBuilder<'static>, kind: u16)
    ensures
        builder_children(*final(b)) == builder_children(*old(b)),
        builder_parents(*final(b)) == builder_parents(*old(b)).push(
            (kind, builder_children(*old(b)).len()),
        ),
{
    b.start_node(SyntaxKind(kind))
}

/// `GreenNodeBuilder::finish_node`: pops the last started node and replaces
/// the children from its start on by one node of its kind that holds them.
/// The source pops with `unwrap`, drains the children from the start index,
/// and sums the byte lengths of the texts into a `u32`: each of these panics
/// outside what `requires` admits.
#[verifier::external_body]
pub(crate) fn builder_finish_node(b: &mut GreenNodeBuilder<'static>)
    requires
        builder_parents(*old(b)).len() > 0,
        builder_parents(*old(b)).last().1 <= builder_children(*old(b)).len(),
        leaf_bytes(
            leaves_of(builder_children(*old(b)).skip(builder_parents(*old(b)).last().1 as int)),
        ) <= u32::MAX,
    ensures
        ({
            let (kind, first) = builder_parents(*old(b)).last();
            let children = builder_children(*old(b));
            &&& builder_parents(*final(b)) == builder_parents(*old(b)).drop_last()
            &&& builder_children(*final(b)) == children.take(first as int).push(
                GreenTree::Node { kind, children: children.skip(first as int) },
            )
        }),
{
    b.finish_node()
}

/// `GreenNodeBuilder::checkpoint`: marks the current number of children.
#[verifier::external_body]
pub(crate) fn builder_checkpoint(b: &GreenNodeBuilder<'static>) -> (c: Checkpoint)
    ensures
        checkpoint_index(c) == builder_children(*b).len(),
{
    b.checkpoint()
}

/// `GreenNodeBuilder::start_node_at`: starts a node of the given kind whose
/// children begin at the checkpoint. The source asserts that the checkpoint
/// lies within the children and not before the start of the last started node.
#[verifier::external_body]
pub(crate) fn builder_start_node_at(b: &mut GreenNodeBuilder<'static>, c: Checkpoint, kind: u16)
    requires
        checkpoint_index(c) <= builder_children(*old(b)).len(),
        builder_parents(*old(b)).len() > 0 ==> builder_parents(*old(b)).last().1 <= checkpoint_index(c),
    ensures
        builder_children(*final(b)) == builder_children(*old(b)),
        builder_parents(*final(b)) == builder_parents(*old(b)).push((kind, checkpoint_index(c))),
{
    b.start_node_at(c, SyntaxKind(kind))
}

/// `GreenNodeBuilder::finish`: the single child of the builder, which the
/// source asserts to be there and to be a node.
#[verifier::external_body]
pub(crate) fn builder_finish(b: GreenNodeBuilder<'static>) -> (g: GreenNode)
    requires
        builder_children(b).len() == 1,
        builder_children(b)[0] is Node,
    ensures
        green_tree(g) == builder_children(b)[0],
{
    b.finish()
}

/// `GreenNodeData::kind`: the raw kind of the root.
#[verifier::external_body]
pub(crate) fn green_node_kind(g: &GreenNode) -> (k: u16)
    ensures
        k == green_kind(*g),
{
    g.kind().0
}

/// `GreenNodeData::children` and its `len`: the number of children of the root.
#[verifier::external_body]
pub(crate) fn green_child_count(g: &GreenNode) -> (n: usize)
    ensures
        n == green_children(*g).len(),
{
    g.children().len()
}

/// `GreenNodeData::children` and `nth`: the child at index `i` if it is a
/// node, as an owned tree, and `None` if it is a token.
#[verifier::external_body]
pub(crate) fn green_child_node(g: &GreenNode, i: usize) -> (r: Option<GreenNode>)
    requires
        i < green_children(*g).len(),
    ensures
        green_children(*g)[i as int] is Node <==> r is Some,
        r matches Some(n) ==> green_tree(n) == green_children(*g)[i as int],
{
    match g.children().nth(i) {
        Some(NodeOrToken::Node(n)) => Some(n.to_owned()),
        _ => None,
    }
}

/// `GreenNodeData::children`, `nth` and `text_len`: the number of bytes of
/// the text of the child at index `i`. rowan stores the sum of the lengths
/// of the texts below each node, as a 32-bit size that `requires` keeps from
/// overflowing.
#[verifier::external_body]
pub(crate) fn green_child_text_len(g: &GreenNode, i: usize) -> (n: u32)
    requires
        i < green_children(*g).len(),
        tree_bytes(green_tree(*g)) <= u32::MAX,
    ensures
        n == tree_bytes(green_children(*g)[i as int]),
{
    match g.children().nth(i) {
        Some(child) => u32::from(child.text_len()),
        None => 0,
    }
}

/// `Clone` for `GreenNode` (derived: it clones the shared pointer), which
/// gives another handle on the same tree.
pub assume_specification[ <GreenNode as Clone>::clone ](g: &GreenNode) -> (r: GreenNode)
    ensures
        green_tree(r) == green_tree(*g),
;

/// Dropping the element just pushed gives the sequence back.
pub broadcast proof fn lemma_push_drop_last<A>(s: Seq<A>, a: A)
    ensures
        #[trigger] s.push(a).drop_last() == s,
{
    assert(s.push(a).drop_last() =~= s);
}

/// The leaves of a sequence of trees with one more tree at the end.
pub proof fn lemma_leaves_of_push(s: Seq<GreenTree>, t: GreenTree)
    ensures
        leaves_of(s.push(t)) == leaves_of(s) + leaves(t),
{
    assert(s.push(t).drop_last() =~= s);
}

/// The leaves of two sequences of trees, one after the other.
pub proof fn lemma_leaves_of_append(a: Seq<GreenTree>, b: Seq<GreenTree>)
    ensures
        leaves_of(a + b) == leaves_of(a) + leaves_of(b),
    decreases b.len(),
{
    if b.len() == 0 {
        assert(a + b =~= a);
        assert(leaves_of(a) + leaves_of(b) =~= leaves_of(a));
    } else {
        lemma_leaves_of_append(a, b.drop_last());
        assert((a + b).drop_last() =~= a + b.drop_last());
        assert((a + b).last() == b.last());
        assert(leaves_of(a) + leaves_of(b.drop_last()) + leaves(b.last()) =~= leaves_of(a) + (
        leaves_of(b.drop_last()) + leaves(b.last())));
    }
}

/// Splitting a sequence of trees splits its leaves.
pub proof fn lemma_leaves_of_split(s: Seq<GreenTree>, i: int)
    requires
        0 <= i <= s.len(),
    ensures
        leaves_of(s) == leaves_of(s.take(i)) + leaves_of(s.skip(i)),
{
    lemma_leaves_of_append(s.take(i), s.skip(i));
    assert(s.take(i) + s.skip(i) =~= s);
}

/// Wrapping the trees from index `i` on into one node keeps the leaves.
pub proof fn lemma_leaves_of_wrap(s: Seq<GreenTree>, i: int, kind: u16)
    requires
        0 <= i <= s.len(),
    ensures
        leaves_of(s.take(i).push(GreenTree::Node { kind, children: s.skip(i) })) == leaves_of(s),
{
    lemma_leaves_of_push(s.take(i), GreenTree::Node { kind, children: s.skip(i) });
    lemma_leaves_of_split(s, i);
}

/// The bytes of two runs of leaves, one after the other.
pub proof fn lemma_leaf_bytes_append(a: Seq<(u16, Seq<char>)>, b: Seq<(u16, Seq<char>)>)
    ensures
        leaf_bytes(a + b) == leaf_bytes(a) + leaf_bytes(b),
    decreases b.len(),
{
    if b.len() == 0 {
        assert(a + b =~= a);
    } else {
        lemma_leaf_bytes_append(a, b.drop_last());
        assert((a + b).drop_last() =~= a + b.drop_last());
        assert((a + b).last() == b.last());
    }
}

/// The nodes of a kind in a sequence of trees with one more tree at the end.
pub proof fn lemma_nodes_at_in_push(s: Seq<GreenTree>, t: GreenTree, kind: u16, start: nat)
    ensures
        nodes_at_in(s.push(t), kind, start) == nodes_at_in(s, kind, start) + nodes_at(
            t,
            kind,
            start + leaf_bytes(leaves_of(s)),
        ),
{
    assert(s.push(t).drop_last() =~= s);
}

/// The nodes of a kind in two sequences of trees, one after the other.
pub proof fn lemma_nodes_at_in_append(a: Seq<GreenTree>, b: Seq<GreenTree>, kind: u16, start: nat)
    ensures
        nodes_at_in(a + b, kind, start) == nodes_at_in(a, kind, start) + nodes_at_in(
            b,
            kind,
            start + leaf_bytes(leaves_of(a)),
        ),
    decreases b.len(),
{
    if b.len() == 0 {
        assert(a + b =~= a);
        assert(nodes_at_in(a, kind, start) + nodes_at_in(b, kind, start + leaf_bytes(leaves_of(a)))
            =~= nodes_at_in(a, kind, start));
    } else {
        let bd = b.drop_last();
        lemma_nodes_at_in_append(a, bd, kind, start);
        assert((a + b).drop_last() =~= a + bd);
        assert((a + b).last() == b.last());
        lemma_leaves_of_append(a, bd);
        lemma_leaf_bytes_append(leaves_of(a), leaves_of(bd));
        let s2 = start + leaf_bytes(leaves_of(a));
        assert(nodes_at_in(a, kind, start) + nodes_at_in(bd, kind, s2) + nodes_at(
            b.last(),
            kind,
            s2 + leaf_bytes(leaves_of(bd)),
        ) =~= nodes_at_in(a, kind, start) + (nodes_at_in(bd, kind, s2) + nodes_at(
            b.last(),
            kind,
            s2 + leaf_bytes(leaves_of(bd)),
        )));
    }
}

/// The bytes of the trees up to and with the one at `i`, and no more than
/// the bytes of all of them.
pub proof fn lemma_bytes_prefix(s: Seq<GreenTree>, i: int)
    requires
        0 <= i < s.len(),
    ensures
        leaf_bytes(leaves_of(s.take(i + 1))) == leaf_bytes(leaves_of(s.take(i))) + tree_bytes(s[i]),
        leaf_bytes(leaves_of(s.take(i + 1))) <= leaf_bytes(leaves_of(s)),
{
    assert(s.take(i + 1) =~= s.take(i).push(s[i]));
    lemma_leaves_of_push(s.take(i), s[i]);
    lemma_leaf_bytes_append(leaves_of(s.take(i)), leaves(s[i]));
    lemma_leaves_of_split(s, i + 1);
    lemma_leaf_bytes_append(leaves_of(s.take(i + 1)), leaves_of(s.skip(i + 1)));
}

} // verus!

//! The parser: turns a series of tokens into an AST

use vstd::prelude::*;
use rowan::{Checkpoint, GreenNodeBuilder};
use crate::ast::{AST, ParseError};
use crate::green::{
    green_tree,
    builder_checkpoint, builder_children, builder_finish, builder_finish_node, builder_new, builder_parents, builder_start_node, builder_start_node_at,
    builder_token, checkpoint_index, leaf_bytes, leaves_of, lemma_leaf_bytes_append,
    lemma_leaves_of_push, lemma_leaves_of_split, lemma_leaves_of_wrap, leaves, GreenTree,
};
use crate::grammar::{
    advanced, apply_loop, attr_parts, attr_step, binary_step, brace_step, bump_step, clause_step, dynamic_body,
    dynamic_step, entry_step, error_run, expect_step, expr_step, fail, fn_step, ident_step, index_loop,
    inherit_names, inherit_step, interpol_code, interpol_parts, interpol_step, invert_step, is_or, join, kind_at,
    leaf, lemma_rest_leaves, lemma_skip_trivia, level_ops, level_once, list_items, negate_step, next_attr_step,
    op_loop, operand_step, pat_entry, pattern_ahead, pattern_entries, pattern_step, rest_leaves, root_step,
    set_step, skip_trivia, stay, val_main, val_step, wrap, Step,
};
use crate::kinds::{NodeType, Types};
use crate::token::Token;

verus! {

broadcast use crate::green::lemma_push_drop_last;

/// The leaf that a token becomes in the tree: its kind as stored, and its text.
pub open spec fn token_leaf(t: (Token, String)) -> (u16, Seq<char>) {
    (Types::spec_kind_to_raw(NodeType::Token(t.0)), t.1@)
}

/// The leaves that a run of tokens becomes in the tree.
pub open spec fn token_leaves(toks: Seq<(Token, String)>) -> Seq<(u16, Seq<char>)> {
    toks.map_values(|t: (Token, String)| token_leaf(t))
}

/// The number of bytes that the texts of the tokens take in UTF-8.
pub open spec fn token_bytes(toks: Seq<(Token, String)>) -> nat {
    leaf_bytes(token_leaves(toks))
}

/// The index of the first token from `i` on that is not trivia, or the
/// length of the input if there is none.
pub open spec fn next_data(toks: Seq<(Token, String)>, i: int) -> int
    decreases toks.len() - i,
{
    if i >= toks.len() {
        toks.len() as int
    } else if !toks[i].0.spec_is_trivia() {
        i
    } else {
        next_data(toks, i + 1)
    }
}

/// The first token from `i` on that is not trivia, if any.
pub open spec fn data_at(toks: Seq<(Token, String)>, i: int) -> Option<Token> {
    let j = next_data(toks, i);
    if j < toks.len() {
        Some(toks[j].0)
    } else {
        None
    }
}

/// The kinds that the nodes left open in a builder can have, and where
/// their children begin: no later than the end, and in order.
pub open spec fn parents_ok(parents: Seq<(u16, nat)>, len: nat) -> bool {
    &&& forall|i: int| 0 <= i < parents.len() ==> #[trigger] parents[i].1 <= len
    &&& forall|i: int, j: int| 0 <= i <= j < parents.len() ==> #[trigger] parents[i].1 <= #[trigger] parents[j].1
}

/// `a` is a prefix of `b`: a later builder state keeps the earlier children.
pub open spec fn prefix(a: Seq<GreenTree>, b: Seq<GreenTree>) -> bool {
    &&& a.len() <= b.len()
    &&& forall|i: int| 0 <= i < a.len() ==> #[trigger] b[i] == a[i]
}

/// The raw kinds of trivia tokens: comments, whitespace, unrecognised input.
pub open spec fn is_trivia_kind(kind: u16) -> bool {
    ||| kind == Types::spec_kind_to_raw(NodeType::Token(Token::Comment))
    ||| kind == Types::spec_kind_to_raw(NodeType::Token(Token::Error))
    ||| kind == Types::spec_kind_to_raw(NodeType::Token(Token::Whitespace))
}

/// A leaf of a trivia token.
pub open spec fn is_trivia_tree(t: GreenTree) -> bool {
    t is Token && is_trivia_kind(t.kind())
}

/// `b` is `a` followed by trivia leaves only.
pub open spec fn trivia_after(a: Seq<GreenTree>, b: Seq<GreenTree>) -> bool {
    &&& prefix(a, b)
    &&& forall|i: int| a.len() <= i < b.len() ==> is_trivia_tree(#[trigger] b[i])
}

/// Of the trees that `b` has after `a`, the one at `k` is the only one that
/// is not trivia.
pub open spec fn element_at(a: Seq<GreenTree>, b: Seq<GreenTree>, k: int) -> bool {
    &&& a.len() <= k < b.len()
    &&& !is_trivia_tree(b[k])
    &&& forall|i: int| a.len() <= i < b.len() && i != k ==> is_trivia_tree(#[trigger] b[i])
}

/// `b` is `a` followed by exactly one element that is not trivia, with
/// trivia leaves before and after it: what one expression adds to the tree.
pub open spec fn adds_element(a: Seq<GreenTree>, b: Seq<GreenTree>) -> bool {
    &&& prefix(a, b)
    &&& exists|k: int| #[trigger] element_at(a, b, k)
}

/// The leaf of a token is trivia exactly when the token is.
pub proof fn lemma_trivia_leaf(t: Token)
    ensures
        is_trivia_kind(Types::spec_kind_to_raw(NodeType::Token(t))) == t.spec_is_trivia(),
{
    crate::kinds::lemma_kind_raw_injective(NodeType::Token(t), NodeType::Token(Token::Comment));
    crate::kinds::lemma_kind_raw_injective(NodeType::Token(t), NodeType::Token(Token::Error));
    crate::kinds::lemma_kind_raw_injective(NodeType::Token(t), NodeType::Token(Token::Whitespace));
}

/// Trivia, then one more tree that is not trivia, make one element.
pub proof fn lemma_element_push(a: Seq<GreenTree>, m: Seq<GreenTree>, x: GreenTree)
    requires
        trivia_after(a, m),
        !is_trivia_tree(x),
    ensures
        adds_element(a, m.push(x)),
{
    assert(element_at(a, m.push(x), m.len() as int));
}

/// An element followed by more trivia is still one element.
pub proof fn lemma_element_then_trivia(a: Seq<GreenTree>, m: Seq<GreenTree>, n: Seq<GreenTree>)
    requires
        adds_element(a, m),
        trivia_after(m, n),
    ensures
        adds_element(a, n),
{
    let k = choose|k: int| #[trigger] element_at(a, m, k);
    assert(element_at(a, n, k));
}

/// Trivia followed by an element is one element.
pub proof fn lemma_trivia_then_element(a: Seq<GreenTree>, m: Seq<GreenTree>, n: Seq<GreenTree>)
    requires
        trivia_after(a, m),
        adds_element(m, n),
    ensures
        adds_element(a, n),
{
    let k = choose|k: int| #[trigger] element_at(m, n, k);
    assert(element_at(a, n, k));
}

/// Two steps, one after the other, make one step.
proof fn lemma_join(a: Parser, b: Parser, c: Parser, s1: Step, s2: Step)
    requires
        a.took(b, s1),
        b.took(c, s2),
    ensures
        a.took(c, join(s1, s2)),
{
    assert(c.children() =~= a.children() + join(s1, s2).trees);
    assert(c.errors() =~= a.errors() + join(s1, s2).errs);
}

/// Wrapping what a step added in one node makes the wrapped step.
proof fn lemma_wrap(a: Parser, b: Parser, c: Parser, s: Step, kind: NodeType)
    requires
        a.took(b, s),
        ({
            let n = a.children().len() as int;
            let node = GreenTree::Node { kind: Types::spec_kind_to_raw(kind), children: b.children().skip(n) };
            c.children() == b.children().take(n).push(node) || c.children() == a.children().push(node)
        }),
        c.position() == b.position(),
        c.errors() == b.errors(),
    ensures
        a.took(c, wrap(kind, s)),
{
    let n = a.children().len() as int;
    assert(b.children().take(n) =~= a.children());
    assert(b.children().skip(n) =~= s.trees);
    assert(c.children() =~= a.children() + wrap(kind, s).trees);
}

/// Taking the first part of what is left leaves the second part.
proof fn lemma_rest_step(x: Parser, y: Parser, s: Step, rest: Step, start: Parser, goal: Step)
    requires
        x.rest_is(join(s, rest), start, goal),
        x.took(y, s),
    ensures
        y.rest_is(rest, start, goal),
{
    assert(y.children() + rest.trees =~= x.children() + join(s, rest).trees);
    assert(y.errors() + rest.errs =~= x.errors() + join(s, rest).errs);
}

/// Taking all that is left reaches the goal.
proof fn lemma_rest_done(x: Parser, y: Parser, rest: Step, start: Parser, goal: Step)
    requires
        x.rest_is(rest, start, goal),
        x.took(y, rest),
    ensures
        start.took(y, goal),
{
}

/// A recursive-descent parser for Nix that feeds a tree builder.
pub struct Parser {
    builder: GreenNodeBuilder<'static>,
    errors: Vec<ParseError>,
    tokens: Vec<(Token, String)>,
    pos: usize,
}

impl Parser {
    /// The input tokens.
    pub closed spec fn input(self) -> Seq<(Token, String)> {
        self.tokens@
    }

    /// The number of tokens consumed so far.
    pub closed spec fn position(self) -> int {
        self.pos as int
    }

    /// The finished trees that the builder holds.
    pub closed spec fn children(self) -> Seq<GreenTree> {
        builder_children(self.builder)
    }

    /// The nodes that are started and not finished.
    pub closed spec fn parents(self) -> Seq<(u16, nat)> {
        builder_parents(self.builder)
    }

    /// The errors recorded so far.
    pub closed spec fn errors(self) -> Seq<ParseError> {
        self.errors@
    }

    /// Whether all tokens are consumed.
    pub open spec fn at_end(self) -> bool {
        self.position() >= self.input().len()
    }

    /// The parser's invariant: the consumed tokens are exactly the leaves of
    /// the builder, in order; the open nodes are consistent; every recorded
    /// error is an early end of input and comes only once the input is
    /// exhausted; and the whole text fits the tree's 32-bit lengths.
    pub closed spec fn wf(self) -> bool {
        &&& self.pos <= self.tokens.len()
        &&& token_bytes(self.tokens@) <= u32::MAX
        &&& leaves_of(self.children()) == token_leaves(self.tokens@.take(self.pos as int))
        &&& parents_ok(self.parents(), self.children().len())
        &&& forall|i: int| 0 <= i < self.errors@.len() ==> (#[trigger] self.errors@[i]).is_eof()
        &&& self.errors@.len() > 0 ==> self.pos == self.tokens.len()
    }

    /// `next` is a later state of `self` with the same open nodes: same
    /// input, no earlier position, no fewer children or errors.
    pub open spec fn extends(self, next: Parser) -> bool {
        &&& next.input() == self.input()
        &&& self.position() <= next.position()
        &&& next.parents() == self.parents()
        &&& prefix(self.children(), next.children())
        &&& self.errors().len() <= next.errors().len()
    }

    /// `next` extends `self` and has consumed at least one token, unless
    /// the input was already exhausted.
    pub open spec fn advances(self, next: Parser) -> bool {
        &&& self.extends(next)
        &&& !self.at_end() ==> self.position() < next.position()
    }

    /// `self` is a later state of `outer` inside one more open node, of the
    /// given kind, whose children begin at `first`.
    pub open spec fn inside(self, outer: Parser, kind: u16, first: nat) -> bool {
        &&& self.input() == outer.input()
        &&& outer.position() <= self.position()
        &&& self.parents() == outer.parents().push((kind, first))
        &&& outer.children().len() <= first <= self.children().len()
        &&& prefix(outer.children(), self.children())
        &&& outer.errors().len() <= self.errors().len()
    }

    /// `next` is `self` after the step `s`: the step's trees follow the
    /// children, the position is where the step stops, and its errors follow
    /// the errors.
    pub open spec fn took(self, next: Parser, s: Step) -> bool {
        &&& next.children() == self.children() + s.trees
        &&& next.position() == s.end
        &&& next.errors() == self.errors() + s.errs
    }

    /// From `self`, the step `rest` ends where `goal` ends from `start`: in
    /// a loop, what is left to do.
    pub open spec fn rest_is(self, rest: Step, start: Parser, goal: Step) -> bool {
        &&& self.children() + rest.trees == start.children() + goal.trees
        &&& self.errors() + rest.errs == start.errors() + goal.errs
        &&& rest.end == goal.end
    }

    /// A parser at the start of the input, with an empty builder.
    fn new(tokens: Vec<(Token, String)>) -> (p: Parser)
        requires
            token_bytes(tokens@) <= u32::MAX,
        ensures
            p.wf(),
            p.input() == tokens@,
            p.position() == 0,
            p.children() == Seq::<GreenTree>::empty(),
            p.parents() == Seq::<(u16, nat)>::empty(),
            p.errors() == Seq::<ParseError>::empty(),
    {
        let p = Parser { builder: builder_new(), errors: Vec::new(), tokens, pos: 0 };
        assert(p.tokens@.take(0) =~= Seq::<(Token, String)>::empty());
        assert(token_leaves(p.tokens@.take(0)) =~= Seq::<(u16, Seq<char>)>::empty());
        p
    }

    proof fn lemma_bytes_of_consumed(self)
        requires
            self.wf(),
        ensures
            leaf_bytes(leaves_of(self.children())) <= u32::MAX,
    {
        let toks = self.tokens@;
        let p = self.pos as int;
        assert(token_leaves(toks) =~= token_leaves(toks.take(p)) + token_leaves(toks.skip(p)));
        lemma_leaf_bytes_append(token_leaves(toks.take(p)), token_leaves(toks.skip(p)));
    }

    /// Consume the next token as a leaf, or record an early end of input.
    fn bump(&mut self)
        requires
            old(self).wf(),
        ensures
            final(self).wf(),
            old(self).extends(*final(self)),
            !old(self).at_end() ==> {
                &&& final(self).position() == old(self).position() + 1
                &&& final(self).children() == old(self).children().push(
                    GreenTree::Token {
                        kind: token_leaf(old(self).input()[old(self).position()]).0,
                        text: token_leaf(old(self).input()[old(self).position()]).1,
                    },
                )
                &&& final(self).errors() == old(self).errors()
                &&& is_trivia_tree(final(self).children().last()) == old(self).input()[old(self).position()].0.spec_is_trivia()
            },
            old(self).at_end() ==> {
                &&& final(self).position() == old(self).position()
                &&& final(self).children() == old(self).children()
                &&& final(self).errors() == old(self).errors().push(ParseError::UnexpectedEOF)
            },
            old(self).took(*final(self), bump_step(old(self).input(), old(self).position())),
    {
        if self.pos < self.tokens.len() {
            let kind = Types::kind_to_raw(NodeType::Token(self.tokens[self.pos].0));
            builder_token(&mut self.builder, kind, self.tokens[self.pos].1.as_str());
            proof {
                let toks = old(self).tokens@;
                let p = old(self).pos as int;
                lemma_leaves_of_push(old(self).children(), GreenTree::Token { kind, text: toks[p].1@ });
                assert(toks.take(p + 1) =~= toks.take(p).push(toks[p]));
                assert(token_leaves(toks.take(p + 1)) =~= token_leaves(toks.take(p)).push(token_leaf(toks[p])));
            }
            proof {
                lemma_trivia_leaf(old(self).tokens@[old(self).pos as int].0);
            }
            self.pos = self.pos + 1;
            assert(leaves_of(self.children()) == token_leaves(self.tokens@.take(self.pos as int)));
            assert(parents_ok(self.parents(), self.children().len()));
            assert(self.children() =~= old(self).children() + bump_step(old(self).input(), old(self).position()).trees);
            assert(self.errors() =~= old(self).errors() + bump_step(old(self).input(), old(self).position()).errs);
        } else {
            self.errors.push(ParseError::UnexpectedEOF);
            assert(forall|i: int| 0 <= i < self.errors@.len() ==> (#[trigger] self.errors@[i]).is_eof());
            assert(self.children() =~= old(self).children() + bump_step(old(self).input(), old(self).position()).trees);
            assert(self.errors() =~= old(self).errors() + bump_step(old(self).input(), old(self).position()).errs);
        }
    }

    /// Consume any trivia, then return the next token, if any.
    fn peek(&mut self) -> (r: Option<Token>)
        requires
            old(self).wf(),
        ensures
            final(self).wf(),
            old(self).extends(*final(self)),
            final(self).position() == next_data(old(self).input(), old(self).position()),
            final(self).errors() == old(self).errors(),
            trivia_after(old(self).children(), final(self).children()),
            r == data_at(old(self).input(), old(self).position()),
            r matches Some(t) ==> !final(self).at_end() && final(self).input()[final(self).position()].0 == t,
            r matches Some(t) ==> !t.spec_is_trivia(),
            r is None ==> final(self).at_end(),
            old(self).took(*final(self), skip_trivia(old(self).input(), old(self).position())),
    {
        let ghost toks = self.tokens@;
        let ghost goal = skip_trivia(toks, self.pos as int);
        proof {
            lemma_skip_trivia(toks, self.pos as int);
        }
        while self.pos < self.tokens.len() && self.tokens[self.pos].0.is_trivia()
            invariant
                self.wf(),
                old(self).extends(*self),
                self.errors() == old(self).errors(),
                trivia_after(old(self).children(), self.children()),
                next_data(self.tokens@, self.pos as int) == next_data(
                    old(self).input(),
                    old(self).position(),
                ),
                toks == self.tokens@,
                goal == skip_trivia(old(self).input(), old(self).position()),
                goal.errs == Seq::<ParseError>::empty(),
                old(self).children() + goal.trees == self.children() + skip_trivia(toks, self.pos as int).trees,
                skip_trivia(toks, self.pos as int).end == goal.end,
            decreases self.tokens.len() - self.pos,
        {
            let ghost before = self.children();
            let ghost rest = skip_trivia(toks, self.pos + 1);
            self.bump();
            assert(before + skip_trivia(toks, self.pos - 1).trees =~= self.children() + rest.trees);
        }
        assert(self.children() =~= old(self).children() + goal.trees);
        assert(self.errors() =~= old(self).errors() + goal.errs);
        if self.pos < self.tokens.len() {
            Some(self.tokens[self.pos].0)
        } else {
            None
        }
    }

    /// Start a node of the given kind at the current end of the children.
    fn start(&mut self, kind: NodeType)
        requires
            old(self).wf(),
        ensures
            final(self).wf(),
            final(self).input() == old(self).input(),
            final(self).position() == old(self).position(),
            final(self).errors() == old(self).errors(),
            final(self).children() == old(self).children(),
            final(self).parents() == old(self).parents().push(
                (Types::spec_kind_to_raw(kind), old(self).children().len()),
            ),
            final(self).parents().drop_last() == old(self).parents(),
            final(self).parents().last() == (Types::spec_kind_to_raw(kind), old(self).children().len()),
    {
        builder_start_node(&mut self.builder, Types::kind_to_raw(kind));
        assert(self.parents().drop_last() =~= old(self).parents());
    }

    /// Finish the node started last.
    fn finish(&mut self)
        requires
            old(self).wf(),
            old(self).parents().len() > 0,
        ensures
            final(self).wf(),
            final(self).input() == old(self).input(),
            final(self).position() == old(self).position(),
            final(self).errors() == old(self).errors(),
            final(self).parents() == old(self).parents().drop_last(),
            ({
                let (kind, first) = old(self).parents().last();
                let children = old(self).children();
                final(self).children() == children.take(first as int).push(
                    GreenTree::Node { kind, children: children.skip(first as int) },
                )
            }),
    {
        proof {
            let children = self.children();
            let first = self.parents().last().1 as int;
            old(self).lemma_bytes_of_consumed();
            lemma_leaves_of_split(children, first);
            lemma_leaf_bytes_append(leaves_of(children.take(first)), leaves_of(children.skip(first)));
            lemma_leaves_of_wrap(children, first, self.parents().last().0);
        }
        builder_finish_node(&mut self.builder);
        proof {
            let ps = self.parents();
            let old_ps = old(self).parents();
            assert forall|i: int, j: int| 0 <= i <= j < ps.len() implies #[trigger] ps[i].1
                <= #[trigger] ps[j].1 by {
                assert(old_ps[i].1 <= old_ps[j].1);
            }
            assert forall|i: int| 0 <= i < ps.len() implies #[trigger] ps[i].1
                <= self.children().len() by {
                assert(old_ps[i].1 <= old_ps[old_ps.len() - 1].1);
            }
        }
    }

    /// Finish the node started last, when it was started after `base` and
    /// trivia only: the children then hold one element more than `base`.
    fn finish_element(&mut self, Ghost(base): Ghost<Seq<GreenTree>>, Ghost(at_start): Ghost<Seq<GreenTree>>)
        requires
            old(self).wf(),
            old(self).parents().len() > 0,
            old(self).parents().last().1 == at_start.len(),
            prefix(at_start, old(self).children()),
            trivia_after(base, at_start),
        ensures
            final(self).wf(),
            final(self).input() == old(self).input(),
            final(self).position() == old(self).position(),
            final(self).errors() == old(self).errors(),
            final(self).parents() == old(self).parents().drop_last(),
            final(self).children() == at_start.push(
                GreenTree::Node {
                    kind: old(self).parents().last().0,
                    children: old(self).children().skip(at_start.len() as int),
                },
            ),
            adds_element(base, final(self).children()),
    {
        self.finish();
        proof {
            assert(old(self).children().take(at_start.len() as int) =~= at_start);
            lemma_element_push(base, at_start, self.children().last());
        }
    }

    /// Mark the current end of the children, for wrapping later.
    fn checkpoint(&self) -> (c: Checkpoint)
        requires
            self.wf(),
        ensures
            checkpoint_index(c) == self.children().len(),
            self.parents().len() > 0 ==> self.parents().last().1 <= checkpoint_index(c),
    {
        builder_checkpoint(&self.builder)
    }

    /// Start a node of the given kind whose children begin at a checkpoint.
    fn start_at(&mut self, c: Checkpoint, kind: NodeType)
        requires
            old(self).wf(),
            checkpoint_index(c) <= old(self).children().len(),
            old(self).parents().len() > 0 ==> old(self).parents().last().1 <= checkpoint_index(c),
        ensures
            final(self).wf(),
            final(self).input() == old(self).input(),
            final(self).position() == old(self).position(),
            final(self).errors() == old(self).errors(),
            final(self).children() == old(self).children(),
            final(self).parents() == old(self).parents().push(
                (Types::spec_kind_to_raw(kind), checkpoint_index(c)),
            ),
            final(self).parents().drop_last() == old(self).parents(),
            final(self).parents().last() == (Types::spec_kind_to_raw(kind), checkpoint_index(c)),
    {
        builder_start_node_at(&mut self.builder, c, Types::kind_to_raw(kind));
        assert(self.parents().drop_last() =~= old(self).parents());
    }
    /// Consume `expected`. Anything that comes before it is wrapped in an
    /// `Error` node; at the end of the input an error is recorded instead.
    fn expect(&mut self, expected: Token)
        requires
            old(self).wf(),
        ensures
            final(self).wf(),
            old(self).advances(*final(self)),
            data_at(old(self).input(), old(self).position()) is None ==> {
                &&& final(self).errors() == old(self).errors().push(ParseError::UnexpectedEOFWanted(expected))
                &&& trivia_after(old(self).children(), final(self).children())
            },
            data_at(old(self).input(), old(self).position()) == Some(expected) ==> {
                &&& final(self).errors() == old(self).errors()
                &&& adds_element(old(self).children(), final(self).children())
                &&& final(self).children().last() == (GreenTree::Token {
                    kind: Types::spec_kind_to_raw(NodeType::Token(expected)),
                    text: final(self).input()[final(self).position() - 1].1@,
                })
            },
            old(self).took(*final(self), expect_step(old(self).input(), old(self).position(), expected)),
    {
        let ghost base = self.children();
        let ghost toks = self.tokens@;
        let ghost a0 = *self;
        let next = self.peek();
        let ghost s = self.children();
        let ghost a1 = *self;
        let ghost p = self.pos as int;
        match next {
            Some(actual) => {
                if actual != expected {
                    self.start(NodeType::Error);
                    let ghost first = self.children().len();
                    self.bump();
                    let ghost a3 = *self;
                    loop
                        invariant_except_break
                            self.children() + error_run(toks, self.pos as int, expected).trees == a3.children()
                                + error_run(toks, p + 1, expected).trees,
                            self.errors() + error_run(toks, self.pos as int, expected).errs == a3.errors()
                                + error_run(toks, p + 1, expected).errs,
                            error_run(toks, self.pos as int, expected).end == error_run(toks, p + 1, expected).end,
                        invariant
                            self.wf(),
                            self.inside(*old(self), Types::spec_kind_to_raw(NodeType::Error), first),
                            toks == self.tokens@,
                            a3.position() == p + 1,
                            self.parents() == a3.parents(),
                        ensures
                            a3.took(*self, error_run(toks, p + 1, expected)),
                        decreases self.tokens.len() - self.pos,
                    {
                        let ghost x = *self;
                        let ghost run = error_run(toks, self.pos as int, expected);
                        let n = self.peek();
                        let ghost y = *self;
                        proof {
                            lemma_skip_trivia(toks, x.position());
                        }
                        match n {
                            Some(a) if a != expected => {
                                self.bump();
                                proof {
                                    let rest = error_run(toks, y.position() + 1, expected);
                                    assert(run.trees == skip_trivia(toks, x.position()).trees + (seq![leaf(toks[y.position()])] + rest.trees));
                                    assert(self.children() + rest.trees =~= x.children() + run.trees);
                                    assert(self.errors() + rest.errs =~= x.errors() + run.errs);
                                }
                            },
                            _ => {
                                proof {
                                    assert(y.children() =~= a3.children() + error_run(toks, p + 1, expected).trees);
                                    assert(y.errors() =~= a3.errors() + error_run(toks, p + 1, expected).errs);
                                }
                                break;
                            },
                        }
                    }
                    let ghost a4 = *self;
                    self.finish();
                    let ghost a5 = *self;
                    proof {
                        lemma_join(a1, a3, a4, bump_step(toks, p), error_run(toks, p + 1, expected));
                        lemma_wrap(a1, a4, a5, join(bump_step(toks, p), error_run(toks, p + 1, expected)), NodeType::Error);
                    }
                }
                let ghost a5 = *self;
                self.bump();
                proof {
                    if actual == expected {
                        lemma_trivia_leaf(expected);
                        lemma_element_push(base, s, self.children().last());
                        lemma_join(a0, a1, *self, skip_trivia(toks, a0.position()), bump_step(toks, p));
                    } else {
                        let e = wrap(NodeType::Error, join(bump_step(toks, p), error_run(toks, p + 1, expected)));
                        lemma_join(a1, a5, *self, e, bump_step(toks, e.end));
                        lemma_join(a0, a1, *self, skip_trivia(toks, a0.position()), join(e, bump_step(toks, e.end)));
                    }
                }
            },
            None => {
                self.errors.push(ParseError::UnexpectedEOFWanted(expected));
                assert(forall|i: int| 0 <= i < self.errors@.len() ==> (#[trigger] self.errors@[i]).is_eof());
                proof {
                    let f = crate::grammar::fail(p, ParseError::UnexpectedEOFWanted(expected));
                    assert(self.children() =~= a1.children() + f.trees);
                    assert(self.errors() =~= a1.errors() + f.errs);
                    lemma_join(a0, a1, *self, skip_trivia(toks, a0.position()), f);
                }
            },
        }
    }

    /// `${ expr }` used as an attribute name: one `Dynamic` node.
    fn parse_dynamic(&mut self)
        requires
            old(self).wf(),
            !old(self).at_end(),
        ensures
            final(self).wf(),
            old(self).advances(*final(self)),
            adds_element(old(self).children(), final(self).children()),
            final(self).children().len() == old(self).children().len() + 1,
            final(self).children().last() is Node,
            final(self).children().last().kind() == Types::spec_kind_to_raw(NodeType::Dynamic),
            old(self).took(*final(self), dynamic_step(old(self).input(), old(self).position())),
        decreases old(self).input().len() - old(self).position(), 1int,
    {
        let ghost base = self.children();
        let ghost toks = self.tokens@;
        let ghost a0 = *self;
        self.start(NodeType::Dynamic);
        let ghost first = self.children().len();
        self.bump();
        let ghost a1 = *self;
        let ghost goal = dynamic_body(toks, a1.position());
        loop
            invariant_except_break
                self.rest_is(dynamic_body(toks, self.position()), a1, goal),
            invariant
                self.wf(),
                self.inside(*old(self), Types::spec_kind_to_raw(NodeType::Dynamic), first),
                old(self).position() < self.position(),
                base == old(self).children(),
                first == base.len(),
                toks == self.tokens@,
                goal == dynamic_body(toks, a1.position()),
            ensures
                self.wf(),
                self.inside(*old(self), Types::spec_kind_to_raw(NodeType::Dynamic), first),
                old(self).position() < self.position(),
                self.rest_is(bump_step(toks, self.position()), a1, goal),
            decreases self.tokens.len() - self.pos,
        {
            let ghost x = *self;
            let next = self.peek();
            let ghost y = *self;
            let ghost s = skip_trivia(toks, x.position());
            match next {
                Some(t) if t != Token::DynamicEnd => {
                    self.parse_expr();
                    proof {
                        let e = expr_step(toks, y.position());
                        let r = dynamic_body(toks, e.end);
                        assert(dynamic_body(toks, x.position()) == join(s, join(e, r)));
                        lemma_rest_step(x, y, s, join(e, r), a1, goal);
                        lemma_rest_step(y, *self, e, r, a1, goal);
                    }
                },
                _ => {
                    proof {
                        assert(dynamic_body(toks, x.position()) == join(s, bump_step(toks, y.position())));
                        lemma_rest_step(x, y, s, bump_step(toks, y.position()), a1, goal);
                    }
                    break;
                },
            }
        }
        let ghost a2 = *self;
        self.bump();
        let ghost a3 = *self;
        self.finish_element(Ghost(base), Ghost(base));
        proof {
            lemma_rest_done(a2, a3, bump_step(toks, a2.position()), a1, goal);
            lemma_join(a0, a1, a3, bump_step(toks, a0.position()), goal);
            lemma_wrap(a0, a3, *self, join(bump_step(toks, a0.position()), goal), NodeType::Dynamic);
        }
    }

    /// A string with interpolations, literal parts and `${ expr }` parts: one
    /// `Interpol` node.
    fn parse_interpol(&mut self)
        requires
            old(self).wf(),
            !old(self).at_end(),
        ensures
            final(self).wf(),
            old(self).advances(*final(self)),
            adds_element(old(self).children(), final(self).children()),
            final(self).children().len() == old(self).children().len() + 1,
            final(self).children().last() is Node,
            final(self).children().last().kind() == Types::spec_kind_to_raw(NodeType::Interpol),
            old(self).took(*final(self), interpol_step(old(self).input(), old(self).position())),
        decreases old(self).input().len() - old(self).position(), 1int,
    {
        let ghost base = self.children();
        let ghost toks = self.tokens@;
        let ghost a0 = *self;
        self.start(NodeType::Interpol);
        let ghost outer = self.children().len();
        self.start(NodeType::InterpolLiteral);
        self.bump();
        let ghost b1 = *self;
        self.finish();
        let ghost b2 = *self;
        proof {
            lemma_wrap(a0, b1, b2, bump_step(toks, a0.position()), NodeType::InterpolLiteral);
        }
        let ghost goal = interpol_parts(toks, b2.position());
        self.start(NodeType::InterpolAst);
        let ghost mut first = self.children().len();
        let ghost mut c0 = *self;
        loop
            invariant_except_break
                self.rest_is(interpol_code(toks, self.position()), c0, interpol_code(toks, c0.position())),
            invariant
                self.wf(),
                self.input() == old(self).input(),
                old(self).position() < self.position(),
                old(self).errors().len() <= self.errors().len(),
                base == old(self).children(),
                outer == base.len(),
                outer <= first <= self.children().len(),
                prefix(old(self).children(), self.children()),
                self.parents() == old(self).parents().push(
                    (Types::spec_kind_to_raw(NodeType::Interpol), outer),
                ).push((Types::spec_kind_to_raw(NodeType::InterpolAst), first)),
                toks == self.tokens@,
                first == c0.children().len(),
                c0.position() <= self.position(),
                c0.rest_is(interpol_parts(toks, c0.position()), b2, goal),
                goal == interpol_parts(toks, b2.position()),
            ensures
                self.wf(),
                self.input() == old(self).input(),
                old(self).position() < self.position(),
                old(self).errors().len() <= self.errors().len(),
                outer <= first <= self.children().len(),
                prefix(old(self).children(), self.children()),
                self.parents() == old(self).parents().push(
                    (Types::spec_kind_to_raw(NodeType::Interpol), outer),
                ).push((Types::spec_kind_to_raw(NodeType::InterpolAst), first)),
                first == c0.children().len(),
                c0.position() <= self.position(),
                c0.rest_is(interpol_parts(toks, c0.position()), b2, goal),
                c0.took(*self, interpol_code(toks, c0.position())),
                kind_at(toks, self.position()) != Some(Token::InterpolEndStart),
            decreases self.tokens.len() - self.pos,
        {
            let ghost x = *self;
            let next = self.peek();
            let ghost y = *self;
            let ghost s = skip_trivia(toks, x.position());
            match next {
                None | Some(Token::InterpolEnd) => {
                    proof {
                        assert(interpol_code(toks, x.position()) == s);
                        lemma_rest_done(x, y, s, c0, interpol_code(toks, c0.position()));
                    }
                    break;
                },
                Some(Token::InterpolEndStart) => {
                    proof {
                        assert(interpol_code(toks, x.position()) == s);
                        lemma_rest_done(x, y, s, c0, interpol_code(toks, c0.position()));
                    }
                    self.finish();
                    let ghost y2 = *self;
                    self.start(NodeType::InterpolLiteral);
                    self.bump();
                    let ghost y4 = *self;
                    self.finish();
                    let ghost y5 = *self;
                    proof {
                        let a = interpol_code(toks, c0.position());
                        lemma_wrap(c0, y, y2, a, NodeType::InterpolAst);
                        lemma_wrap(y2, y4, y5, bump_step(toks, y.position()), NodeType::InterpolLiteral);
                        let code = wrap(NodeType::InterpolAst, a);
                        let lit = wrap(NodeType::InterpolLiteral, bump_step(toks, y.position()));
                        let r = interpol_parts(toks, y.position() + 1);
                        assert(interpol_parts(toks, c0.position()) == join(code, join(lit, r)));
                        lemma_rest_step(c0, y2, code, join(lit, r), b2, goal);
                        lemma_rest_step(y2, y5, lit, r, b2, goal);
                    }
                    self.start(NodeType::InterpolAst);
                    proof {
                        first = self.children().len();
                        c0 = *self;
                    }
                },
                Some(_) => {
                    self.parse_expr();
                    proof {
                        let e = expr_step(toks, y.position());
                        let r = interpol_code(toks, e.end);
                        let g = interpol_code(toks, c0.position());
                        assert(interpol_code(toks, x.position()) == join(s, join(e, r)));
                        lemma_rest_step(x, y, s, join(e, r), c0, g);
                        lemma_rest_step(y, *self, e, r, c0, g);
                    }
                },
            }
        }
        let ghost y = *self;
        self.finish();
        let ghost y2 = *self;
        self.start(NodeType::InterpolLiteral);
        self.bump();
        let ghost y4 = *self;
        self.finish();
        let ghost y5 = *self;
        self.finish_element(Ghost(base), Ghost(base));
        proof {
            let a = interpol_code(toks, c0.position());
            lemma_wrap(c0, y, y2, a, NodeType::InterpolAst);
            lemma_wrap(y2, y4, y5, bump_step(toks, y.position()), NodeType::InterpolLiteral);
            let code = wrap(NodeType::InterpolAst, a);
            let lit = wrap(NodeType::InterpolLiteral, bump_step(toks, y.position()));
            assert(interpol_parts(toks, c0.position()) == join(code, lit));
            lemma_rest_step(c0, y2, code, lit, b2, goal);
            lemma_rest_done(y2, y5, lit, b2, goal);
            let head = wrap(NodeType::InterpolLiteral, bump_step(toks, a0.position()));
            lemma_join(a0, b2, y5, head, goal);
            lemma_wrap(a0, y5, *self, join(head, goal), NodeType::Interpol);
        }
    }

    /// One part of an attribute path: a name, a string, or an interpolation.
    fn next_attr(&mut self)
        requires
            old(self).wf(),
        ensures
            final(self).wf(),
            old(self).advances(*final(self)),
            old(self).took(*final(self), next_attr_step(old(self).input(), old(self).position())),
        decreases old(self).input().len() - old(self).position(), 3int,
    {
        let ghost toks = self.tokens@;
        let ghost a0 = *self;
        let next = self.peek();
        let ghost a1 = *self;
        let ghost s = skip_trivia(toks, a0.position());
        let ghost p = a1.position();
        match next {
            Some(Token::DynamicStart) => {
                self.parse_dynamic();
                proof {
                    lemma_join(a0, a1, *self, s, dynamic_step(toks, p));
                }
            },
            Some(Token::InterpolStart) => {
                self.parse_interpol();
                proof {
                    lemma_join(a0, a1, *self, s, interpol_step(toks, p));
                }
            },
            Some(Token::String) => {
                self.bump();
                proof {
                    lemma_join(a0, a1, *self, s, bump_step(toks, p));
                }
            },
            _ => {
                self.expect(Token::Ident);
                proof {
                    lemma_join(a0, a1, *self, s, expect_step(toks, p, Token::Ident));
                }
            },
        }
    }

    /// An attribute path such as `a.b."c"`: one `Attribute` node.
    fn parse_attr(&mut self)
        requires
            old(self).wf(),
        ensures
            final(self).wf(),
            old(self).advances(*final(self)),
            adds_element(old(self).children(), final(self).children()),
            final(self).children().len() == old(self).children().len() + 1,
            final(self).children().last() is Node,
            final(self).children().last().kind() == Types::spec_kind_to_raw(NodeType::Attribute),
            old(self).took(*final(self), attr_step(old(self).input(), old(self).position())),
        decreases old(self).input().len() - old(self).position(), 4int,
    {
        let ghost base = self.children();
        let ghost toks = self.tokens@;
        let ghost a0 = *self;
        let ghost goal = attr_parts(toks, a0.position());
        self.start(NodeType::Attribute);
        let ghost first = self.children().len();
        loop
            invariant_except_break
                self.rest_is(attr_parts(toks, self.position()), a0, goal),
            invariant
                self.wf(),
                self.inside(*old(self), Types::spec_kind_to_raw(NodeType::Attribute), first),
                old(self).at_end() || old(self).position() < self.position() || !self.at_end(),
                base == old(self).children(),
                first == base.len(),
                toks == self.tokens@,
                goal == attr_parts(toks, a0.position()),
            ensures
                self.wf(),
                self.inside(*old(self), Types::spec_kind_to_raw(NodeType::Attribute), first),
                old(self).at_end() || old(self).position() < self.position(),
                a0.took(*self, goal),
            decreases self.tokens.len() - self.pos,
        {
            let ghost x = *self;
            self.next_attr();
            let ghost y = *self;
            let next = self.peek();
            let ghost z = *self;
            let ghost a = next_attr_step(toks, x.position());
            let ghost s = skip_trivia(toks, y.position());
            match next {
                Some(Token::Dot) => {
                    self.bump();
                    proof {
                        let b = bump_step(toks, z.position());
                        let r = attr_parts(toks, z.position() + 1);
                        assert(attr_parts(toks, x.position()) == join(a, join(s, join(b, r))));
                        lemma_rest_step(x, y, a, join(s, join(b, r)), a0, goal);
                        lemma_rest_step(y, z, s, join(b, r), a0, goal);
                        lemma_rest_step(z, *self, b, r, a0, goal);
                    }
                },
                _ => {
                    proof {
                        assert(attr_parts(toks, x.position()) == join(a, s));
                        lemma_rest_step(x, y, a, s, a0, goal);
                        lemma_rest_done(y, z, s, a0, goal);
                    }
                    break;
                },
            }
        }
        let ghost a1 = *self;
        self.finish_element(Ghost(base), Ghost(base));
        proof {
            lemma_wrap(a0, a1, *self, goal, NodeType::Attribute);
        }
    }

    /// The parameters of a lambda: `{ a, b ? default, ... }`, optionally
    /// followed by `@ name`. The opening brace is already consumed.
    fn parse_pattern(&mut self, bound: bool)
        requires
            old(self).wf(),
        ensures
            final(self).wf(),
            old(self).advances(*final(self)),
            old(self).took(*final(self), pattern_step(old(self).input(), old(self).position(), bound)),
        decreases old(self).input().len() - old(self).position(), 1int,
    {
        let ghost toks = self.tokens@;
        let ghost a0 = *self;
        let next = self.peek();
        let ghost a1 = *self;
        let ghost s = skip_trivia(toks, a0.position());
        let ghost body_step = if matches!(next, None | Some(Token::CurlyBClose)) {
            join(s, bump_step(toks, a1.position()))
        } else {
            join(s, pattern_entries(toks, a1.position()))
        };
        if matches!(next, None | Some(Token::CurlyBClose)) {
            self.bump();
            proof {
                lemma_join(a0, a1, *self, s, bump_step(toks, a1.position()));
            }
        } else {
            let ghost goal = pattern_entries(toks, a1.position());
            loop
                invariant_except_break
                    self.rest_is(pattern_entries(toks, self.position()), a1, goal),
                invariant
                    self.wf(),
                    old(self).extends(*self),
                    old(self).at_end() || old(self).position() < self.position() || !self.at_end(),
                    toks == self.tokens@,
                    goal == pattern_entries(toks, a1.position()),
                ensures
                    self.wf(),
                    old(self).extends(*self),
                    old(self).at_end() || old(self).position() < self.position(),
                    a1.took(*self, goal),
                decreases self.tokens.len() - self.pos,
            {
                let ghost x = *self;
                let next = self.peek();
                let ghost y = *self;
                let ghost s1 = skip_trivia(toks, x.position());
                let ghost p = y.position();
                match next {
                    Some(Token::CurlyBClose) => {
                        self.bump();
                        proof {
                            let b = bump_step(toks, p);
                            assert(pattern_entries(toks, x.position()) == join(s1, b));
                            lemma_rest_step(x, y, s1, b, a1, goal);
                            lemma_rest_done(y, *self, b, a1, goal);
                        }
                        break;
                    },
                    Some(Token::Ellipsis) => {
                        self.bump();
                        let ghost z = *self;
                        self.expect(Token::CurlyBClose);
                        proof {
                            let b = bump_step(toks, p);
                            let x2 = expect_step(toks, p + 1, Token::CurlyBClose);
                            assert(pattern_entries(toks, x.position()) == join(s1, join(b, x2)));
                            lemma_rest_step(x, y, s1, join(b, x2), a1, goal);
                            lemma_rest_step(y, z, b, x2, a1, goal);
                            lemma_rest_done(z, *self, x2, a1, goal);
                        }
                        break;
                    },
                    Some(Token::Ident) => {
                        self.start(NodeType::PatEntry);
                        self.bump();
                        let ghost c1 = *self;
                        let n2 = self.peek();
                        let ghost c2 = *self;
                        let ghost s2 = skip_trivia(toks, p + 1);
                        if let Some(Token::Question) = n2 {
                            self.bump();
                            let ghost c3 = *self;
                            self.parse_expr();
                            proof {
                                let b2 = bump_step(toks, c2.position());
                                let e = expr_step(toks, c3.position());
                                lemma_join(c2, c3, *self, b2, e);
                                lemma_join(c1, c2, *self, s2, join(b2, e));
                                lemma_join(y, c1, *self, bump_step(toks, p), join(s2, join(b2, e)));
                            }
                        } else {
                            proof {
                                lemma_join(y, c1, *self, bump_step(toks, p), s2);
                            }
                        }
                        let ghost c4 = *self;
                        self.finish();
                        let ghost c5 = *self;
                        proof {
                            lemma_wrap(y, c4, c5, pat_entry(toks, p), NodeType::PatEntry);
                        }
                        let n3 = self.peek();
                        let ghost c6 = *self;
                        let ghost entry = wrap(NodeType::PatEntry, pat_entry(toks, p));
                        let ghost s3 = skip_trivia(toks, c5.position());
                        match n3 {
                            Some(Token::Comma) => {
                                self.bump();
                                proof {
                                    let b = bump_step(toks, c6.position());
                                    let r = pattern_entries(toks, c6.position() + 1);
                                    assert(pattern_entries(toks, x.position()) == join(s1, join(entry, join(s3, join(b, r)))));
                                    lemma_rest_step(x, y, s1, join(entry, join(s3, join(b, r))), a1, goal);
                                    lemma_rest_step(y, c5, entry, join(s3, join(b, r)), a1, goal);
                                    lemma_rest_step(c5, c6, s3, join(b, r), a1, goal);
                                    lemma_rest_step(c6, *self, b, r, a1, goal);
                                }
                            },
                            _ => {
                                self.expect(Token::CurlyBClose);
                                proof {
                                    let x2 = expect_step(toks, c6.position(), Token::CurlyBClose);
                                    assert(pattern_entries(toks, x.position()) == join(s1, join(entry, join(s3, x2))));
                                    lemma_rest_step(x, y, s1, join(entry, join(s3, x2)), a1, goal);
                                    lemma_rest_step(y, c5, entry, join(s3, x2), a1, goal);
                                    lemma_rest_step(c5, c6, s3, x2, a1, goal);
                                    lemma_rest_done(c6, *self, x2, a1, goal);
                                }
                                break;
                            },
                        }
                    },
                    None => {
                        self.errors.push(ParseError::UnexpectedEOFWanted(Token::Ident));
                        assert(forall|i: int| 0 <= i < self.errors@.len() ==> (#[trigger] self.errors@[i]).is_eof());
                        proof {
                            let f = fail(p, ParseError::UnexpectedEOFWanted(Token::Ident));
                            assert(self.children() =~= y.children() + f.trees);
                            assert(self.errors() =~= y.errors() + f.errs);
                            assert(pattern_entries(toks, x.position()) == join(s1, f));
                            lemma_rest_step(x, y, s1, f, a1, goal);
                            lemma_rest_done(y, *self, f, a1, goal);
                        }
                        break;
                    },
                    Some(_) => {
                        self.start(NodeType::Error);
                        self.bump();
                        let ghost z1 = *self;
                        self.finish();
                        proof {
                            let b = bump_step(toks, p);
                            lemma_wrap(y, z1, *self, b, NodeType::Error);
                            let r = pattern_entries(toks, p + 1);
                            assert(pattern_entries(toks, x.position()) == join(s1, join(wrap(NodeType::Error, b), r)));
                            lemma_rest_step(x, y, s1, join(wrap(NodeType::Error, b), r), a1, goal);
                            lemma_rest_step(y, *self, wrap(NodeType::Error, b), r, a1, goal);
                        }
                    },
                }
            }
            proof {
                lemma_join(a0, a1, *self, s, goal);
            }
        }
        let ghost t0 = *self;
        let n = self.peek();
        let ghost t1 = *self;
        let ghost s2 = skip_trivia(toks, t0.position());
        if let Some(Token::At) = n {
            let kind = if bound {
                NodeType::Error
            } else {
                NodeType::PatBind
            };
            self.start(kind);
            self.bump();
            let ghost t3 = *self;
            self.expect(Token::Ident);
            let ghost t4 = *self;
            self.finish();
            proof {
                let b = bump_step(toks, t1.position());
                let x = expect_step(toks, t1.position() + 1, Token::Ident);
                lemma_join(t1, t3, t4, b, x);
                lemma_wrap(t1, t4, *self, join(b, x), kind);
                lemma_join(t0, t1, *self, s2, wrap(kind, join(b, x)));
                lemma_join(a0, t0, *self, body_step, join(s2, wrap(kind, join(b, x))));
            }
        } else {
            proof {
                lemma_join(a0, t0, t1, body_step, s2);
            }
        }
    }

    /// `inherit`, with its source in parentheses if there is one, its names
    /// and its semicolon: one `Inherit` node.
    fn parse_inherit(&mut self)
        requires
            old(self).wf(),
            !old(self).at_end(),
        ensures
            final(self).wf(),
            old(self).advances(*final(self)),
            old(self).took(*final(self), inherit_step(old(self).input(), old(self).position())),
        decreases old(self).input().len() - old(self).position(), 5int,
    {
        let ghost toks = self.tokens@;
        let ghost y = *self;
        let ghost p = y.position();
        self.start(NodeType::Inherit);
        self.bump();
        let ghost i1 = *self;
        let n2 = self.peek();
        let ghost i2 = *self;
        let ghost s2 = skip_trivia(toks, p + 1);
        let ghost from = if n2 == Some(Token::ParenOpen) {
            let e = expr_step(toks, i2.position() + 1);
            join(
                s2,
                wrap(
                    NodeType::InheritFrom,
                    join(bump_step(toks, i2.position()), join(e, expect_step(toks, e.end, Token::ParenClose))),
                ),
            )
        } else {
            s2
        };
        if let Some(Token::ParenOpen) = n2 {
            self.start(NodeType::InheritFrom);
            self.bump();
            let ghost j1 = *self;
            self.parse_expr();
            let ghost j2 = *self;
            self.expect(Token::ParenClose);
            let ghost j3 = *self;
            self.finish();
            proof {
                let b = bump_step(toks, i2.position());
                let e = expr_step(toks, j1.position());
                let x2 = expect_step(toks, j2.position(), Token::ParenClose);
                lemma_join(j1, j2, j3, e, x2);
                lemma_join(i2, j1, j3, b, join(e, x2));
                lemma_wrap(i2, j3, *self, join(b, join(e, x2)), NodeType::InheritFrom);
                lemma_join(i1, i2, *self, s2, wrap(NodeType::InheritFrom, join(b, join(e, x2))));
            }
        }
        let ghost i3 = *self;
        let ghost names = inherit_names(toks, i3.position());
        loop
            invariant_except_break
                self.rest_is(inherit_names(toks, self.position()), i3, names),
            invariant
                self.wf(),
                i3.extends(*self),
                toks == self.tokens@,
                names == inherit_names(toks, i3.position()),
            ensures
                self.wf(),
                i3.extends(*self),
                i3.took(*self, names),
            decreases self.tokens.len() - self.pos,
        {
            let ghost u = *self;
            let n4 = self.peek();
            let ghost v = *self;
            let ghost s4 = skip_trivia(toks, u.position());
            match n4 {
                Some(Token::Ident) => {
                    self.bump();
                    proof {
                        let b = bump_step(toks, v.position());
                        let r = inherit_names(toks, v.position() + 1);
                        assert(inherit_names(toks, u.position()) == join(s4, join(b, r)));
                        lemma_rest_step(u, v, s4, join(b, r), i3, names);
                        lemma_rest_step(v, *self, b, r, i3, names);
                    }
                },
                _ => {
                    proof {
                        assert(inherit_names(toks, u.position()) == s4);
                        lemma_rest_done(u, v, s4, i3, names);
                    }
                    break;
                },
            }
        }
        let ghost i4 = *self;
        self.expect(Token::Semicolon);
        let ghost i5 = *self;
        self.finish();
        proof {
            let x2 = expect_step(toks, i4.position(), Token::Semicolon);
            let b = bump_step(toks, p);
            lemma_join(i3, i4, i5, names, x2);
            lemma_join(i1, i3, i5, from, join(names, x2));
            lemma_join(y, i1, i5, b, join(from, join(names, x2)));
            lemma_wrap(y, i5, *self, join(b, join(from, join(names, x2))), NodeType::Inherit);
        }
    }

    /// `path = value;`: one `SetEntry` node.
    fn parse_entry(&mut self)
        requires
            old(self).wf(),
            !old(self).at_end(),
        ensures
            final(self).wf(),
            old(self).advances(*final(self)),
            old(self).took(*final(self), entry_step(old(self).input(), old(self).position())),
        decreases old(self).input().len() - old(self).position(), 5int,
    {
        let ghost toks = self.tokens@;
        let ghost y = *self;
        let ghost p = y.position();
        self.start(NodeType::SetEntry);
        self.parse_attr();
        let ghost e1 = *self;
        self.expect(Token::Assign);
        let ghost e2 = *self;
        self.parse_expr();
        let ghost e3 = *self;
        self.expect(Token::Semicolon);
        let ghost e4 = *self;
        self.finish();
        proof {
            let a = attr_step(toks, p);
            let x1 = expect_step(toks, a.end, Token::Assign);
            let e = expr_step(toks, x1.end);
            let x2 = expect_step(toks, e.end, Token::Semicolon);
            lemma_join(e2, e3, e4, e, x2);
            lemma_join(e1, e2, e4, x1, join(e, x2));
            lemma_join(y, e1, e4, a, join(x1, join(e, x2)));
            lemma_wrap(y, e4, *self, join(a, join(x1, join(e, x2))), NodeType::SetEntry);
        }
    }

    /// The entries of an attribute set or of a `let`, up to the token `until`,
    /// which is consumed too.
    fn parse_set(&mut self, until: Token)
        requires
            old(self).wf(),
        ensures
            final(self).wf(),
            old(self).advances(*final(self)),
            old(self).took(*final(self), set_step(old(self).input(), old(self).position(), until)),
        decreases old(self).input().len() - old(self).position(), 6int,
    {
        let ghost toks = self.tokens@;
        let ghost a0 = *self;
        let ghost goal = set_step(toks, a0.position(), until);
        loop
            invariant_except_break
                self.rest_is(set_step(toks, self.position(), until), a0, goal),
            invariant
                self.wf(),
                old(self).extends(*self),
                toks == self.tokens@,
                goal == set_step(toks, a0.position(), until),
            ensures
                self.wf(),
                old(self).extends(*self),
                self.rest_is(bump_step(toks, self.position()), a0, goal),
            decreases self.tokens.len() - self.pos,
        {
            let ghost x = *self;
            let next = self.peek();
            let ghost y = *self;
            let ghost s = skip_trivia(toks, x.position());
            let ghost p = y.position();
            match next {
                None => {
                    proof {
                        assert(set_step(toks, x.position(), until) == join(s, bump_step(toks, p)));
                        lemma_rest_step(x, y, s, bump_step(toks, p), a0, goal);
                    }
                    break;
                },
                Some(t) if t == until => {
                    proof {
                        assert(set_step(toks, x.position(), until) == join(s, bump_step(toks, p)));
                        lemma_rest_step(x, y, s, bump_step(toks, p), a0, goal);
                    }
                    break;
                },
                Some(Token::Inherit) => {
                    self.parse_inherit();
                    proof {
                        let e = inherit_step(toks, p);
                        let r = set_step(toks, e.end, until);
                        assert(advanced(toks, e, x.position()));
                        assert(set_step(toks, x.position(), until) == join(s, join(e, r)));
                        lemma_rest_step(x, y, s, join(e, r), a0, goal);
                        lemma_rest_step(y, *self, e, r, a0, goal);
                    }
                },
                Some(_) => {
                    self.parse_entry();
                    proof {
                        let e = entry_step(toks, p);
                        let r = set_step(toks, e.end, until);
                        assert(advanced(toks, e, x.position()));
                        assert(set_step(toks, x.position(), until) == join(s, join(e, r)));
                        lemma_rest_step(x, y, s, join(e, r), a0, goal);
                        lemma_rest_step(y, *self, e, r, a0, goal);
                    }
                },
            }
        }
        let ghost a1 = *self;
        self.bump();
        proof {
            lemma_rest_done(a1, *self, bump_step(toks, a1.position()), a0, goal);
        }
    }

    /// The next two tokens after the current one that are not trivia,
    /// without consuming anything.
    fn lookahead(&self) -> (r: (Option<Token>, Option<Token>))
        requires
            self.wf(),
            !self.at_end(),
        ensures
            r.0 == data_at(self.input(), self.position() + 1),
            r.1 == (if next_data(self.input(), self.position() + 1) < self.input().len() {
                data_at(self.input(), next_data(self.input(), self.position() + 1) + 1)
            } else {
                None
            }),
    {
        let ghost toks = self.tokens@;
        let len = self.tokens.len();
        let mut i = self.pos + 1;
        while i < len && self.tokens[i].0.is_trivia()
            invariant
                self.pos < i <= len + 1,
                len == toks.len(),
                toks == self.tokens@,
                i <= len ==> next_data(toks, i as int) == next_data(toks, self.pos + 1),
                i > len ==> next_data(toks, self.pos + 1) == len,
            decreases len + 1 - i,
        {
            i = i + 1;
        }
        let first = if i < len {
            Some(self.tokens[i].0)
        } else {
            None
        };
        if i >= len {
            return (first, None);
        }
        let ghost mid = i as int;
        i = i + 1;
        while i < len && self.tokens[i].0.is_trivia()
            invariant
                mid < i <= len,
                len == toks.len(),
                toks == self.tokens@,
                next_data(toks, i as int) == next_data(toks, mid + 1),
            decreases len - i,
        {
            i = i + 1;
        }
        let second = if i < len {
            Some(self.tokens[i].0)
        } else {
            None
        };
        (first, second)
    }

    /// Whether the next token that is not trivia is the identifier `or`.
    fn peek_is_or(&mut self) -> (b: bool)
        requires
            old(self).wf(),
        ensures
            final(self).wf(),
            old(self).extends(*final(self)),
            final(self).position() == next_data(old(self).input(), old(self).position()),
            trivia_after(old(self).children(), final(self).children()),
            b == (data_at(old(self).input(), old(self).position()) == Some(Token::Ident)
                && final(self).input()[final(self).position()].1@ == seq!['o', 'r']),
            b == is_or(old(self).input(), final(self).position()),
            old(self).took(*final(self), skip_trivia(old(self).input(), old(self).position())),
    {
        match self.peek() {
            Some(Token::Ident) => {
                let text = self.tokens[self.pos].1.as_str();
                let b = text.unicode_len() == 2 && text.get_char(0) == 'o' && text.get_char(1) == 'r';
                proof {
                    if b {
                        assert(text@ =~= seq!['o', 'r']);
                    }
                }
                b
            },
            _ => false,
        }
    }

    /// `{` and what follows: a lambda with a pattern, or a set.
    fn parse_brace(&mut self)
        requires
            old(self).wf(),
            !old(self).at_end(),
        ensures
            final(self).wf(),
            old(self).advances(*final(self)),
            adds_element(old(self).children(), final(self).children()),
            old(self).took(*final(self), brace_step(old(self).input(), old(self).position())),
        decreases old(self).input().len() - old(self).position(), 6int,
    {
        let ghost base = self.children();
        let ghost toks = self.tokens@;
        let ghost s = self.children();
        let ghost a1 = *self;
        let ghost p = a1.position();
        // Do a lookahead:
        let peek = self.lookahead();
        let is_pattern = match peek {
            (Some(Token::Ident), Some(Token::Comma))
            | (Some(Token::Ident), Some(Token::Question))
            | (Some(Token::Ident), Some(Token::CurlyBClose))
            | (Some(Token::Ellipsis), Some(Token::CurlyBClose))
            | (Some(Token::CurlyBClose), Some(Token::Colon))
            | (Some(Token::CurlyBClose), Some(Token::At)) => true,
            _ => false,
        };
        assert(is_pattern == pattern_ahead(toks, p));
        if is_pattern {
            // This looks like a pattern
            self.start(NodeType::Lambda);
            self.start(NodeType::Pattern);
            self.bump();
            let ghost c1 = *self;
            self.parse_pattern(false);
            let ghost c2 = *self;
            self.finish();
            let ghost c3 = *self;
            self.expect(Token::Colon);
            let ghost c4 = *self;
            self.parse_expr();
            let ghost c5 = *self;
            self.finish_element(Ghost(base), Ghost(s));
            proof {
                let inner = join(bump_step(toks, p), pattern_step(toks, p + 1, false));
                lemma_join(a1, c1, c2, bump_step(toks, p), pattern_step(toks, p + 1, false));
                lemma_wrap(a1, c2, c3, inner, NodeType::Pattern);
                let pat = wrap(NodeType::Pattern, inner);
                let x = expect_step(toks, pat.end, Token::Colon);
                assert(advanced(toks, x, p));
                let e = expr_step(toks, x.end);
                lemma_join(c3, c4, c5, x, e);
                lemma_join(a1, c3, c5, pat, join(x, e));
                lemma_wrap(a1, c5, *self, join(pat, join(x, e)), NodeType::Lambda);
                assert(brace_step(toks, p) == wrap(NodeType::Lambda, join(pat, join(x, e))));
            }
        } else {
            // This looks like a set
            self.start(NodeType::AttrSet);
            self.bump();
            let ghost c1 = *self;
            self.parse_set(Token::CurlyBClose);
            let ghost c2 = *self;
            self.finish_element(Ghost(base), Ghost(s));
            proof {
                let st = set_step(toks, p + 1, Token::CurlyBClose);
                lemma_join(a1, c1, c2, bump_step(toks, p), st);
                lemma_wrap(a1, c2, *self, join(bump_step(toks, p), st), NodeType::AttrSet);
                assert(brace_step(toks, p) == wrap(NodeType::AttrSet, join(bump_step(toks, p), st)));
            }
        }
    }

    /// `[ items ]`: one `List` node.
    fn parse_list(&mut self)
        requires
            old(self).wf(),
            !old(self).at_end(),
        ensures
            final(self).wf(),
            old(self).advances(*final(self)),
            adds_element(old(self).children(), final(self).children()),
            old(self).took(*final(self), wrap(
                NodeType::List,
                join(
                    bump_step(old(self).input(), old(self).position()),
                    list_items(old(self).input(), old(self).position() + 1),
                ),
            )),
        decreases old(self).input().len() - old(self).position(), 6int,
    {
        let ghost base = self.children();
        let ghost toks = self.tokens@;
        let ghost s = self.children();
        let ghost a1 = *self;
        let ghost p = a1.position();
        self.start(NodeType::List);
        let ghost first = self.children().len();
        self.bump();
        let ghost l1 = *self;
        let ghost goal = list_items(toks, p + 1);
        loop
            invariant_except_break
                self.rest_is(list_items(toks, self.position()), l1, goal),
            invariant
                self.wf(),
                self.inside(*old(self), Types::spec_kind_to_raw(NodeType::List), first),
                old(self).position() < self.position(),
                first == s.len(),
                prefix(s, self.children()),
                toks == self.tokens@,
                goal == list_items(toks, p + 1),
            ensures
                self.wf(),
                self.inside(*old(self), Types::spec_kind_to_raw(NodeType::List), first),
                old(self).position() < self.position(),
                first == s.len(),
                prefix(s, self.children()),
                self.rest_is(bump_step(toks, self.position()), l1, goal),
            decreases self.tokens.len() - self.pos,
        {
            let ghost x = *self;
            let n = self.peek();
            let ghost y = *self;
            let ghost s1 = skip_trivia(toks, x.position());
            match n {
                Some(t) if t != Token::SquareBClose => {
                    self.start(NodeType::ListItem);
                    self.parse_val();
                    let ghost z = *self;
                    self.finish();
                    proof {
                        let v = val_step(toks, y.position());
                        lemma_wrap(y, z, *self, v, NodeType::ListItem);
                        let item = wrap(NodeType::ListItem, v);
                        let r = list_items(toks, v.end);
                        assert(advanced(toks, v, x.position()));
                        assert(list_items(toks, x.position()) == join(s1, join(item, r)));
                        lemma_rest_step(x, y, s1, join(item, r), l1, goal);
                        lemma_rest_step(y, *self, item, r, l1, goal);
                    }
                },
                _ => {
                    proof {
                        assert(list_items(toks, x.position()) == join(s1, bump_step(toks, y.position())));
                        lemma_rest_step(x, y, s1, bump_step(toks, y.position()), l1, goal);
                    }
                    break;
                },
            }
        }
        let ghost l2 = *self;
        self.bump();
        let ghost l3 = *self;
        self.finish_element(Ghost(base), Ghost(s));
        proof {
            lemma_rest_done(l2, l3, bump_step(toks, l2.position()), l1, goal);
            lemma_join(a1, l1, l3, bump_step(toks, p), goal);
            lemma_wrap(a1, l3, *self, join(bump_step(toks, p), goal), NodeType::List);
        }
    }

    /// An identifier, and the lambda it starts if `:` or `@` follows.
    fn parse_ident(&mut self)
        requires
            old(self).wf(),
            !old(self).at_end(),
            old(self).input()[old(self).position()].0 == Token::Ident,
        ensures
            final(self).wf(),
            old(self).advances(*final(self)),
            adds_element(old(self).children(), final(self).children()),
            old(self).took(*final(self), ident_step(old(self).input(), old(self).position())),
        decreases old(self).input().len() - old(self).position(), 6int,
    {
        let ghost base = self.children();
        let ghost toks = self.tokens@;
        let ghost s = self.children();
        let ghost a1 = *self;
        let ghost p = a1.position();
        let checkpoint = self.checkpoint();
        self.bump();
        let ghost i1 = *self;
        proof {
            lemma_element_push(base, s, self.children().last());
        }
        let ghost ident = self.children();
        let after = self.peek();
        let ghost i2 = *self;
        let ghost s2 = skip_trivia(toks, p + 1);
        let ghost p2 = i2.position();
        proof {
            lemma_element_then_trivia(base, ident, self.children());
            lemma_join(a1, i1, i2, bump_step(toks, p), s2);
        }
        let ghost s = self.children().take(checkpoint_index(checkpoint) as int);
        match after {
            Some(Token::Colon) => {
                self.start_at(checkpoint, NodeType::Lambda);
                self.bump();
                let ghost i3 = *self;
                self.parse_expr();
                let ghost i4 = *self;
                self.finish_element(Ghost(base), Ghost(s));
                proof {
                    let b2 = bump_step(toks, p2);
                    let e = expr_step(toks, p2 + 1);
                    lemma_join(i2, i3, i4, b2, e);
                    lemma_join(i1, i2, i4, s2, join(b2, e));
                    lemma_join(a1, i1, i4, bump_step(toks, p), join(s2, join(b2, e)));
                    assert(s =~= a1.children());
                    lemma_wrap(a1, i4, *self, join(bump_step(toks, p), join(s2, join(b2, e))), NodeType::Lambda);
                }
            },
            Some(Token::At) => {
                self.start_at(checkpoint, NodeType::Lambda);
                self.start_at(checkpoint, NodeType::Pattern);
                self.start_at(checkpoint, NodeType::PatBind);
                self.bump();
                let ghost j1 = *self;
                self.finish();  // PatBind
                let ghost j2 = *self;
                self.expect(Token::CurlyBOpen);
                let ghost j3 = *self;
                self.parse_pattern(true);
                let ghost j4 = *self;
                self.finish();  // Pattern
                let ghost j5 = *self;
                self.expect(Token::Colon);
                let ghost j6 = *self;
                self.parse_expr();
                let ghost j7 = *self;
                self.finish_element(Ghost(base), Ghost(s));  // Lambda
                proof {
                    assert(s =~= a1.children());
                    let b = bump_step(toks, p);
                    let b2 = bump_step(toks, p2);
                    lemma_join(i1, i2, j1, s2, b2);
                    lemma_join(a1, i1, j1, b, join(s2, b2));
                    lemma_wrap(a1, j1, j2, join(b, join(s2, b2)), NodeType::PatBind);
                    let bind = wrap(NodeType::PatBind, join(b, join(s2, b2)));
                    let x = expect_step(toks, p2 + 1, Token::CurlyBOpen);
                    assert(advanced(toks, x, p));
                    let pt = pattern_step(toks, x.end, true);
                    lemma_join(j2, j3, j4, x, pt);
                    lemma_join(a1, j2, j4, bind, join(x, pt));
                    lemma_wrap(a1, j4, j5, join(bind, join(x, pt)), NodeType::Pattern);
                    let pat = wrap(NodeType::Pattern, join(bind, join(x, pt)));
                    let y = expect_step(toks, pat.end, Token::Colon);
                    assert(advanced(toks, y, p));
                    let e = expr_step(toks, y.end);
                    lemma_join(j5, j6, j7, y, e);
                    lemma_join(a1, j5, j7, pat, join(y, e));
                    lemma_wrap(a1, j7, *self, join(pat, join(y, e)), NodeType::Lambda);
                    assert(ident_step(toks, p) == wrap(NodeType::Lambda, join(pat, join(y, e))));
                }
            },
            _ => {
                proof {
                    assert(ident_step(toks, p) == join(bump_step(toks, p), s2));
                }
            },
        }
    }

    /// A single value, with any `.attr` selections and `or` defaults after
    /// it: one element, with trivia around it.
    #[verifier::rlimit(60)]
    fn parse_val(&mut self)
        requires
            old(self).wf(),
        ensures
            final(self).wf(),
            old(self).advances(*final(self)),
            adds_element(old(self).children(), final(self).children()),
            old(self).took(*final(self), val_step(old(self).input(), old(self).position())),
        decreases old(self).input().len() - old(self).position(), 7int,
    {
        let ghost base = self.children();
        let ghost toks = self.tokens@;
        let ghost a0 = *self;
        let checkpoint = self.checkpoint();
        let next = self.peek();
        let ghost s = self.children();
        let ghost a1 = *self;
        let ghost p = a1.position();
        let ghost sk = skip_trivia(toks, a0.position());
        match next {
            Some(Token::ParenOpen) => {
                self.start(NodeType::Paren);
                self.bump();
                let ghost b1 = *self;
                self.parse_expr();
                let ghost b2 = *self;
                self.bump();
                let ghost b3 = *self;
                self.finish_element(Ghost(base), Ghost(s));
                proof {
                    let e = expr_step(toks, p + 1);
                    let b = bump_step(toks, e.end);
                    lemma_join(b1, b2, b3, e, b);
                    lemma_join(a1, b1, b3, bump_step(toks, p), join(e, b));
                    lemma_wrap(a1, b3, *self, join(bump_step(toks, p), join(e, b)), NodeType::Paren);
                    assert(a1.took(*self, val_main(toks, p)));
                }
            },
            Some(Token::Rec) => {
                self.start(NodeType::AttrSet);
                self.bump();
                let ghost b1 = *self;
                self.expect(Token::CurlyBOpen);
                let ghost b2 = *self;
                self.parse_set(Token::CurlyBClose);
                let ghost b3 = *self;
                self.finish_element(Ghost(base), Ghost(s));
                proof {
                    let x = expect_step(toks, p + 1, Token::CurlyBOpen);
                    let st = set_step(toks, x.end, Token::CurlyBClose);
                    assert(advanced(toks, x, p));
                    lemma_join(b1, b2, b3, x, st);
                    lemma_join(a1, b1, b3, bump_step(toks, p), join(x, st));
                    lemma_wrap(a1, b3, *self, join(bump_step(toks, p), join(x, st)), NodeType::AttrSet);
                    assert(a1.took(*self, val_main(toks, p)));
                }
            },
            Some(Token::CurlyBOpen) => {
                self.parse_brace();
                proof {
                    lemma_trivia_then_element(base, s, self.children());
                    assert(a1.took(*self, val_main(toks, p)));
                }
            },
            Some(Token::SquareBOpen) => {
                self.parse_list();
                proof {
                    lemma_trivia_then_element(base, s, self.children());
                    assert(a1.took(*self, val_main(toks, p)));
                }
            },
            Some(Token::DynamicStart) => {
                self.parse_dynamic();
                proof {
                    lemma_trivia_then_element(base, s, self.children());
                    assert(a1.took(*self, val_main(toks, p)));
                }
            },
            Some(Token::InterpolStart) => {
                self.parse_interpol();
                proof {
                    lemma_trivia_then_element(base, s, self.children());
                    assert(a1.took(*self, val_main(toks, p)));
                }
            },
            Some(t) if t.is_value() => {
                self.bump();
                proof {
                    lemma_element_push(base, s, self.children().last());
                    assert(a1.took(*self, val_main(toks, p)));
                }
            },
            Some(Token::Ident) => {
                self.parse_ident();
                proof {
                    lemma_trivia_then_element(base, s, self.children());
                    assert(a1.took(*self, val_main(toks, p)));
                }
            },
            _ => {
                self.start(NodeType::Error);
                self.bump();
                let ghost b1 = *self;
                self.finish_element(Ghost(base), Ghost(s));
                proof {
                    lemma_wrap(a1, b1, *self, bump_step(toks, p), NodeType::Error);
                    assert(a1.took(*self, val_main(toks, p)));
                }
            },
        }
        let ghost m = *self;
        proof {
            assert(a1.took(m, val_main(toks, p)));
            lemma_join(a0, a1, m, sk, val_main(toks, p));
        }
        let ghost goal = val_step(toks, a0.position());
        let ghost mut acc = join(sk, val_main(toks, p));
        assert(goal == index_loop(toks, acc));
        loop
            invariant_except_break
                a0.took(*self, acc),
                index_loop(toks, acc) == goal,
            invariant
                self.wf(),
                old(self).advances(*self),
                base == old(self).children(),
                adds_element(base, self.children()),
                checkpoint_index(checkpoint) == old(self).children().len(),
                old(self).parents().len() > 0 ==> old(self).parents().last().1 <= checkpoint_index(checkpoint),
                toks == self.tokens@,
                goal == val_step(toks, a0.position()),
                base == a0.children(),
            ensures
                self.wf(),
                old(self).advances(*self),
                adds_element(base, self.children()),
                a0.took(*self, goal),
            decreases self.tokens.len() - self.pos,
        {
            let ghost x = *self;
            let ghost before = self.children();
            let next = self.peek();
            let ghost y = *self;
            let ghost s1 = skip_trivia(toks, x.position());
            proof {
                lemma_element_then_trivia(base, before, self.children());
                lemma_join(a0, x, y, acc, s1);
            }
            match next {
                Some(Token::Dot) => {
                    self.start_at(checkpoint, NodeType::IndexSet);
                    self.bump();
                    let ghost d1 = *self;
                    self.next_attr();
                    let ghost d2 = *self;
                    self.finish_element(Ghost(base), Ghost(base));
                    let ghost d3 = *self;
                    let ghost b = bump_step(toks, y.position());
                    let ghost a = next_attr_step(toks, y.position() + 1);
                    let ghost idx = wrap(NodeType::IndexSet, join(join(join(acc, s1), b), a));
                    proof {
                        lemma_join(a0, y, d1, join(acc, s1), b);
                        lemma_join(a0, d1, d2, join(join(acc, s1), b), a);
                        lemma_wrap(a0, d2, d3, join(join(join(acc, s1), b), a), NodeType::IndexSet);
                    }
                    let ghost wrapped = self.children();
                    let or = self.peek_is_or();
                    let ghost d4 = *self;
                    let ghost s2 = skip_trivia(toks, d3.position());
                    proof {
                        lemma_element_then_trivia(base, wrapped, self.children());
                        lemma_join(a0, d3, d4, idx, s2);
                    }
                    if or {
                        self.start_at(checkpoint, NodeType::OrDefault);
                        self.bump();
                        let ghost d5 = *self;
                        self.parse_val();
                        let ghost d6 = *self;
                        self.finish_element(Ghost(base), Ghost(base));
                        proof {
                            let b2 = bump_step(toks, d4.position());
                            let v = val_step(toks, d4.position() + 1);
                            lemma_join(a0, d4, d5, join(idx, s2), b2);
                            lemma_join(a0, d5, d6, join(join(idx, s2), b2), v);
                            lemma_wrap(a0, d6, *self, join(join(join(idx, s2), b2), v), NodeType::OrDefault);
                            let od = wrap(NodeType::OrDefault, join(join(join(idx, s2), b2), v));
                            assert(index_loop(toks, acc) == index_loop(toks, od));
                            acc = od;
                        }
                    } else {
                        proof {
                            assert(index_loop(toks, acc) == index_loop(toks, join(idx, s2)));
                            acc = join(idx, s2);
                        }
                    }
                },
                _ => {
                    proof {
                        assert(index_loop(toks, acc) == join(acc, s1));
                    }
                    break;
                },
            }
        }
    }

    /// A function application: a value followed by argument values; one
    /// element.
    fn parse_fn(&mut self)
        requires
            old(self).wf(),
        ensures
            final(self).wf(),
            old(self).advances(*final(self)),
            adds_element(old(self).children(), final(self).children()),
            old(self).took(*final(self), fn_step(old(self).input(), old(self).position())),
        decreases old(self).input().len() - old(self).position(), 8int,
    {
        let ghost base = self.children();
        let ghost toks = self.tokens@;
        let ghost a0 = *self;
        let checkpoint = self.checkpoint();
        self.parse_val();
        let ghost goal = fn_step(toks, a0.position());
        let ghost mut acc = val_step(toks, a0.position());
        assert(goal == apply_loop(toks, acc));
        loop
            invariant_except_break
                a0.took(*self, acc),
                apply_loop(toks, acc) == goal,
            invariant
                self.wf(),
                old(self).advances(*self),
                base == old(self).children(),
                adds_element(base, self.children()),
                checkpoint_index(checkpoint) == old(self).children().len(),
                old(self).parents().len() > 0 ==> old(self).parents().last().1 <= checkpoint_index(checkpoint),
                toks == self.tokens@,
                goal == fn_step(toks, a0.position()),
                base == a0.children(),
            ensures
                self.wf(),
                old(self).advances(*self),
                adds_element(base, self.children()),
                a0.took(*self, goal),
            decreases self.tokens.len() - self.pos,
        {
            let ghost x = *self;
            let ghost before = self.children();
            let next = self.peek();
            let ghost y = *self;
            let ghost s1 = skip_trivia(toks, x.position());
            proof {
                lemma_element_then_trivia(base, before, self.children());
                lemma_join(a0, x, y, acc, s1);
            }
            match next {
                Some(t) if t.is_fn_arg() => {
                    self.start_at(checkpoint, NodeType::Apply);
                    self.parse_val();
                    let ghost z = *self;
                    self.finish_element(Ghost(base), Ghost(base));
                    proof {
                        let v = val_step(toks, y.position());
                        lemma_join(a0, y, z, join(acc, s1), v);
                        lemma_wrap(a0, z, *self, join(join(acc, s1), v), NodeType::Apply);
                        let app = wrap(NodeType::Apply, join(join(acc, s1), v));
                        assert(advanced(toks, v, x.position()));
                        assert(apply_loop(toks, acc) == apply_loop(toks, app));
                        acc = app;
                    }
                },
                _ => {
                    proof {
                        assert(apply_loop(toks, acc) == join(acc, s1));
                    }
                    break;
                },
            }
        }
    }

    /// Arithmetic negation `-x`, which binds tighter than application.
    fn parse_negate(&mut self)
        requires
            old(self).wf(),
        ensures
            final(self).wf(),
            old(self).advances(*final(self)),
            adds_element(old(self).children(), final(self).children()),
            old(self).took(*final(self), negate_step(old(self).input(), old(self).position())),
        decreases old(self).input().len() - old(self).position(), 9int,
    {
        let ghost base = self.children();
        let ghost toks = self.tokens@;
        let ghost a0 = *self;
        let next = self.peek();
        let ghost s = self.children();
        let ghost a1 = *self;
        let ghost p = a1.position();
        let ghost sk = skip_trivia(toks, a0.position());
        if let Some(Token::Sub) = next {
            self.start(NodeType::Unary);
            self.bump();
            let ghost b1 = *self;
            self.parse_negate();
            let ghost b2 = *self;
            self.finish_element(Ghost(base), Ghost(s));
            proof {
                let inner = join(bump_step(toks, p), negate_step(toks, p + 1));
                lemma_join(a1, b1, b2, bump_step(toks, p), negate_step(toks, p + 1));
                lemma_wrap(a1, b2, *self, inner, NodeType::Unary);
                lemma_join(a0, a1, *self, sk, wrap(NodeType::Unary, inner));
            }
        } else {
            self.parse_fn();
            proof {
                lemma_trivia_then_element(base, s, self.children());
                lemma_join(a0, a1, *self, sk, fn_step(toks, p));
            }
        }
    }

    /// A chain of binary operations at one level of precedence: operands of
    /// the next tighter `level` joined by tokens of `ops`, left-associative,
    /// or at most one operation if `once`.
    fn handle_operation(&mut self, once: bool, level: u8, ops: &[Token])
        requires
            old(self).wf(),
            level <= 9,
            ops@ == level_ops(level as nat),
            once == level_once(level as nat),
        ensures
            final(self).wf(),
            old(self).advances(*final(self)),
            adds_element(old(self).children(), final(self).children()),
            old(self).took(*final(self), binary_step(old(self).input(), level as nat, old(self).position())),
        decreases old(self).input().len() - old(self).position(), 4 * level + 11,
    {
        let ghost base = self.children();
        let ghost toks = self.tokens@;
        let ghost a0 = *self;
        let ghost lv = level as nat;
        let checkpoint = self.checkpoint();
        self.operand(level);
        let ghost goal = binary_step(toks, lv, a0.position());
        let ghost mut acc = operand_step(toks, lv, a0.position());
        assert(goal == op_loop(toks, lv, acc));
        loop
            invariant_except_break
                a0.took(*self, acc),
                op_loop(toks, lv, acc) == goal,
            invariant
                self.wf(),
                old(self).advances(*self),
                base == old(self).children(),
                adds_element(base, self.children()),
                checkpoint_index(checkpoint) == old(self).children().len(),
                old(self).parents().len() > 0 ==> old(self).parents().last().1 <= checkpoint_index(checkpoint),
                level <= 9,
                lv == level as nat,
                ops@ == level_ops(lv),
                once == level_once(lv),
                toks == self.tokens@,
                goal == binary_step(toks, lv, a0.position()),
                base == a0.children(),
            ensures
                self.wf(),
                old(self).advances(*self),
                adds_element(base, self.children()),
                a0.took(*self, goal),
            decreases self.tokens.len() - self.pos,
        {
            let ghost x = *self;
            let ghost before = self.children();
            let next = self.peek();
            let ghost y = *self;
            let ghost s1 = skip_trivia(toks, x.position());
            proof {
                lemma_element_then_trivia(base, before, self.children());
                lemma_join(a0, x, y, acc, s1);
            }
            match next {
                Some(t) if contains_token(ops, t) => {
                    self.start_at(checkpoint, NodeType::Operation);
                    self.bump();
                    let ghost z1 = *self;
                    self.operand(level);
                    let ghost z2 = *self;
                    self.finish_element(Ghost(base), Ghost(base));
                    proof {
                        let b = bump_step(toks, y.position());
                        let o = operand_step(toks, lv, y.position() + 1);
                        lemma_join(a0, y, z1, join(acc, s1), b);
                        lemma_join(a0, z1, z2, join(join(acc, s1), b), o);
                        lemma_wrap(a0, z2, *self, join(join(join(acc, s1), b), o), NodeType::Operation);
                        let node = wrap(NodeType::Operation, join(join(join(acc, s1), b), o));
                        assert(advanced(toks, o, x.position()));
                        if once {
                            assert(op_loop(toks, lv, acc) == node);
                        } else {
                            assert(op_loop(toks, lv, acc) == op_loop(toks, lv, node));
                        }
                        acc = node;
                    }
                    if once {
                        break;
                    }
                },
                _ => {
                    proof {
                        assert(op_loop(toks, lv, acc) == join(acc, s1));
                    }
                    break;
                },
            }
        }
    }

    /// The operands of the binary operations at `level`: the next tighter level.
    fn operand(&mut self, level: u8)
        requires
            old(self).wf(),
            level <= 9,
        ensures
            final(self).wf(),
            old(self).advances(*final(self)),
            adds_element(old(self).children(), final(self).children()),
            old(self).took(*final(self), operand_step(old(self).input(), level as nat, old(self).position())),
        decreases old(self).input().len() - old(self).position(), 4 * level + 10,
    {
        match level {
            0 => self.parse_negate(),
            1 => self.parse_isset(),
            2 => self.parse_concat(),
            3 => self.parse_mul(),
            4 => self.parse_invert(),
            5 => self.parse_merge(),
            6 => self.parse_compare(),
            7 => self.parse_equal(),
            8 => self.parse_and(),
            _ => self.parse_or(),
        }
    }

    fn parse_isset(&mut self)
        requires
            old(self).wf(),
        ensures
            final(self).wf(),
            old(self).advances(*final(self)),
            adds_element(old(self).children(), final(self).children()),
            old(self).took(*final(self), binary_step(old(self).input(), 0, old(self).position())),
        decreases old(self).input().len() - old(self).position(), 12int,
    {
        let ops = [Token::Question];
        assert(ops@ =~= level_ops(0));
        self.handle_operation(false, 0, &ops)
    }

    fn parse_concat(&mut self)
        requires
            old(self).wf(),
        ensures
            final(self).wf(),
            old(self).advances(*final(self)),
            adds_element(old(self).children(), final(self).children()),
            old(self).took(*final(self), binary_step(old(self).input(), 1, old(self).position())),
        decreases old(self).input().len() - old(self).position(), 16int,
    {
        let ops = [Token::Concat];
        assert(ops@ =~= level_ops(1));
        self.handle_operation(false, 1, &ops)
    }

    fn parse_mul(&mut self)
        requires
            old(self).wf(),
        ensures
            final(self).wf(),
            old(self).advances(*final(self)),
            adds_element(old(self).children(), final(self).children()),
            old(self).took(*final(self), binary_step(old(self).input(), 2, old(self).position())),
        decreases old(self).input().len() - old(self).position(), 20int,
    {
        let ops = [Token::Mul, Token::Div];
        assert(ops@ =~= level_ops(2));
        self.handle_operation(false, 2, &ops)
    }

    fn parse_add(&mut self)
        requires
            old(self).wf(),
        ensures
            final(self).wf(),
            old(self).advances(*final(self)),
            adds_element(old(self).children(), final(self).children()),
            old(self).took(*final(self), binary_step(old(self).input(), 3, old(self).position())),
        decreases old(self).input().len() - old(self).position(), 24int,
    {
        let ops = [Token::Add, Token::Sub];
        assert(ops@ =~= level_ops(3));
        self.handle_operation(false, 3, &ops)
    }

    /// Boolean negation `!x`, which binds looser than arithmetic.
    fn parse_invert(&mut self)
        requires
            old(self).wf(),
        ensures
            final(self).wf(),
            old(self).advances(*final(self)),
            adds_element(old(self).children(), final(self).children()),
            old(self).took(*final(self), invert_step(old(self).input(), old(self).position())),
        decreases old(self).input().len() - old(self).position(), 25int,
    {
        let ghost base = self.children();
        let ghost toks = self.tokens@;
        let ghost a0 = *self;
        let next = self.peek();
        let ghost s = self.children();
        let ghost a1 = *self;
        let ghost p = a1.position();
        let ghost sk = skip_trivia(toks, a0.position());
        if let Some(Token::Invert) = next {
            self.start(NodeType::Unary);
            self.bump();
            let ghost b1 = *self;
            self.parse_invert();
            let ghost b2 = *self;
            self.finish_element(Ghost(base), Ghost(s));
            proof {
                let inner = join(bump_step(toks, p), invert_step(toks, p + 1));
                lemma_join(a1, b1, b2, bump_step(toks, p), invert_step(toks, p + 1));
                lemma_wrap(a1, b2, *self, inner, NodeType::Unary);
                lemma_join(a0, a1, *self, sk, wrap(NodeType::Unary, inner));
            }
        } else {
            self.parse_add();
            proof {
                lemma_trivia_then_element(base, s, self.children());
                lemma_join(a0, a1, *self, sk, binary_step(toks, 3, p));
            }
        }
    }

    fn parse_merge(&mut self)
        requires
            old(self).wf(),
        ensures
            final(self).wf(),
            old(self).advances(*final(self)),
            adds_element(old(self).children(), final(self).children()),
            old(self).took(*final(self), binary_step(old(self).input(), 4, old(self).position())),
        decreases old(self).input().len() - old(self).position(), 28int,
    {
        let ops = [Token::Merge];
        assert(ops@ =~= level_ops(4));
        self.handle_operation(false, 4, &ops)
    }

    fn parse_compare(&mut self)
        requires
            old(self).wf(),
        ensures
            final(self).wf(),
            old(self).advances(*final(self)),
            adds_element(old(self).children(), final(self).children()),
            old(self).took(*final(self), binary_step(old(self).input(), 5, old(self).position())),
        decreases old(self).input().len() - old(self).position(), 32int,
    {
        let ops = [Token::Less, Token::LessOrEq, Token::More, Token::MoreOrEq];
        assert(ops@ =~= level_ops(5));
        self.handle_operation(true, 5, &ops)
    }

    fn parse_equal(&mut self)
        requires
            old(self).wf(),
        ensures
            final(self).wf(),
            old(self).advances(*final(self)),
            adds_element(old(self).children(), final(self).children()),
            old(self).took(*final(self), binary_step(old(self).input(), 6, old(self).position())),
        decreases old(self).input().len() - old(self).position(), 36int,
    {
        let ops = [Token::Equal, Token::NotEqual];
        assert(ops@ =~= level_ops(6));
        self.handle_operation(true, 6, &ops)
    }

    fn parse_and(&mut self)
        requires
            old(self).wf(),
        ensures
            final(self).wf(),
            old(self).advances(*final(self)),
            adds_element(old(self).children(), final(self).children()),
            old(self).took(*final(self), binary_step(old(self).input(), 7, old(self).position())),
        decreases old(self).input().len() - old(self).position(), 40int,
    {
        let ops = [Token::And];
        assert(ops@ =~= level_ops(7));
        self.handle_operation(false, 7, &ops)
    }

    fn parse_or(&mut self)
        requires
            old(self).wf(),
        ensures
            final(self).wf(),
            old(self).advances(*final(self)),
            adds_element(old(self).children(), final(self).children()),
            old(self).took(*final(self), binary_step(old(self).input(), 8, old(self).position())),
        decreases old(self).input().len() - old(self).position(), 44int,
    {
        let ops = [Token::Or];
        assert(ops@ =~= level_ops(8));
        self.handle_operation(false, 8, &ops)
    }

    fn parse_implication(&mut self)
        requires
            old(self).wf(),
        ensures
            final(self).wf(),
            old(self).advances(*final(self)),
            adds_element(old(self).children(), final(self).children()),
            old(self).took(*final(self), binary_step(old(self).input(), 9, old(self).position())),
        decreases old(self).input().len() - old(self).position(), 48int,
    {
        let ops = [Token::Implication];
        assert(ops@ =~= level_ops(9));
        self.handle_operation(false, 9, &ops)
    }

    fn parse_math(&mut self)
        requires
            old(self).wf(),
        ensures
            final(self).wf(),
            old(self).advances(*final(self)),
            adds_element(old(self).children(), final(self).children()),
            old(self).took(*final(self), binary_step(old(self).input(), 9, old(self).position())),
        decreases old(self).input().len() - old(self).position(), 49int,
    {
        // Always point this to the lowest-level math function there is
        self.parse_implication()
    }

    /// Consume all tokens left, each as a leaf.
    fn consume_rest(&mut self)
        requires
            old(self).wf(),
        ensures
            final(self).wf(),
            old(self).extends(*final(self)),
            final(self).at_end(),
            old(self).took(*final(self), rest_leaves(old(self).input(), old(self).position())),
    {
        let ghost toks = self.tokens@;
        let ghost a0 = *self;
        let ghost goal = rest_leaves(toks, a0.position());
        loop
            invariant_except_break
                self.rest_is(rest_leaves(toks, self.position()), a0, goal),
            invariant
                self.wf(),
                old(self).extends(*self),
                toks == self.tokens@,
                goal == rest_leaves(toks, a0.position()),
            ensures
                self.wf(),
                old(self).extends(*self),
                self.at_end(),
                a0.took(*self, goal),
            decreases self.tokens.len() - self.pos,
        {
            let ghost x = *self;
            let n = self.peek();
            let ghost y = *self;
            proof {
                lemma_rest_leaves(toks, x.position());
                lemma_rest_step(x, y, skip_trivia(toks, x.position()), rest_leaves(toks, y.position()), a0, goal);
            }
            match n {
                Some(_) => {
                    self.bump();
                    proof {
                        let b = bump_step(toks, y.position());
                        let r = rest_leaves(toks, y.position() + 1);
                        assert(rest_leaves(toks, y.position()) == join(b, r));
                        lemma_rest_step(y, *self, b, r, a0, goal);
                    }
                },
                None => {
                    proof {
                        assert(rest_leaves(toks, y.position()) == stay(y.position()));
                        assert(y.children() =~= y.children() + stay(y.position()).trees);
                        assert(y.errors() =~= y.errors() + stay(y.position()).errs);
                        lemma_rest_done(y, y, stay(y.position()), a0, goal);
                    }
                    break;
                },
            }
        }
    }

    /// Parse Nix code into an AST: one expression, which adds one element
    /// to the tree, with trivia around it. An expression that starts with a
    /// keyword becomes a node of that keyword's kind.
    #[verifier::rlimit(30)]
    pub fn parse_expr(&mut self)
        requires
            old(self).wf(),
        ensures
            final(self).wf(),
            old(self).advances(*final(self)),
            adds_element(old(self).children(), final(self).children()),
            old(self).took(*final(self), expr_step(old(self).input(), old(self).position())),
            data_at(old(self).input(), old(self).position()) == Some(Token::Let) ==> {
                &&& final(self).children().last() is Node
                &&& final(self).children().last().kind() == Types::spec_kind_to_raw(NodeType::Let)
                    || final(self).children().last().kind() == Types::spec_kind_to_raw(NodeType::LetIn)
            },
            data_at(old(self).input(), old(self).position()) == Some(Token::With) ==> {
                &&& final(self).children().last() is Node
                &&& final(self).children().last().kind() == Types::spec_kind_to_raw(NodeType::With)
            },
            data_at(old(self).input(), old(self).position()) == Some(Token::If) ==> {
                &&& final(self).children().last() is Node
                &&& final(self).children().last().kind() == Types::spec_kind_to_raw(NodeType::IfElse)
            },
            data_at(old(self).input(), old(self).position()) == Some(Token::Assert) ==> {
                &&& final(self).children().last() is Node
                &&& final(self).children().last().kind() == Types::spec_kind_to_raw(NodeType::Assert)
            },
        decreases old(self).input().len() - old(self).position(), 50int,
    {
        let ghost base = self.children();
        let ghost toks = self.tokens@;
        let ghost a0 = *self;
        let next = self.peek();
        let ghost s = self.children();
        let ghost a1 = *self;
        let ghost p = a1.position();
        let ghost sk = skip_trivia(toks, a0.position());
        match next {
            Some(Token::Let) => {
                let checkpoint = self.checkpoint();
                self.bump();
                let ghost l1 = *self;
                let n2 = self.peek();
                let ghost l2 = *self;
                let ghost s2 = skip_trivia(toks, p + 1);
                let ghost p2 = l2.position();
                if let Some(Token::CurlyBOpen) = n2 {
                    self.start_at(checkpoint, NodeType::Let);
                    self.bump();
                    let ghost l3 = *self;
                    self.parse_set(Token::CurlyBClose);
                    let ghost l4 = *self;
                    self.finish_element(Ghost(base), Ghost(s));
                    proof {
                        let b2 = bump_step(toks, p2);
                        let st = set_step(toks, p2 + 1, Token::CurlyBClose);
                        let inner = join(bump_step(toks, p), join(s2, join(b2, st)));
                        lemma_join(l2, l3, l4, b2, st);
                        lemma_join(l1, l2, l4, s2, join(b2, st));
                        lemma_join(a1, l1, l4, bump_step(toks, p), join(s2, join(b2, st)));
                        lemma_wrap(a1, l4, *self, inner, NodeType::Let);
                        lemma_join(a0, a1, *self, sk, wrap(NodeType::Let, inner));
                    }
                } else {
                    self.start_at(checkpoint, NodeType::LetIn);
                    self.parse_set(Token::In);
                    let ghost l3 = *self;
                    self.parse_expr();
                    let ghost l4 = *self;
                    self.finish_element(Ghost(base), Ghost(s));
                    proof {
                        let st = set_step(toks, p2, Token::In);
                        assert(advanced(toks, st, a0.position()));
                        let e = expr_step(toks, st.end);
                        let inner = join(bump_step(toks, p), join(s2, join(st, e)));
                        lemma_join(l2, l3, l4, st, e);
                        lemma_join(l1, l2, l4, s2, join(st, e));
                        lemma_join(a1, l1, l4, bump_step(toks, p), join(s2, join(st, e)));
                        lemma_wrap(a1, l4, *self, inner, NodeType::LetIn);
                        lemma_join(a0, a1, *self, sk, wrap(NodeType::LetIn, inner));
                    }
                }
            },
            Some(Token::With) => {
                self.start(NodeType::With);
                self.bump();
                let ghost c1 = *self;
                self.parse_expr();
                let ghost c2 = *self;
                self.expect(Token::Semicolon);
                let ghost c3 = *self;
                self.parse_expr();
                let ghost c4 = *self;
                self.finish_element(Ghost(base), Ghost(s));
                proof {
                    let e = expr_step(toks, p + 1);
                    let x = expect_step(toks, e.end, Token::Semicolon);
                    assert(advanced(toks, x, p));
                    let e2 = expr_step(toks, x.end);
                    let inner = join(bump_step(toks, p), join(e, join(x, e2)));
                    lemma_join(c2, c3, c4, x, e2);
                    lemma_join(c1, c2, c4, e, join(x, e2));
                    lemma_join(a1, c1, c4, bump_step(toks, p), join(e, join(x, e2)));
                    assert(clause_step(toks, p, Token::Semicolon) == inner);
                    lemma_wrap(a1, c4, *self, inner, NodeType::With);
                    lemma_join(a0, a1, *self, sk, wrap(NodeType::With, inner));
                }
            },
            Some(Token::If) => {
                self.start(NodeType::IfElse);
                self.bump();
                let ghost c1 = *self;
                self.parse_expr();
                let ghost c2 = *self;
                self.expect(Token::Then);
                let ghost c3 = *self;
                self.parse_expr();
                let ghost c4 = *self;
                self.expect(Token::Else);
                let ghost c5 = *self;
                self.parse_expr();
                let ghost c6 = *self;
                self.finish_element(Ghost(base), Ghost(s));
                proof {
                    let c = expr_step(toks, p + 1);
                    let x = expect_step(toks, c.end, Token::Then);
                    assert(advanced(toks, x, a0.position()));
                    let t = expr_step(toks, x.end);
                    let y = expect_step(toks, t.end, Token::Else);
                    assert(advanced(toks, y, a0.position()));
                    let f = expr_step(toks, y.end);
                    lemma_join(c4, c5, c6, y, f);
                    lemma_join(c3, c4, c6, t, join(y, f));
                    lemma_join(c2, c3, c6, x, join(t, join(y, f)));
                    lemma_join(c1, c2, c6, c, join(x, join(t, join(y, f))));
                    let inner = join(bump_step(toks, p), join(c, join(x, join(t, join(y, f)))));
                    lemma_join(a1, c1, c6, bump_step(toks, p), join(c, join(x, join(t, join(y, f)))));
                    lemma_wrap(a1, c6, *self, inner, NodeType::IfElse);
                    lemma_join(a0, a1, *self, sk, wrap(NodeType::IfElse, inner));
                }
            },
            Some(Token::Assert) => {
                self.start(NodeType::Assert);
                self.bump();
                let ghost c1 = *self;
                self.parse_expr();
                let ghost c2 = *self;
                self.expect(Token::Semicolon);
                let ghost c3 = *self;
                self.parse_expr();
                let ghost c4 = *self;
                self.finish_element(Ghost(base), Ghost(s));
                proof {
                    let e = expr_step(toks, p + 1);
                    let x = expect_step(toks, e.end, Token::Semicolon);
                    assert(advanced(toks, x, p));
                    let e2 = expr_step(toks, x.end);
                    let inner = join(bump_step(toks, p), join(e, join(x, e2)));
                    lemma_join(c2, c3, c4, x, e2);
                    lemma_join(c1, c2, c4, e, join(x, e2));
                    lemma_join(a1, c1, c4, bump_step(toks, p), join(e, join(x, e2)));
                    assert(clause_step(toks, p, Token::Semicolon) == inner);
                    lemma_wrap(a1, c4, *self, inner, NodeType::Assert);
                    lemma_join(a0, a1, *self, sk, wrap(NodeType::Assert, inner));
                }
            },
            _ => {
                self.parse_math();
                proof {
                    lemma_trivia_then_element(base, s, self.children());
                    lemma_join(a0, a1, *self, sk, binary_step(toks, 9, p));
                }
            },
        }
    }
}

/// Whether `ops` holds the token `t`.
fn contains_token(ops: &[Token], t: Token) -> (b: bool)
    ensures
        b == ops@.contains(t),
{
    let mut i: usize = 0;
    while i < ops.len()
        invariant
            i <= ops@.len(),
            forall|j: int| 0 <= j < i ==> ops@[j] != t,
        decreases ops.len() - i,
    {
        if ops[i] == t {
            return true;
        }
        i = i + 1;
    }
    false
}

/// The children of a root: one expression element with trivia around it,
/// then, if input was left over, one `Error` node that holds the rest.
pub open spec fn root_children_ok(rc: Seq<GreenTree>) -> bool {
    ||| adds_element(Seq::empty(), rc)
    ||| {
        &&& rc.len() > 0
        &&& rc.last() is Node
        &&& rc.last().kind() == Types::spec_kind_to_raw(NodeType::Error)
        &&& adds_element(Seq::empty(), rc.drop_last())
    }
}

/// Parse tokens into an AST.
///
/// The tree is a `Root` node over exactly the trees that `root_step` (in
/// `grammar`) gives for the tokens, and the recorded errors are exactly the
/// errors it gives; all input is consumed. The tree is lossless: its leaves are the input tokens, each with its kind
/// and text, in order. Its root is a `Root` node. The errors recorded beside
/// it all report an early end of input; input that does not fit the grammar
/// ends up in `Error` nodes instead (see `AST::errors`). The root holds one
/// expression, and one `Error` node for any input left over after it.
#[verifier::rlimit(30)]
pub fn parse(tokens: Vec<(Token, String)>) -> (ast: AST)
    requires
        token_bytes(tokens@) <= u32::MAX,
    ensures
        ast.tree() == (GreenTree::Node {
            kind: Types::spec_kind_to_raw(NodeType::Root),
            children: root_step(tokens@).trees,
        }),
        ast.recorded_errors() == root_step(tokens@).errs,
        root_step(tokens@).end == tokens@.len(),
        ast.tree().kind() == Types::spec_kind_to_raw(NodeType::Root),
        leaves(ast.tree()) == token_leaves(tokens@),
        root_children_ok(ast.tree()->Node_children),
        forall|i: int| 0 <= i < ast.recorded_errors().len() ==> (#[trigger] ast.recorded_errors()[i]).is_eof(),
{
    let ghost toks = tokens@;
    let mut parser = Parser::new(tokens);
    parser.start(NodeType::Root);
    let ghost r0 = parser;
    parser.parse_expr();
    let ghost r1 = parser;
    let ghost expr = parser.children();
    let rest = parser.peek();
    let ghost r2 = parser;
    let ghost e = expr_step(toks, 0);
    let ghost s = skip_trivia(toks, e.end);
    proof {
        lemma_element_then_trivia(Seq::empty(), expr, parser.children());
    }
    let ghost before_rest = parser.children();
    if rest.is_some() {
        parser.start(NodeType::Error);
        let ghost first = parser.children().len();
        let ghost outer = parser.parents().drop_last();
        let ghost goal = rest_leaves(toks, r2.position());
        parser.consume_rest();
        let ghost r4 = parser;
        parser.finish();
        assert(parser.children().drop_last() =~= before_rest);
        assert(root_children_ok(parser.children()));
        proof {
            lemma_wrap(r2, r4, parser, goal, NodeType::Error);
            lemma_join(r1, r2, parser, s, wrap(NodeType::Error, goal));
            lemma_join(r0, r1, parser, e, join(s, wrap(NodeType::Error, goal)));
        }
    } else {
        proof {
            lemma_join(r0, r1, r2, e, s);
        }
    }
    assert(parser.at_end());
    let ghost root_children = parser.children();
    assert(root_children_ok(root_children));
    assert(r0.took(parser, root_step(toks)));
    assert(root_children =~= root_step(toks).trees);
    assert(parser.errors() =~= root_step(toks).errs);
    parser.finish();
    assert(root_children.skip(0) =~= root_children);
    let ghost children = parser.children();
    proof {
        assert(children.len() == 1);
        assert(toks.take(toks.len() as int) =~= toks);
        assert(children.drop_last() =~= Seq::<GreenTree>::empty());
    }
    let Parser { builder, errors, .. } = parser;
    let node = builder_finish(builder);
    assert(leaves(green_tree(node)) == token_leaves(toks));
    AST::from_parts(node, errors)
}

} // verus!

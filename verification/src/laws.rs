//! What the parsing routines are for, stated over all inputs: how the trees
//! that they build relate to the tokens they read.

use vstd::prelude::*;
use crate::grammar::{
    attr_step, binary_step, brace_step, entry_step, expect_step, expr_step, interpol_code, join, kind_at,
    lemma_skip_trivia, level_ops, op_loop, operand_step, pattern_entries, pattern_step, set_step, skip_trivia,
    stay, val_main, wrap, advanced, Step,
};
use crate::green::GreenTree;
use crate::kinds::{NodeType, Types};
use crate::parser::{data_at, next_data};
use crate::token::Token;

verus! {

/// The raw kind of a node type.
pub open spec fn raw(kind: NodeType) -> u16 {
    Types::spec_kind_to_raw(kind)
}

/// `t` is a tree of the given kind that is a node, not a token.
pub open spec fn is_node(t: GreenTree, kind: NodeType) -> bool {
    t is Node && t.kind() == raw(kind)
}

/// The keywords that start an expression of their own.
pub open spec fn is_keyword(t: Token) -> bool {
    t == Token::If || t == Token::With || t == Token::Assert || t == Token::Let
}

/// `tree` is the node that an expression starting with the keyword `t` makes.
pub open spec fn keyword_node(t: Token, tree: GreenTree) -> bool {
    &&& tree is Node
    &&& t == Token::If ==> tree.kind() == raw(NodeType::IfElse)
    &&& t == Token::With ==> tree.kind() == raw(NodeType::With)
    &&& t == Token::Assert ==> tree.kind() == raw(NodeType::Assert)
    &&& t == Token::Let ==> tree.kind() == raw(NodeType::Let) || tree.kind() == raw(NodeType::LetIn)
}

/// At a token that is not trivia, or at the end, there is no trivia to skip.
proof fn lemma_no_trivia(toks: Seq<(Token, String)>, p: int)
    requires
        0 <= p,
        kind_at(toks, p) matches Some(t) ==> !t.spec_is_trivia(),
    ensures
        skip_trivia(toks, p) == stay(p),
{
}

/// Where trivia skipping from `q` stops is where the next token that is not
/// trivia is.
proof fn lemma_skip_to_data(toks: Seq<(Token, String)>, q: int)
    requires
        0 <= q <= toks.len(),
    ensures
        skip_trivia(toks, q).errs == Seq::<crate::ast::ParseError>::empty(),
        skip_trivia(toks, q).end == next_data(toks, q),
        q <= next_data(toks, q) <= toks.len(),
        kind_at(toks, skip_trivia(toks, q).end) == data_at(toks, q),
{
    lemma_skip_trivia(toks, q);
}

/// An expression that starts with `if`, `with`, `assert` or `let` is one
/// node of that keyword's kind, after the trivia before it.
pub proof fn law_keyword_expression(toks: Seq<(Token, String)>, q: int)
    requires
        0 <= q <= toks.len(),
        data_at(toks, q) matches Some(k) && is_keyword(k),
    ensures
        expr_step(toks, q).trees.len() == skip_trivia(toks, q).trees.len() + 1,
        keyword_node(data_at(toks, q).unwrap(), expr_step(toks, q).trees.last()),
{
    lemma_skip_to_data(toks, q);
}

/// The two tokens after a `{` (past trivia) that make it the pattern of a
/// lambda rather than a set: `{ a,`, `{ a ?`, `{ a }`, `{ ... }`, `{ }:`
/// and `{ } @`.
pub open spec fn pattern_pair(first: Option<Token>, second: Option<Token>) -> bool {
    ||| first == Some(Token::Ident) && (second == Some(Token::Comma) || second == Some(Token::Question)
        || second == Some(Token::CurlyBClose))
    ||| first == Some(Token::Ellipsis) && second == Some(Token::CurlyBClose)
    ||| first == Some(Token::CurlyBClose) && (second == Some(Token::Colon) || second == Some(Token::At))
}

/// The token after the one that is not trivia after `p`, past trivia.
pub open spec fn second_data(toks: Seq<(Token, String)>, p: int) -> Option<Token> {
    if next_data(toks, p) < toks.len() {
        data_at(toks, next_data(toks, p) + 1)
    } else {
        None
    }
}

/// `{` at `p` is one node: a `Lambda` whose first child is a `Pattern`
/// exactly when the two tokens after it make a pattern, else a set whose
/// first child is the `{`. A pattern that starts with an identifier holds a
/// `PatEntry` for it.
pub proof fn law_brace_lookahead(toks: Seq<(Token, String)>, p: int)
    requires
        0 <= p < toks.len(),
        toks[p].0 == Token::CurlyBOpen,
    ensures
        ({
            let r = brace_step(toks, p).trees;
            let first = data_at(toks, p + 1);
            let second = second_data(toks, p + 1);
            &&& r.len() == 1
            &&& pattern_pair(first, second) ==> {
                &&& is_node(r[0], NodeType::Lambda)
                &&& r[0]->Node_children.len() > 0
                &&& is_node(r[0]->Node_children[0], NodeType::Pattern)
                &&& first == Some(Token::Ident) ==> exists|i: int|
                    0 <= i < r[0]->Node_children[0]->Node_children.len() && is_node(
                        #[trigger] r[0]->Node_children[0]->Node_children[i],
                        NodeType::PatEntry,
                    )
            }
            &&& !pattern_pair(first, second) ==> {
                &&& is_node(r[0], NodeType::AttrSet)
                &&& r[0]->Node_children.len() > 0
                &&& r[0]->Node_children[0] == crate::grammar::leaf(toks[p])
            }
        }),
{
    lemma_skip_to_data(toks, p + 1);
    let i = next_data(toks, p + 1);
    if pattern_pair(data_at(toks, p + 1), second_data(toks, p + 1)) && data_at(toks, p + 1) == Some(
        Token::Ident,
    ) {
        lemma_no_trivia(toks, i);
        let s = skip_trivia(toks, p + 1);
        let entries = pattern_entries(toks, i);
        let ps = pattern_step(toks, p + 1, false);
        let n = s.trees.len() as int;
        assert(is_node(entries.trees[0], NodeType::PatEntry));
        assert(ps.trees[n] == entries.trees[0]);
        let pat = brace_step(toks, p).trees[0]->Node_children[0];
        assert(pat->Node_children[1 + n] == entries.trees[0]);
    }
}

/// Once an operation has wrapped what came before, further operations at
/// the same level wrap it again: the first tree stays an `Operation` node.
proof fn lemma_op_loop_keeps_operation(toks: Seq<(Token, String)>, level: nat, acc: Step)
    requires
        acc.trees.len() > 0,
        is_node(acc.trees[0], NodeType::Operation),
    ensures
        op_loop(toks, level, acc).trees.len() > 0,
        is_node(op_loop(toks, level, acc).trees[0], NodeType::Operation),
    decreases toks.len() - acc.end,
{
    let s = skip_trivia(toks, acc.end);
    let p = s.end;
    lemma_skip_trivia(toks, acc.end);
    match kind_at(toks, p) {
        Some(t) => if level_ops(level).contains(t) {
            let o = operand_step(toks, level, p + 1);
            let node = wrap(NodeType::Operation, join(join(join(acc, s), crate::grammar::bump_step(toks, p)), o));
            if !(crate::grammar::level_once(level) || !advanced(toks, o, acc.end)) {
                lemma_op_loop_keeps_operation(toks, level, node);
            }
        } else {
        },
        None => {},
    }
}

/// The level of precedence of each binary operator, from the tightest:
/// `?`, `++`, `*` `/`, `+` `-`, `//`, the comparisons, `==` `!=`, `&&`,
/// `||`, `->`.
pub open spec fn operator_level(t: Token) -> Option<nat> {
    if t == Token::Question {
        Some(0)
    } else if t == Token::Concat {
        Some(1)
    } else if t == Token::Mul || t == Token::Div {
        Some(2)
    } else if t == Token::Add || t == Token::Sub {
        Some(3)
    } else if t == Token::Merge {
        Some(4)
    } else if t == Token::Less || t == Token::LessOrEq || t == Token::More || t == Token::MoreOrEq {
        Some(5)
    } else if t == Token::Equal || t == Token::NotEqual {
        Some(6)
    } else if t == Token::And {
        Some(7)
    } else if t == Token::Or {
        Some(8)
    } else if t == Token::Implication {
        Some(9)
    } else {
        None
    }
}

/// An operator is among the operators that its level handles.
proof fn lemma_operator_in_level(t: Token, level: nat)
    requires
        operator_level(t) == Some(level),
    ensures
        level_ops(level).contains(t),
{
    let ops = level_ops(level);
    if t == Token::Question || t == Token::Concat || t == Token::Mul || t == Token::Add || t == Token::Merge
        || t == Token::Less || t == Token::Equal || t == Token::And || t == Token::Or || t
        == Token::Implication {
        assert(ops[0] == t);
    } else if t == Token::Div || t == Token::Sub || t == Token::LessOrEq || t == Token::NotEqual {
        assert(ops[1] == t);
    } else if t == Token::More {
        assert(ops[2] == t);
    } else {
        assert(ops[3] == t);
    }
}

/// Each binary operator works at its level of precedence: after a first
/// operand of the next tighter level, the operator makes an `Operation`
/// node that holds that operand, the operator and the next operand (and
/// later operations of the level wrap it in turn). So `/` works like `*`,
/// tighter than `+` and `-`.
pub proof fn law_operators_make_operations(toks: Seq<(Token, String)>, level: nat, q: int, op: Token)
    requires
        0 <= q,
        operator_level(op) == Some(level),
        q <= operand_step(toks, level, q).end <= toks.len(),
        data_at(toks, operand_step(toks, level, q).end) == Some(op),
    ensures
        binary_step(toks, level, q).trees.len() > 0,
        is_node(binary_step(toks, level, q).trees[0], NodeType::Operation),
{
    let o = operand_step(toks, level, q);
    lemma_skip_to_data(toks, o.end);
    let s = skip_trivia(toks, o.end);
    let p = s.end;
    lemma_operator_in_level(op, level);
    let o2 = operand_step(toks, level, p + 1);
    let node = wrap(NodeType::Operation, join(join(join(o, s), crate::grammar::bump_step(toks, p)), o2));
    assert(is_node(node.trees[0], NodeType::Operation));
    if !(crate::grammar::level_once(level) || !advanced(toks, o2, o.end)) {
        lemma_op_loop_keeps_operation(toks, level, node);
    }
}

/// Operators bind at one level only: `*` and `/` are not operators of the
/// level of `+` and `-`, and no operator is one of two levels.
pub proof fn law_operator_levels_are_distinct(t: Token, level: nat)
    requires
        level <= 9,
        level_ops(level).contains(t),
    ensures
        operator_level(t) == Some(level),
{
    let i = choose|i: int| 0 <= i < level_ops(level).len() && level_ops(level)[i] == t;
    assert(level_ops(level)[i] == t);
}

/// Where the value of a set entry at `p` starts: after its attribute path
/// and its `=`.
pub open spec fn entry_value_at(toks: Seq<(Token, String)>, p: int) -> int {
    expect_step(toks, attr_step(toks, p).end, Token::Assign).end
}

/// The value of a set entry `path = value;` is a whole expression: the
/// `SetEntry` node holds, right after the path and the `=`, the trees that
/// parsing an expression from there gives; so a value that starts with
/// `if`, `with`, `assert` or `let` is a node of that keyword's kind.
pub proof fn law_entry_value_is_an_expression(toks: Seq<(Token, String)>, p: int)
    requires
        0 <= p < toks.len(),
        advanced(toks, expect_step(toks, attr_step(toks, p).end, Token::Assign), p),
    ensures
        entry_step(toks, p).trees.len() == 1,
        is_node(entry_step(toks, p).trees[0], NodeType::SetEntry),
        ({
            let children = entry_step(toks, p).trees[0]->Node_children;
            let start = (attr_step(toks, p).trees.len() + expect_step(
                toks,
                attr_step(toks, p).end,
                Token::Assign,
            ).trees.len()) as int;
            let value = expr_step(toks, entry_value_at(toks, p)).trees;
            &&& start + value.len() <= children.len()
            &&& children.subrange(start, start + value.len()) == value
            &&& (data_at(toks, entry_value_at(toks, p)) matches Some(k) ==> (is_keyword(k) ==> exists|i: int|
                0 <= i < children.len() && keyword_node(k, #[trigger] children[i])))
        }),
{
    let a = attr_step(toks, p);
    let x = expect_step(toks, a.end, Token::Assign);
    let e = expr_step(toks, x.end);
    let y = expect_step(toks, e.end, Token::Semicolon);
    let children = entry_step(toks, p).trees[0]->Node_children;
    assert(children == a.trees + (x.trees + (e.trees + y.trees)));
    let start = (a.trees.len() + x.trees.len()) as int;
    assert(children.subrange(start, start + e.trees.len()) =~= e.trees);
    if data_at(toks, x.end) is Some && is_keyword(data_at(toks, x.end)->0) {
        law_keyword_expression(toks, x.end);
        let i = start + e.trees.len() - 1;
        assert(children[i] == e.trees.last());
    }
}

/// The body of `let bindings in body` is a whole expression: the `LetIn`
/// node ends with the trees that parsing an expression from the end of the
/// bindings gives; so a body that starts with `if`, `with`, `assert` or
/// `let` is the last child, a node of that keyword's kind.
pub proof fn law_let_in_body_is_an_expression(toks: Seq<(Token, String)>, q: int)
    requires
        0 <= q <= toks.len(),
        data_at(toks, q) == Some(Token::Let),
        data_at(toks, next_data(toks, q) + 1) != Some(Token::CurlyBOpen),
        advanced(toks, set_step(toks, next_data(toks, next_data(toks, q) + 1), Token::In), q),
    ensures
        ({
            let bindings = set_step(toks, next_data(toks, next_data(toks, q) + 1), Token::In);
            let body = expr_step(toks, bindings.end).trees;
            let node = expr_step(toks, q).trees.last();
            &&& expr_step(toks, q).trees.len() > 0
            &&& is_node(node, NodeType::LetIn)
            &&& body.len() <= node->Node_children.len()
            &&& node->Node_children.subrange(
                node->Node_children.len() - body.len(),
                node->Node_children.len() as int,
            ) == body
            &&& (data_at(toks, bindings.end) matches Some(k) ==> (is_keyword(k) ==> keyword_node(
                k,
                node->Node_children.last(),
            )))
        }),
{
    lemma_skip_to_data(toks, q);
    let p = next_data(toks, q);
    lemma_skip_to_data(toks, p + 1);
    let p2 = next_data(toks, p + 1);
    let st = set_step(toks, p2, Token::In);
    let e = expr_step(toks, st.end);
    let b = crate::grammar::bump_step(toks, p);
    let s2 = skip_trivia(toks, p + 1);
    let node = expr_step(toks, q).trees.last();
    assert(node->Node_children == b.trees + (s2.trees + (st.trees + e.trees)));
    let n = node->Node_children.len();
    assert(node->Node_children.subrange(n - e.trees.len(), n as int) =~= e.trees);
    if data_at(toks, st.end) is Some && is_keyword(data_at(toks, st.end)->0) {
        law_keyword_expression(toks, st.end);
        assert(node->Node_children.last() == e.trees.last());
    }
}

/// Each code part `${ ... }` of a string holds whole expressions: its
/// trees begin, after trivia, with the trees that parsing an expression
/// there gives; so code that starts with `if`, `with`, `assert` or `let`
/// holds a node of that keyword's kind.
pub proof fn law_interpolation_code_is_an_expression(toks: Seq<(Token, String)>, q: int)
    requires
        0 <= q <= toks.len(),
        data_at(toks, q) matches Some(t) && t != Token::InterpolEnd && t != Token::InterpolEndStart,
        advanced(toks, expr_step(toks, next_data(toks, q)), q),
    ensures
        ({
            let code = interpol_code(toks, q).trees;
            let lead = skip_trivia(toks, q).trees;
            let e = expr_step(toks, next_data(toks, q)).trees;
            &&& lead.len() + e.len() <= code.len()
            &&& code.subrange(lead.len() as int, (lead.len() + e.len()) as int) == e
            &&& (data_at(toks, q) matches Some(k) ==> (is_keyword(k) ==> exists|i: int|
                0 <= i < code.len() && keyword_node(k, #[trigger] code[i])))
        }),
{
    lemma_skip_to_data(toks, q);
    let p = next_data(toks, q);
    let s = skip_trivia(toks, q);
    let e = expr_step(toks, p);
    let code = interpol_code(toks, q).trees;
    assert(code == s.trees + (e.trees + interpol_code(toks, e.end).trees));
    let n = s.trees.len() as int;
    assert(code.subrange(n, n + e.trees.len()) =~= e.trees);
    if data_at(toks, q) is Some && is_keyword(data_at(toks, q)->0) {
        lemma_skip_to_data(toks, p);
        law_keyword_expression(toks, p);
        assert(code[n + e.trees.len() - 1] == e.trees.last());
    }
}

/// What a value is, by its first token: `(` a `Paren` node, `rec` and `{`
/// without a pattern a set, `[` a `List`, `${` a `Dynamic` node, a string
/// with interpolations an `Interpol` node, each with that token as first
/// leaf; a literal, path or string is its own leaf; an identifier is its
/// own leaf or starts a `Lambda`; any other token is wrapped in an `Error`
/// node.
pub proof fn law_value_by_first_token(toks: Seq<(Token, String)>, p: int)
    requires
        0 <= p < toks.len(),
    ensures
        ({
            let t = toks[p].0;
            let r = val_main(toks, p).trees;
            let l = crate::grammar::leaf(toks[p]);
            &&& r.len() == 1 || t == Token::Ident
            &&& t == Token::ParenOpen ==> is_node(r[0], NodeType::Paren) && r[0]->Node_children[0] == l
            &&& t == Token::Rec ==> is_node(r[0], NodeType::AttrSet) && r[0]->Node_children[0] == l
            &&& t == Token::SquareBOpen ==> is_node(r[0], NodeType::List) && r[0]->Node_children[0] == l
            &&& t == Token::DynamicStart ==> is_node(r[0], NodeType::Dynamic) && r[0]->Node_children[0] == l
            &&& t == Token::InterpolStart ==> is_node(r[0], NodeType::Interpol) && r[0]->Node_children[0]
                == (GreenTree::Node { kind: raw(NodeType::InterpolLiteral), children: seq![l] })
            &&& t.spec_is_value() ==> r == seq![l]
            &&& t == Token::CurlyBOpen ==> is_node(r[0], NodeType::Lambda) || is_node(r[0], NodeType::AttrSet)
            &&& t == Token::Ident ==> r.len() > 0 && (r[0] == l || is_node(r[0], NodeType::Lambda))
            &&& !(t == Token::ParenOpen || t == Token::Rec || t == Token::SquareBOpen || t == Token::DynamicStart
                || t == Token::InterpolStart || t.spec_is_value() || t == Token::CurlyBOpen || t == Token::Ident)
                ==> r == seq![GreenTree::Node { kind: raw(NodeType::Error), children: seq![l] }]
        }),
{
    let t = toks[p].0;
    let r = val_main(toks, p).trees;
    let l = crate::grammar::leaf(toks[p]);
    if t == Token::CurlyBOpen {
        law_brace_lookahead(toks, p);
    }
    if t == Token::InterpolStart {
        assert(r[0]->Node_children[0]->Node_children =~= seq![l]);
    }
    if !(t == Token::ParenOpen || t == Token::Rec || t == Token::SquareBOpen || t == Token::DynamicStart
        || t == Token::InterpolStart || t.spec_is_value() || t == Token::CurlyBOpen || t == Token::Ident) {
        assert(r =~= seq![GreenTree::Node { kind: raw(NodeType::Error), children: seq![l] }]);
    }
    if t.spec_is_value() {
        assert(r =~= seq![l]);
    }
}

/// `-` before an application and `!` before an arithmetic expression each
/// make a `Unary` node whose first child is the operator, after trivia.
pub proof fn law_unary_operators(toks: Seq<(Token, String)>, q: int)
    requires
        0 <= q <= toks.len(),
    ensures
        data_at(toks, q) == Some(Token::Sub) ==> {
            let r = crate::grammar::negate_step(toks, q).trees;
            &&& r.len() == skip_trivia(toks, q).trees.len() + 1
            &&& is_node(r.last(), NodeType::Unary)
            &&& r.last()->Node_children[0] == crate::grammar::leaf(toks[next_data(toks, q)])
        },
        data_at(toks, q) == Some(Token::Invert) ==> {
            let r = crate::grammar::invert_step(toks, q).trees;
            &&& r.len() == skip_trivia(toks, q).trees.len() + 1
            &&& is_node(r.last(), NodeType::Unary)
            &&& r.last()->Node_children[0] == crate::grammar::leaf(toks[next_data(toks, q)])
        },
{
    lemma_skip_to_data(toks, q);
}

/// Once an application has wrapped what came before, further arguments wrap
/// it again: the first tree stays an `Apply` node.
proof fn lemma_apply_loop_keeps_apply(toks: Seq<(Token, String)>, acc: Step)
    requires
        acc.trees.len() > 0,
        is_node(acc.trees[0], NodeType::Apply),
    ensures
        crate::grammar::apply_loop(toks, acc).trees.len() > 0,
        is_node(crate::grammar::apply_loop(toks, acc).trees[0], NodeType::Apply),
    decreases toks.len() - acc.end,
{
    let s = skip_trivia(toks, acc.end);
    let p = s.end;
    lemma_skip_trivia(toks, acc.end);
    match kind_at(toks, p) {
        Some(t) => if t.spec_is_fn_arg() {
            let v = crate::grammar::val_step(toks, p);
            let app = wrap(NodeType::Apply, join(join(acc, s), v));
            if advanced(toks, v, acc.end) {
                lemma_apply_loop_keeps_apply(toks, app);
            }
        },
        None => {},
    }
}

/// A value followed by a token that can start an argument is applied to
/// it: the result is an `Apply` node (and later arguments wrap it in turn).
pub proof fn law_application(toks: Seq<(Token, String)>, q: int)
    requires
        0 <= q,
        q <= crate::grammar::val_step(toks, q).end <= toks.len(),
        data_at(toks, crate::grammar::val_step(toks, q).end) matches Some(t) && t.spec_is_fn_arg(),
    ensures
        crate::grammar::fn_step(toks, q).trees.len() > 0,
        is_node(crate::grammar::fn_step(toks, q).trees[0], NodeType::Apply),
{
    let v = crate::grammar::val_step(toks, q);
    lemma_skip_to_data(toks, v.end);
    let s = skip_trivia(toks, v.end);
    let v2 = crate::grammar::val_step(toks, s.end);
    let app = wrap(NodeType::Apply, join(join(v, s), v2));
    if advanced(toks, v2, v.end) {
        lemma_apply_loop_keeps_apply(toks, app);
    }
}

/// The entries of a set or of a `let`: each `inherit` makes an `Inherit`
/// node and each other token, up to `until`, starts a `SetEntry` node; at
/// `until` only that token is taken, and at the end of the input an early
/// end is recorded.
pub proof fn law_set_entries(toks: Seq<(Token, String)>, q: int, until: Token)
    requires
        0 <= q <= toks.len(),
    ensures
        ({
            let r = set_step(toks, q, until);
            let s = skip_trivia(toks, q);
            let n = s.trees.len() as int;
            &&& data_at(toks, q) == Some(until) ==> r.trees == s.trees.push(
                crate::grammar::leaf(toks[next_data(toks, q)]),
            ) && r.errs.len() == 0
            &&& data_at(toks, q) is None ==> r.trees == s.trees && r.errs == seq![
                crate::ast::ParseError::UnexpectedEOF,
            ]
            &&& data_at(toks, q) == Some(Token::Inherit) && until != Token::Inherit ==> n < r.trees.len()
                && is_node(r.trees[n], NodeType::Inherit)
            &&& (data_at(toks, q) matches Some(t) ==> (t != until && t != Token::Inherit ==> n < r.trees.len()
                && is_node(r.trees[n], NodeType::SetEntry)))
        }),
{
    lemma_skip_to_data(toks, q);
    let r = set_step(toks, q, until);
    let s = skip_trivia(toks, q);
    let n = s.trees.len() as int;
    let p = s.end;
    if data_at(toks, q) is None || data_at(toks, q) == Some(until) {
        assert(r.trees =~= s.trees + crate::grammar::bump_step(toks, p).trees);
        assert(r.errs =~= s.errs + crate::grammar::bump_step(toks, p).errs);
        if data_at(toks, q) is Some {
            assert(r.trees =~= s.trees.push(crate::grammar::leaf(toks[next_data(toks, q)])));
        } else {
            assert(s.errs == Seq::<crate::ast::ParseError>::empty());
            assert(crate::grammar::bump_step(toks, p).errs == seq![crate::ast::ParseError::UnexpectedEOF]);
            assert(r.trees =~= s.trees);
            assert(r.errs =~= seq![crate::ast::ParseError::UnexpectedEOF]);
        }
    } else {
        let t = toks[p].0;
        let e = if t == Token::Inherit {
            crate::grammar::inherit_step(toks, p)
        } else {
            entry_step(toks, p)
        };
        assert(e.trees.len() == 1);
        assert(r.trees[n] == e.trees[0]);
    }
}

/// `expect(e)`: if the next token (past trivia) is `e`, it becomes a leaf
/// and nothing is recorded; at the end of the input an error that wants `e`
/// is recorded; any other token starts an `Error` node.
pub proof fn law_expect(toks: Seq<(Token, String)>, q: int, e: Token)
    requires
        0 <= q <= toks.len(),
    ensures
        ({
            let x = expect_step(toks, q, e);
            let s = skip_trivia(toks, q);
            let n = s.trees.len() as int;
            &&& data_at(toks, q) == Some(e) ==> x.trees == s.trees.push(
                crate::grammar::leaf(toks[next_data(toks, q)]),
            ) && x.errs.len() == 0 && x.end == next_data(toks, q) + 1
            &&& data_at(toks, q) is None ==> x.trees == s.trees && x.errs == seq![
                crate::ast::ParseError::UnexpectedEOFWanted(e),
            ] && x.end == toks.len()
            &&& (data_at(toks, q) matches Some(t) ==> (t != e ==> n < x.trees.len() && is_node(
                x.trees[n],
                NodeType::Error,
            ) && x.trees[n]->Node_children[0] == crate::grammar::leaf(toks[next_data(toks, q)])))
        }),
{
    lemma_skip_to_data(toks, q);
    let x = expect_step(toks, q, e);
    let s = skip_trivia(toks, q);
    let p = s.end;
    if data_at(toks, q) == Some(e) {
        assert(x.trees =~= s.trees.push(crate::grammar::leaf(toks[p])));
        assert(x.errs =~= s.errs);
    } else if data_at(toks, q) is None {
        assert(s.errs == Seq::<crate::ast::ParseError>::empty());
        assert(x == join(s, crate::grammar::fail(p, crate::ast::ParseError::UnexpectedEOFWanted(e))));
        assert(x.trees =~= s.trees);
        assert(x.errs =~= seq![crate::ast::ParseError::UnexpectedEOFWanted(e)]);
    } else {
        let n = s.trees.len() as int;
        let err = wrap(NodeType::Error, join(crate::grammar::bump_step(toks, p), crate::grammar::error_run(toks, p + 1, e)));
        assert(x.trees[n] == err.trees[0]);
    }
}

/// A parenthesized expression is a `Paren` node that holds, after the `(`,
/// the trees that parsing an expression from there gives.
pub proof fn law_parenthesized_expression(toks: Seq<(Token, String)>, p: int)
    requires
        0 <= p < toks.len(),
        toks[p].0 == Token::ParenOpen,
    ensures
        ({
            let r = val_main(toks, p).trees;
            let e = expr_step(toks, p + 1).trees;
            &&& r.len() == 1
            &&& is_node(r[0], NodeType::Paren)
            &&& 1 + e.len() <= r[0]->Node_children.len()
            &&& r[0]->Node_children.subrange(1, (1 + e.len()) as int) == e
        }),
{
    let e = expr_step(toks, p + 1);
    let c = val_main(toks, p).trees[0]->Node_children;
    assert(c == crate::grammar::bump_step(toks, p).trees + (e.trees + crate::grammar::bump_step(toks, e.end).trees));
    assert(c.subrange(1, (1 + e.trees.len()) as int) =~= e.trees);
}

/// `${ e }` as an attribute name is a `Dynamic` node that holds, after the
/// `${` and trivia, the trees that parsing an expression there gives.
pub proof fn law_dynamic_name_is_an_expression(toks: Seq<(Token, String)>, p: int)
    requires
        0 <= p < toks.len(),
        data_at(toks, p + 1) matches Some(t) && t != Token::DynamicEnd,
        advanced(toks, expr_step(toks, next_data(toks, p + 1)), p + 1),
    ensures
        ({
            let r = crate::grammar::dynamic_step(toks, p).trees;
            let lead = skip_trivia(toks, p + 1).trees;
            let e = expr_step(toks, next_data(toks, p + 1)).trees;
            &&& r.len() == 1
            &&& is_node(r[0], NodeType::Dynamic)
            &&& 1 + lead.len() + e.len() <= r[0]->Node_children.len()
            &&& r[0]->Node_children.subrange((1 + lead.len()) as int, (1 + lead.len() + e.len()) as int) == e
        }),
{
    lemma_skip_to_data(toks, p + 1);
    let s = skip_trivia(toks, p + 1);
    let e = expr_step(toks, next_data(toks, p + 1));
    let c = crate::grammar::dynamic_step(toks, p).trees[0]->Node_children;
    assert(c == crate::grammar::bump_step(toks, p).trees + (s.trees + (e.trees + crate::grammar::dynamic_body(
        toks,
        e.end,
    ).trees)));
    let n = (1 + s.trees.len()) as int;
    assert(c.subrange(n, n + e.trees.len()) =~= e.trees);
}

/// A list is a `List` node; an item after `[` (past trivia) is a
/// `ListItem` node that holds the value parsed there.
pub proof fn law_list_items(toks: Seq<(Token, String)>, p: int)
    requires
        0 <= p < toks.len(),
        toks[p].0 == Token::SquareBOpen,
        data_at(toks, p + 1) matches Some(t) && t != Token::SquareBClose,
    ensures
        ({
            let r = val_main(toks, p).trees;
            let n = (1 + skip_trivia(toks, p + 1).trees.len()) as int;
            &&& r.len() == 1
            &&& is_node(r[0], NodeType::List)
            &&& n < r[0]->Node_children.len()
            &&& r[0]->Node_children[n] == (GreenTree::Node {
                kind: raw(NodeType::ListItem),
                children: crate::grammar::val_step(toks, next_data(toks, p + 1)).trees,
            })
        }),
{
    lemma_skip_to_data(toks, p + 1);
    let s = skip_trivia(toks, p + 1);
    let c = val_main(toks, p).trees[0]->Node_children;
    let items = crate::grammar::list_items(toks, p + 1);
    let v = crate::grammar::val_step(toks, next_data(toks, p + 1));
    assert(c == crate::grammar::bump_step(toks, p).trees + items.trees);
    assert(items.trees[s.trees.len() as int] == wrap(NodeType::ListItem, v).trees[0]);
}

/// The separators of `with e; body`, `assert e; body` and
/// `if c then a else b` are leaves of the keyword's node when they follow
/// the expression before them.
pub proof fn law_keyword_separators(toks: Seq<(Token, String)>, q: int)
    requires
        0 <= q <= toks.len(),
        data_at(toks, q) matches Some(k) && (k == Token::With || k == Token::Assert || k == Token::If),
        data_at(toks, expr_step(toks, next_data(toks, q) + 1).end) == Some(
            if data_at(toks, q) == Some(Token::If) {
                Token::Then
            } else {
                Token::Semicolon
            },
        ),
        expr_step(toks, next_data(toks, q) + 1).end <= toks.len(),
        next_data(toks, q) < expr_step(toks, next_data(toks, q) + 1).end,
    ensures
        ({
            let node = expr_step(toks, q).trees.last();
            let sep = next_data(toks, expr_step(toks, next_data(toks, q) + 1).end);
            &&& expr_step(toks, q).trees.len() > 0
            &&& node is Node
            &&& exists|i: int|
                0 <= i < node->Node_children.len() && #[trigger] node->Node_children[i] == crate::grammar::leaf(
                    toks[sep],
                )
        }),
{
    lemma_skip_to_data(toks, q);
    let p = next_data(toks, q);
    let e = expr_step(toks, p + 1);
    let k = data_at(toks, q)->0;
    let sepk = if k == Token::If {
        Token::Then
    } else {
        Token::Semicolon
    };
    law_expect(toks, e.end, sepk);
    let x = expect_step(toks, e.end, sepk);
    let s = skip_trivia(toks, e.end);
    let sep = next_data(toks, e.end);
    let node = expr_step(toks, q).trees.last();
    let b = crate::grammar::bump_step(toks, p);
    let i = (b.trees.len() + e.trees.len() + s.trees.len()) as int;
    assert(x.trees[s.trees.len() as int] == crate::grammar::leaf(toks[sep]));
    if k == Token::If {
        assert(node->Node_children[i] == x.trees[s.trees.len() as int]);
    } else {
        assert(node->Node_children == crate::grammar::clause_step(toks, p, sepk).trees);
        assert(node->Node_children[i] == x.trees[s.trees.len() as int]);
    }
}

/// A selection or default node.
pub open spec fn is_selection(t: GreenTree) -> bool {
    is_node(t, NodeType::IndexSet) || is_node(t, NodeType::OrDefault)
}

/// Once a selection has wrapped the value, further selections and defaults
/// wrap it again: the first tree stays a selection or default node.
proof fn lemma_index_loop_keeps_selection(toks: Seq<(Token, String)>, acc: Step)
    requires
        acc.trees.len() > 0,
        is_selection(acc.trees[0]),
    ensures
        crate::grammar::index_loop(toks, acc).trees.len() > 0,
        is_selection(crate::grammar::index_loop(toks, acc).trees[0]),
    decreases toks.len() - acc.end,
{
    let s = skip_trivia(toks, acc.end);
    let p = s.end;
    lemma_skip_trivia(toks, acc.end);
    if kind_at(toks, p) == Some(Token::Dot) {
        let a = crate::grammar::next_attr_step(toks, p + 1);
        let idx = wrap(NodeType::IndexSet, join(join(join(acc, s), crate::grammar::bump_step(toks, p)), a));
        if advanced(toks, a, acc.end) {
            let s2 = skip_trivia(toks, a.end);
            let p2 = s2.end;
            lemma_skip_trivia(toks, a.end);
            if crate::grammar::is_or(toks, p2) {
                let v = crate::grammar::val_step(toks, p2 + 1);
                let od = wrap(
                    NodeType::OrDefault,
                    join(join(join(idx, s2), crate::grammar::bump_step(toks, p2)), v),
                );
                if advanced(toks, v, acc.end) {
                    lemma_index_loop_keeps_selection(toks, od);
                }
            } else {
                lemma_index_loop_keeps_selection(toks, join(idx, s2));
            }
        }
    }
}

/// A value followed by `.` is selected from: the result is an `IndexSet`
/// node (or an `OrDefault` node around one, when `or` follows), with any
/// further selections wrapping it in turn.
pub proof fn law_selection(toks: Seq<(Token, String)>, q: int)
    requires
        0 <= q <= toks.len(),
        ({
            let main = join(skip_trivia(toks, q), val_main(toks, next_data(toks, q)));
            &&& q <= main.end <= toks.len()
            &&& data_at(toks, main.end) == Some(Token::Dot)
        }),
    ensures
        crate::grammar::val_step(toks, q).trees.len() > 0,
        is_selection(crate::grammar::val_step(toks, q).trees[0]),
{
    lemma_skip_to_data(toks, q);
    let main = join(skip_trivia(toks, q), val_main(toks, next_data(toks, q)));
    lemma_skip_to_data(toks, main.end);
    let s = skip_trivia(toks, main.end);
    let p = s.end;
    let a = crate::grammar::next_attr_step(toks, p + 1);
    let idx = wrap(NodeType::IndexSet, join(join(join(main, s), crate::grammar::bump_step(toks, p)), a));
    assert(is_selection(idx.trees[0]));
    if advanced(toks, a, main.end) {
        let s2 = skip_trivia(toks, a.end);
        let p2 = s2.end;
        lemma_skip_trivia(toks, a.end);
        if crate::grammar::is_or(toks, p2) {
            let v = crate::grammar::val_step(toks, p2 + 1);
            let od = wrap(NodeType::OrDefault, join(join(join(idx, s2), crate::grammar::bump_step(toks, p2)), v));
            assert(is_selection(od.trees[0]));
            if advanced(toks, v, main.end) {
                lemma_index_loop_keeps_selection(toks, od);
            }
        } else {
            lemma_index_loop_keeps_selection(toks, join(idx, s2));
        }
    }
}

} // verus!

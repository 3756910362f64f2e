//! What the parser builds, as functions of the input: for each routine of
//! the parser, a function from a position in the token list to the trees
//! that parsing from there adds, the position where it stops, and the
//! errors it records. The routines of `parser` are proved to do exactly this.

use vstd::prelude::*;
use crate::ast::ParseError;
use crate::green::GreenTree;
use crate::kinds::{NodeType, Types};
use crate::parser::{data_at, next_data};
use crate::token::Token;

verus! {

/// What parsing one construct yields: the trees it adds, in order, the
/// position where it stops, and the errors it records.
#[verifier::ext_equal]
pub struct Step {
    pub trees: Seq<GreenTree>,
    pub end: int,
    pub errs: Seq<ParseError>,
}

/// A token as a leaf of the tree: its kind as stored, and its text.
pub open spec fn leaf(t: (Token, String)) -> GreenTree {
    GreenTree::Token { kind: Types::spec_kind_to_raw(NodeType::Token(t.0)), text: t.1@ }
}

/// Nothing added, nothing consumed.
pub open spec fn stay(pos: int) -> Step {
    Step { trees: Seq::empty(), end: pos, errs: Seq::empty() }
}

/// Nothing added or consumed, and one error recorded.
pub open spec fn fail(pos: int, e: ParseError) -> Step {
    Step { trees: Seq::empty(), end: pos, errs: seq![e] }
}

/// `a`, then `b` from where `a` stopped.
pub open spec fn join(a: Step, b: Step) -> Step {
    Step { trees: a.trees + b.trees, end: b.end, errs: a.errs + b.errs }
}

/// The trees of `s` as the children of one node of the given kind.
pub open spec fn wrap(kind: NodeType, s: Step) -> Step {
    Step {
        trees: seq![GreenTree::Node { kind: Types::spec_kind_to_raw(kind), children: s.trees }],
        end: s.end,
        errs: s.errs,
    }
}

/// The kind of the token at `p`, if there is one.
pub open spec fn kind_at(toks: Seq<(Token, String)>, p: int) -> Option<Token> {
    if 0 <= p < toks.len() {
        Some(toks[p].0)
    } else {
        None
    }
}

/// `s` stopped after `from` and within the input. Every construct that is
/// parsed from a token (not from the end of the input) does; the functions
/// below test it where they go on from such a stop, which keeps their
/// recursion well-founded.
pub open spec fn advanced(toks: Seq<(Token, String)>, s: Step, from: int) -> bool {
    from < s.end <= toks.len()
}

/// The token at `p` as a leaf, or, at the end of the input, an error.
pub open spec fn bump_step(toks: Seq<(Token, String)>, p: int) -> Step {
    if 0 <= p < toks.len() {
        Step { trees: seq![leaf(toks[p])], end: p + 1, errs: Seq::empty() }
    } else {
        fail(p, ParseError::UnexpectedEOF)
    }
}

/// The trivia tokens from `p` on, as leaves.
pub open spec fn skip_trivia(toks: Seq<(Token, String)>, p: int) -> Step
    decreases toks.len() - p,
{
    if 0 <= p < toks.len() && toks[p].0.spec_is_trivia() {
        join(bump_step(toks, p), skip_trivia(toks, p + 1))
    } else {
        stay(p)
    }
}

/// Skipping trivia moves forward, to the next token that is not trivia,
/// and records no error.
pub proof fn lemma_skip_trivia(toks: Seq<(Token, String)>, p: int)
    ensures
        p <= skip_trivia(toks, p).end,
        skip_trivia(toks, p).errs == Seq::<ParseError>::empty(),
        0 <= p <= toks.len() ==> skip_trivia(toks, p).end == next_data(toks, p),
        0 <= p <= toks.len() ==> skip_trivia(toks, p).end <= toks.len(),
    decreases toks.len() - p,
{
    if 0 <= p < toks.len() && toks[p].0.spec_is_trivia() {
        lemma_skip_trivia(toks, p + 1);
    }
}

/// The tokens that `expect` wraps in an `Error` node after the first one:
/// trivia, and tokens other than `expected`, up to `expected` or the end.
pub open spec fn error_run(toks: Seq<(Token, String)>, q: int, expected: Token) -> Step
    decreases toks.len() - q,
{
    let s = skip_trivia(toks, q);
    proof {
        lemma_skip_trivia(toks, q);
    }
    match kind_at(toks, s.end) {
        Some(t) => if t != expected {
            join(s, join(bump_step(toks, s.end), error_run(toks, s.end + 1, expected)))
        } else {
            s
        },
        None => s,
    }
}

/// `expected` after trivia; tokens in the way go into an `Error` node before
/// it, and at the end of the input an error is recorded.
pub open spec fn expect_step(toks: Seq<(Token, String)>, q: int, expected: Token) -> Step {
    let s = skip_trivia(toks, q);
    let p = s.end;
    match kind_at(toks, p) {
        None => join(s, fail(p, ParseError::UnexpectedEOFWanted(expected))),
        Some(t) => if t == expected {
            join(s, bump_step(toks, p))
        } else {
            let e = wrap(NodeType::Error, join(bump_step(toks, p), error_run(toks, p + 1, expected)));
            join(s, join(e, bump_step(toks, e.end)))
        },
    }
}

/// The identifiers of an `inherit`, each after its trivia, and the trivia
/// after them.
pub open spec fn inherit_names(toks: Seq<(Token, String)>, q: int) -> Step
    decreases toks.len() - q,
{
    let s = skip_trivia(toks, q);
    proof {
        lemma_skip_trivia(toks, q);
    }
    if kind_at(toks, s.end) == Some(Token::Ident) {
        join(s, join(bump_step(toks, s.end), inherit_names(toks, s.end + 1)))
    } else {
        s
    }
}

/// All tokens from `p` on, as leaves.
pub open spec fn rest_leaves(toks: Seq<(Token, String)>, p: int) -> Step
    decreases toks.len() - p,
{
    if 0 <= p < toks.len() {
        join(bump_step(toks, p), rest_leaves(toks, p + 1))
    } else {
        stay(p)
    }
}

/// All tokens from `q` on: the trivia from `q`, then all tokens from where
/// the trivia ends.
pub proof fn lemma_rest_leaves(toks: Seq<(Token, String)>, q: int)
    requires
        0 <= q <= toks.len(),
    ensures
        rest_leaves(toks, q) == join(skip_trivia(toks, q), rest_leaves(toks, skip_trivia(toks, q).end)),
    decreases toks.len() - q,
{
    if q < toks.len() && toks[q].0.spec_is_trivia() {
        lemma_rest_leaves(toks, q + 1);
        let b = bump_step(toks, q);
        let s1 = skip_trivia(toks, q + 1);
        let r = rest_leaves(toks, s1.end);
        assert(join(b, join(s1, r)) =~= join(join(b, s1), r));
    } else {
        assert(rest_leaves(toks, q) =~= join(stay(q), rest_leaves(toks, q)));
    }
}

/// The token at `p` is the identifier `or`.
pub open spec fn is_or(toks: Seq<(Token, String)>, p: int) -> bool {
    kind_at(toks, p) == Some(Token::Ident) && toks[p].1@ == seq!['o', 'r']
}

/// Whether the `{` at `p` opens the pattern of a lambda rather than a set,
/// by the two tokens after it that are not trivia.
pub open spec fn pattern_ahead(toks: Seq<(Token, String)>, p: int) -> bool {
    let first = data_at(toks, p + 1);
    let second = if next_data(toks, p + 1) < toks.len() {
        data_at(toks, next_data(toks, p + 1) + 1)
    } else {
        None
    };
    ||| first == Some(Token::Ident) && (second == Some(Token::Comma) || second == Some(Token::Question)
        || second == Some(Token::CurlyBClose))
    ||| first == Some(Token::Ellipsis) && second == Some(Token::CurlyBClose)
    ||| first == Some(Token::CurlyBClose) && (second == Some(Token::Colon) || second == Some(Token::At))
}

/// The operator tokens of each level of binary operations, from the
/// tightest (`?`) to the loosest (`->`).
pub open spec fn level_ops(level: nat) -> Seq<Token> {
    if level == 0 {
        seq![Token::Question]
    } else if level == 1 {
        seq![Token::Concat]
    } else if level == 2 {
        seq![Token::Mul, Token::Div]
    } else if level == 3 {
        seq![Token::Add, Token::Sub]
    } else if level == 4 {
        seq![Token::Merge]
    } else if level == 5 {
        seq![Token::Less, Token::LessOrEq, Token::More, Token::MoreOrEq]
    } else if level == 6 {
        seq![Token::Equal, Token::NotEqual]
    } else if level == 7 {
        seq![Token::And]
    } else if level == 8 {
        seq![Token::Or]
    } else {
        seq![Token::Implication]
    }
}

/// The levels whose operators do not chain: comparisons and equality.
pub open spec fn level_once(level: nat) -> bool {
    level == 5 || level == 6
}

/// `${ expr }` at `p` as an attribute name: a `Dynamic` node.
pub open spec fn dynamic_step(toks: Seq<(Token, String)>, p: int) -> Step
    decreases toks.len() - p, 1int,
{
    if 0 <= p < toks.len() {
        wrap(NodeType::Dynamic, join(bump_step(toks, p), dynamic_body(toks, p + 1)))
    } else {
        stay(p)
    }
}

/// The expressions of a `Dynamic` node up to its closing token, which it
/// takes too.
pub open spec fn dynamic_body(toks: Seq<(Token, String)>, q: int) -> Step
    decreases toks.len() - q, 61int,
{
    let s = skip_trivia(toks, q);
    let p = s.end;
    proof {
        lemma_skip_trivia(toks, q);
    }
    match kind_at(toks, p) {
        Some(t) => if t != Token::DynamicEnd {
            let e = expr_step(toks, p);
            if advanced(toks, e, q) {
                join(s, join(e, dynamic_body(toks, e.end)))
            } else {
                join(s, e)
            }
        } else {
            join(s, bump_step(toks, p))
        },
        None => join(s, bump_step(toks, p)),
    }
}

/// A string with interpolations at `p`: an `Interpol` node whose children
/// alternate `InterpolLiteral` and `InterpolAst` nodes.
pub open spec fn interpol_step(toks: Seq<(Token, String)>, p: int) -> Step
    decreases toks.len() - p, 1int,
{
    if 0 <= p < toks.len() {
        wrap(
            NodeType::Interpol,
            join(wrap(NodeType::InterpolLiteral, bump_step(toks, p)), interpol_parts(toks, p + 1)),
        )
    } else {
        stay(p)
    }
}

/// The parts of an interpolation after its first literal: code, then a
/// literal, and again while the literal continues the string.
pub open spec fn interpol_parts(toks: Seq<(Token, String)>, q: int) -> Step
    decreases toks.len() - q, 62int,
{
    let a = interpol_code(toks, q);
    let p = a.end;
    let code = wrap(NodeType::InterpolAst, a);
    let lit = wrap(NodeType::InterpolLiteral, bump_step(toks, p));
    if kind_at(toks, p) == Some(Token::InterpolEndStart) && q <= p {
        join(code, join(lit, interpol_parts(toks, p + 1)))
    } else {
        join(code, lit)
    }
}

/// The expressions of one code part of an interpolation, up to the token
/// that ends it.
pub open spec fn interpol_code(toks: Seq<(Token, String)>, q: int) -> Step
    decreases toks.len() - q, 61int,
{
    let s = skip_trivia(toks, q);
    let p = s.end;
    proof {
        lemma_skip_trivia(toks, q);
    }
    match kind_at(toks, p) {
        Some(t) => if t == Token::InterpolEnd || t == Token::InterpolEndStart {
            s
        } else {
            let e = expr_step(toks, p);
            if advanced(toks, e, q) {
                join(s, join(e, interpol_code(toks, e.end)))
            } else {
                join(s, e)
            }
        },
        None => s,
    }
}

/// One part of an attribute path: a dynamic name, an interpolation, a
/// string, or an identifier.
pub open spec fn next_attr_step(toks: Seq<(Token, String)>, q: int) -> Step
    decreases toks.len() - q, 2int,
{
    let s = skip_trivia(toks, q);
    let p = s.end;
    proof {
        lemma_skip_trivia(toks, q);
    }
    match kind_at(toks, p) {
        Some(Token::DynamicStart) => join(s, dynamic_step(toks, p)),
        Some(Token::InterpolStart) => join(s, interpol_step(toks, p)),
        Some(Token::String) => join(s, bump_step(toks, p)),
        _ => join(s, expect_step(toks, p, Token::Ident)),
    }
}

/// The parts of an attribute path, joined by dots.
pub open spec fn attr_parts(toks: Seq<(Token, String)>, q: int) -> Step
    decreases toks.len() - q, 3int,
{
    let a = next_attr_step(toks, q);
    let s = skip_trivia(toks, a.end);
    let p = s.end;
    if kind_at(toks, p) == Some(Token::Dot) && q <= p {
        join(a, join(s, join(bump_step(toks, p), attr_parts(toks, p + 1))))
    } else {
        join(a, s)
    }
}

/// An attribute path: an `Attribute` node.
pub open spec fn attr_step(toks: Seq<(Token, String)>, q: int) -> Step
    decreases toks.len() - q, 4int,
{
    wrap(NodeType::Attribute, attr_parts(toks, q))
}

/// The children of a `PatEntry` node at the identifier at `p`: the name,
/// and `? default` if there is one.
pub open spec fn pat_entry(toks: Seq<(Token, String)>, p: int) -> Step
    decreases toks.len() - p, 0int,
{
    let s = skip_trivia(toks, p + 1);
    let p2 = s.end;
    proof {
        lemma_skip_trivia(toks, p + 1);
    }
    if kind_at(toks, p2) == Some(Token::Question) {
        join(bump_step(toks, p), join(s, join(bump_step(toks, p2), expr_step(toks, p2 + 1))))
    } else {
        join(bump_step(toks, p), s)
    }
}

/// The entries of a pattern up to its closing brace.
pub open spec fn pattern_entries(toks: Seq<(Token, String)>, q: int) -> Step
    decreases toks.len() - q, 1int,
{
    let s = skip_trivia(toks, q);
    let p = s.end;
    proof {
        lemma_skip_trivia(toks, q);
    }
    match kind_at(toks, p) {
        None => join(s, fail(p, ParseError::UnexpectedEOFWanted(Token::Ident))),
        Some(t) => if t == Token::CurlyBClose {
            join(s, bump_step(toks, p))
        } else if t == Token::Ellipsis {
            join(s, join(bump_step(toks, p), expect_step(toks, p + 1, Token::CurlyBClose)))
        } else if t == Token::Ident {
            let entry = wrap(NodeType::PatEntry, pat_entry(toks, p));
            let s2 = skip_trivia(toks, entry.end);
            let p2 = s2.end;
            if kind_at(toks, p2) == Some(Token::Comma) && q <= p2 {
                join(s, join(entry, join(s2, join(bump_step(toks, p2), pattern_entries(toks, p2 + 1)))))
            } else {
                join(s, join(entry, join(s2, expect_step(toks, p2, Token::CurlyBClose))))
            }
        } else {
            join(s, join(wrap(NodeType::Error, bump_step(toks, p)), pattern_entries(toks, p + 1)))
        },
    }
}

/// The pattern of a lambda after its `{`, and `@ name` after it if there
/// is one; `bound` says whether the pattern already has a name.
pub open spec fn pattern_step(toks: Seq<(Token, String)>, q: int, bound: bool) -> Step
    decreases toks.len() - q, 2int,
{
    let s = skip_trivia(toks, q);
    let p = s.end;
    proof {
        lemma_skip_trivia(toks, q);
    }
    let body = match kind_at(toks, p) {
        Some(t) => if t == Token::CurlyBClose {
            join(s, bump_step(toks, p))
        } else {
            join(s, pattern_entries(toks, p))
        },
        None => join(s, bump_step(toks, p)),
    };
    let s2 = skip_trivia(toks, body.end);
    let p2 = s2.end;
    if kind_at(toks, p2) == Some(Token::At) {
        let kind = if bound {
            NodeType::Error
        } else {
            NodeType::PatBind
        };
        join(body, join(s2, wrap(kind, join(bump_step(toks, p2), expect_step(toks, p2 + 1, Token::Ident)))))
    } else {
        join(body, s2)
    }
}

/// `inherit` at `p`, with its source in parentheses if there is one, its
/// names and its semicolon: an `Inherit` node.
pub open spec fn inherit_step(toks: Seq<(Token, String)>, p: int) -> Step
    decreases toks.len() - p, 1int,
{
    let s = skip_trivia(toks, p + 1);
    let p2 = s.end;
    proof {
        lemma_skip_trivia(toks, p + 1);
    }
    let from = if kind_at(toks, p2) == Some(Token::ParenOpen) {
        let e = expr_step(toks, p2 + 1);
        join(
            s,
            wrap(
                NodeType::InheritFrom,
                join(bump_step(toks, p2), join(e, expect_step(toks, e.end, Token::ParenClose))),
            ),
        )
    } else {
        s
    };
    let names = inherit_names(toks, from.end);
    wrap(
        NodeType::Inherit,
        join(bump_step(toks, p), join(from, join(names, expect_step(toks, names.end, Token::Semicolon)))),
    )
}

/// `path = value;` at `p`: a `SetEntry` node.
pub open spec fn entry_step(toks: Seq<(Token, String)>, p: int) -> Step
    decreases toks.len() - p, 5int,
{
    let a = attr_step(toks, p);
    let x = expect_step(toks, a.end, Token::Assign);
    let inner = if advanced(toks, x, p) {
        let e = expr_step(toks, x.end);
        join(a, join(x, join(e, expect_step(toks, e.end, Token::Semicolon))))
    } else {
        join(a, x)
    };
    wrap(NodeType::SetEntry, inner)
}

/// The entries of a set or a `let` up to the token `until`, which it takes
/// too (or an error at the end of the input).
pub open spec fn set_step(toks: Seq<(Token, String)>, q: int, until: Token) -> Step
    decreases toks.len() - q, 6int,
{
    let s = skip_trivia(toks, q);
    let p = s.end;
    proof {
        lemma_skip_trivia(toks, q);
    }
    match kind_at(toks, p) {
        None => join(s, bump_step(toks, p)),
        Some(t) => if t == until {
            join(s, bump_step(toks, p))
        } else {
            let e = if t == Token::Inherit {
                inherit_step(toks, p)
            } else {
                entry_step(toks, p)
            };
            if advanced(toks, e, q) {
                join(s, join(e, set_step(toks, e.end, until)))
            } else {
                join(s, e)
            }
        },
    }
}

/// The items of a list up to its closing bracket, which it takes too.
pub open spec fn list_items(toks: Seq<(Token, String)>, q: int) -> Step
    decreases toks.len() - q, 8int,
{
    let s = skip_trivia(toks, q);
    let p = s.end;
    proof {
        lemma_skip_trivia(toks, q);
    }
    match kind_at(toks, p) {
        Some(t) => if t != Token::SquareBClose {
            let v = val_step(toks, p);
            let item = wrap(NodeType::ListItem, v);
            if advanced(toks, v, q) {
                join(s, join(item, list_items(toks, v.end)))
            } else {
                join(s, item)
            }
        } else {
            join(s, bump_step(toks, p))
        },
        None => join(s, bump_step(toks, p)),
    }
}

/// A lambda whose parameter is the identifier at `p`, or a pattern bound
/// to it; else the identifier alone.
pub open spec fn ident_step(toks: Seq<(Token, String)>, p: int) -> Step
    decreases toks.len() - p, 5int,
{
    let b = bump_step(toks, p);
    let s = skip_trivia(toks, p + 1);
    let p2 = s.end;
    proof {
        lemma_skip_trivia(toks, p + 1);
    }
    match kind_at(toks, p2) {
        Some(Token::Colon) => wrap(
            NodeType::Lambda,
            join(b, join(s, join(bump_step(toks, p2), expr_step(toks, p2 + 1)))),
        ),
        Some(Token::At) => {
            let bind = wrap(NodeType::PatBind, join(b, join(s, bump_step(toks, p2))));
            let x = expect_step(toks, p2 + 1, Token::CurlyBOpen);
            let pat = if advanced(toks, x, p) {
                wrap(NodeType::Pattern, join(bind, join(x, pattern_step(toks, x.end, true))))
            } else {
                wrap(NodeType::Pattern, join(bind, x))
            };
            let y = expect_step(toks, pat.end, Token::Colon);
            if advanced(toks, y, p) {
                wrap(NodeType::Lambda, join(pat, join(y, expr_step(toks, y.end))))
            } else {
                wrap(NodeType::Lambda, join(pat, y))
            }
        },
        _ => join(b, s),
    }
}

/// `{` at `p`: the pattern of a lambda and its body, or a set.
pub open spec fn brace_step(toks: Seq<(Token, String)>, p: int) -> Step
    decreases toks.len() - p, 5int,
{
    if !(0 <= p < toks.len()) {
        stay(p)
    } else if pattern_ahead(toks, p) {
        let pat = wrap(NodeType::Pattern, join(bump_step(toks, p), pattern_step(toks, p + 1, false)));
        let x = expect_step(toks, pat.end, Token::Colon);
        if advanced(toks, x, p) {
            wrap(NodeType::Lambda, join(pat, join(x, expr_step(toks, x.end))))
        } else {
            wrap(NodeType::Lambda, join(pat, x))
        }
    } else {
        wrap(NodeType::AttrSet, join(bump_step(toks, p), set_step(toks, p + 1, Token::CurlyBClose)))
    }
}

/// A value that starts with the token at `p`, before any selection.
pub open spec fn val_main(toks: Seq<(Token, String)>, p: int) -> Step
    decreases toks.len() - p, 6int,
{
    match kind_at(toks, p) {
        Some(Token::ParenOpen) => {
            let e = expr_step(toks, p + 1);
            wrap(NodeType::Paren, join(bump_step(toks, p), join(e, bump_step(toks, e.end))))
        },
        Some(Token::Rec) => {
            let x = expect_step(toks, p + 1, Token::CurlyBOpen);
            if advanced(toks, x, p) {
                wrap(NodeType::AttrSet, join(bump_step(toks, p), join(x, set_step(toks, x.end, Token::CurlyBClose))))
            } else {
                wrap(NodeType::AttrSet, join(bump_step(toks, p), x))
            }
        },
        Some(Token::CurlyBOpen) => brace_step(toks, p),
        Some(Token::SquareBOpen) => wrap(NodeType::List, join(bump_step(toks, p), list_items(toks, p + 1))),
        Some(Token::DynamicStart) => dynamic_step(toks, p),
        Some(Token::InterpolStart) => interpol_step(toks, p),
        Some(Token::Ident) => ident_step(toks, p),
        Some(t) => if t.spec_is_value() {
            bump_step(toks, p)
        } else {
            wrap(NodeType::Error, bump_step(toks, p))
        },
        None => wrap(NodeType::Error, bump_step(toks, p)),
    }
}

/// The selections `.attr` and defaults `or value` after a value: each
/// wraps everything before it, `acc`, in an `IndexSet` or `OrDefault` node.
pub open spec fn index_loop(toks: Seq<(Token, String)>, acc: Step) -> Step
    decreases toks.len() - acc.end, 0int,
{
    let s = skip_trivia(toks, acc.end);
    let p = s.end;
    proof {
        lemma_skip_trivia(toks, acc.end);
    }
    if kind_at(toks, p) == Some(Token::Dot) {
        let a = next_attr_step(toks, p + 1);
        let idx = wrap(NodeType::IndexSet, join(join(join(acc, s), bump_step(toks, p)), a));
        if advanced(toks, a, acc.end) {
            let s2 = skip_trivia(toks, a.end);
            let p2 = s2.end;
            proof {
                lemma_skip_trivia(toks, a.end);
            }
            if is_or(toks, p2) {
                let v = val_step(toks, p2 + 1);
                let od = wrap(NodeType::OrDefault, join(join(join(idx, s2), bump_step(toks, p2)), v));
                if advanced(toks, v, acc.end) {
                    index_loop(toks, od)
                } else {
                    od
                }
            } else {
                index_loop(toks, join(idx, s2))
            }
        } else {
            idx
        }
    } else {
        join(acc, s)
    }
}

/// A value, with its selections and defaults.
pub open spec fn val_step(toks: Seq<(Token, String)>, q: int) -> Step
    decreases toks.len() - q, 7int,
{
    let s = skip_trivia(toks, q);
    let p = s.end;
    proof {
        lemma_skip_trivia(toks, q);
    }
    let main = join(s, val_main(toks, p));
    if q <= main.end <= toks.len() {
        index_loop(toks, main)
    } else {
        main
    }
}

/// The arguments after a function value: each application wraps everything
/// before it, `acc`, and the argument in an `Apply` node.
pub open spec fn apply_loop(toks: Seq<(Token, String)>, acc: Step) -> Step
    decreases toks.len() - acc.end, 8int,
{
    let s = skip_trivia(toks, acc.end);
    let p = s.end;
    proof {
        lemma_skip_trivia(toks, acc.end);
    }
    match kind_at(toks, p) {
        Some(t) => if t.spec_is_fn_arg() {
            let v = val_step(toks, p);
            let app = wrap(NodeType::Apply, join(join(acc, s), v));
            if advanced(toks, v, acc.end) {
                apply_loop(toks, app)
            } else {
                app
            }
        } else {
            join(acc, s)
        },
        None => join(acc, s),
    }
}

/// A value applied to any arguments after it.
pub open spec fn fn_step(toks: Seq<(Token, String)>, q: int) -> Step
    decreases toks.len() - q, 9int,
{
    let v = val_step(toks, q);
    if q <= v.end <= toks.len() {
        apply_loop(toks, v)
    } else {
        v
    }
}

/// Any number of `-` before an application, each making a `Unary` node.
pub open spec fn negate_step(toks: Seq<(Token, String)>, q: int) -> Step
    decreases toks.len() - q, 10int,
{
    let s = skip_trivia(toks, q);
    let p = s.end;
    proof {
        lemma_skip_trivia(toks, q);
    }
    if kind_at(toks, p) == Some(Token::Sub) {
        join(s, wrap(NodeType::Unary, join(bump_step(toks, p), negate_step(toks, p + 1))))
    } else {
        join(s, fn_step(toks, p))
    }
}

/// Any number of `!` before an arithmetic expression, each making a
/// `Unary` node.
pub open spec fn invert_step(toks: Seq<(Token, String)>, q: int) -> Step
    decreases toks.len() - q, 33int,
{
    let s = skip_trivia(toks, q);
    let p = s.end;
    proof {
        lemma_skip_trivia(toks, q);
    }
    if kind_at(toks, p) == Some(Token::Invert) {
        join(s, wrap(NodeType::Unary, join(bump_step(toks, p), invert_step(toks, p + 1))))
    } else {
        join(s, binary_step(toks, 3, p))
    }
}

/// An operand of the binary operations at `level`: an expression of the
/// next tighter level.
pub open spec fn operand_step(toks: Seq<(Token, String)>, level: nat, q: int) -> Step
    decreases toks.len() - q, 4 * level + 19,
{
    if level == 0 {
        negate_step(toks, q)
    } else if level == 4 {
        invert_step(toks, q)
    } else {
        binary_step(toks, (level - 1) as nat, q)
    }
}

/// The operations after a first operand `acc`: each wraps everything before
/// it, its operator and its right operand in an `Operation` node; at the
/// levels that do not chain, there is at most one.
pub open spec fn op_loop(toks: Seq<(Token, String)>, level: nat, acc: Step) -> Step
    decreases toks.len() - acc.end, 0int,
{
    let s = skip_trivia(toks, acc.end);
    let p = s.end;
    proof {
        lemma_skip_trivia(toks, acc.end);
    }
    match kind_at(toks, p) {
        Some(t) => if level_ops(level).contains(t) {
            let o = operand_step(toks, level, p + 1);
            let node = wrap(NodeType::Operation, join(join(join(acc, s), bump_step(toks, p)), o));
            if level_once(level) || !advanced(toks, o, acc.end) {
                node
            } else {
                op_loop(toks, level, node)
            }
        } else {
            join(acc, s)
        },
        None => join(acc, s),
    }
}

/// The binary operations at `level`, left-associative.
pub open spec fn binary_step(toks: Seq<(Token, String)>, level: nat, q: int) -> Step
    decreases toks.len() - q, 4 * level + 20,
{
    let first = operand_step(toks, level, q);
    if q <= first.end <= toks.len() {
        op_loop(toks, level, first)
    } else {
        first
    }
}

/// An expression: `let`, `with`, `if` and `assert` each make a node of their
/// own, anything else is a chain of binary operations.
pub open spec fn expr_step(toks: Seq<(Token, String)>, q: int) -> Step
    decreases toks.len() - q, 60int,
{
    let s = skip_trivia(toks, q);
    let p = s.end;
    proof {
        lemma_skip_trivia(toks, q);
        lemma_skip_trivia(toks, p + 1);
    }
    match kind_at(toks, p) {
        Some(Token::Let) => {
            let b = bump_step(toks, p);
            let s2 = skip_trivia(toks, p + 1);
            let p2 = s2.end;
            if kind_at(toks, p2) == Some(Token::CurlyBOpen) {
                join(
                    s,
                    wrap(
                        NodeType::Let,
                        join(b, join(s2, join(bump_step(toks, p2), set_step(toks, p2 + 1, Token::CurlyBClose)))),
                    ),
                )
            } else {
                let st = set_step(toks, p2, Token::In);
                if advanced(toks, st, q) {
                    join(s, wrap(NodeType::LetIn, join(b, join(s2, join(st, expr_step(toks, st.end))))))
                } else {
                    join(s, wrap(NodeType::LetIn, join(b, join(s2, st))))
                }
            }
        },
        Some(Token::With) => join(s, wrap(NodeType::With, clause_step(toks, p, Token::Semicolon))),
        Some(Token::Assert) => join(s, wrap(NodeType::Assert, clause_step(toks, p, Token::Semicolon))),
        Some(Token::If) => {
            let c = expr_step(toks, p + 1);
            let x = expect_step(toks, c.end, Token::Then);
            let body = if advanced(toks, x, q) {
                let t = expr_step(toks, x.end);
                let y = expect_step(toks, t.end, Token::Else);
                if advanced(toks, y, q) {
                    join(c, join(x, join(t, join(y, expr_step(toks, y.end)))))
                } else {
                    join(c, join(x, join(t, y)))
                }
            } else {
                join(c, x)
            };
            join(s, wrap(NodeType::IfElse, join(bump_step(toks, p), body)))
        },
        _ => join(s, binary_step(toks, 9, p)),
    }
}

/// The keyword at `p`, an expression, `sep`, and another expression: the
/// body of `with` and of `assert`.
pub open spec fn clause_step(toks: Seq<(Token, String)>, p: int, sep: Token) -> Step
    decreases toks.len() - p, 0int,
{
    if 0 <= p < toks.len() {
        let e = expr_step(toks, p + 1);
        let x = expect_step(toks, e.end, sep);
        if advanced(toks, x, p) {
            join(bump_step(toks, p), join(e, join(x, expr_step(toks, x.end))))
        } else {
            join(bump_step(toks, p), join(e, x))
        }
    } else {
        stay(p)
    }
}

/// The children of the root: one expression, then, if input is left over,
/// an `Error` node that holds the rest.
pub open spec fn root_step(toks: Seq<(Token, String)>) -> Step {
    let e = expr_step(toks, 0);
    let s = skip_trivia(toks, e.end);
    if kind_at(toks, s.end) is Some {
        join(e, join(s, wrap(NodeType::Error, rest_leaves(toks, s.end))))
    } else {
        join(e, s)
    }
}

} // verus!

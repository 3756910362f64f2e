//! The kinds of nodes in a syntax tree, and how they are stored in one.

use vstd::prelude::*;
use crate::token::Token;

verus! {

/// The type of a node in the AST
#[derive(Clone, Copy, Debug, PartialEq, Eq, PartialOrd, Ord, Hash, Structural)]
pub enum NodeType {
    Apply,
    Assert,
    Attribute,
    Dynamic,
    Error,
    IfElse,
    IndexSet,
    Inherit,
    InheritFrom,
    Interpol,
    InterpolAst,
    InterpolLiteral,
    Lambda,
    Let,
    LetIn,
    List,
    ListItem,
    Operation,
    OrDefault,
    Paren,
    PatBind,
    PatEntry,
    Pattern,
    Root,
    AttrSet,
    SetEntry,
    Token(Token),
    Unary,
    With,
}

impl NodeType {
    pub open spec fn spec_is_trivia(self) -> bool {
        match self {
            NodeType::Token(t) => t.spec_is_trivia(),
            _ => false,
        }
    }

    /// Returns true if this token is trivia, see `Token::is_trivia`
    #[verifier::when_used_as_spec(spec_is_trivia)]
    pub fn is_trivia(self) -> (b: bool)
        ensures
            b == self.spec_is_trivia(),
    {
        match self {
            NodeType::Token(t) => t.is_trivia(),
            _ => false,
        }
    }
}

impl From<Token> for NodeType {
    fn from(kind: Token) -> (n: NodeType) {
        NodeType::Token(kind)
    }
}

impl vstd::std_specs::convert::FromSpecImpl<Token> for NodeType {
    open spec fn obeys_from_spec() -> bool {
        true
    }

    open spec fn from_spec(kind: Token) -> NodeType {
        NodeType::Token(kind)
    }
}

/// The first raw kind that stands for a token; the kinds of inner nodes lie below it.
pub const TOKEN_KIND_BASE: u16 = 256;

/// Teaches the tree library about rnix' preferred types: a syntax tree stores
/// each kind as a raw `u16`, and `Types` converts between the two.
#[derive(Debug)]
pub struct Types;

impl Types {
    /// The raw number under which a kind is stored in a tree.
    pub open spec fn spec_kind_to_raw(kind: NodeType) -> u16 {
        match kind {
            NodeType::Apply => 0,
            NodeType::Assert => 1,
            NodeType::Attribute => 2,
            NodeType::Dynamic => 3,
            NodeType::Error => 4,
            NodeType::IfElse => 5,
            NodeType::IndexSet => 6,
            NodeType::Inherit => 7,
            NodeType::InheritFrom => 8,
            NodeType::Interpol => 9,
            NodeType::InterpolAst => 10,
            NodeType::InterpolLiteral => 11,
            NodeType::Lambda => 12,
            NodeType::Let => 13,
            NodeType::LetIn => 14,
            NodeType::List => 15,
            NodeType::ListItem => 16,
            NodeType::Operation => 17,
            NodeType::OrDefault => 18,
            NodeType::Paren => 19,
            NodeType::PatBind => 20,
            NodeType::PatEntry => 21,
            NodeType::Pattern => 22,
            NodeType::Root => 23,
            NodeType::AttrSet => 24,
            NodeType::SetEntry => 25,
            NodeType::Unary => 26,
            NodeType::With => 27,
            NodeType::Token(t) => (TOKEN_KIND_BASE + t.spec_index()) as u16,
        }
    }

    /// The kind stored under a raw number, if the number stands for one.
    pub open spec fn spec_kind_from_raw(raw: u16) -> Option<NodeType> {
        if raw >= TOKEN_KIND_BASE {
            match Token::spec_from_index((raw - TOKEN_KIND_BASE) as u16) {
                Some(t) => Some(NodeType::Token(t)),
                None => None,
            }
        }
        else if raw == 0 {
            Some(NodeType::Apply)
        }
        else if raw == 1 {
            Some(NodeType::Assert)
        }
        else if raw == 2 {
            Some(NodeType::Attribute)
        }
        else if raw == 3 {
            Some(NodeType::Dynamic)
        }
        else if raw == 4 {
            Some(NodeType::Error)
        }
        else if raw == 5 {
            Some(NodeType::IfElse)
        }
        else if raw == 6 {
            Some(NodeType::IndexSet)
        }
        else if raw == 7 {
            Some(NodeType::Inherit)
        }
        else if raw == 8 {
            Some(NodeType::InheritFrom)
        }
        else if raw == 9 {
            Some(NodeType::Interpol)
        }
        else if raw == 10 {
            Some(NodeType::InterpolAst)
        }
        else if raw == 11 {
            Some(NodeType::InterpolLiteral)
        }
        else if raw == 12 {
            Some(NodeType::Lambda)
        }
        else if raw == 13 {
            Some(NodeType::Let)
        }
        else if raw == 14 {
            Some(NodeType::LetIn)
        }
        else if raw == 15 {
            Some(NodeType::List)
        }
        else if raw == 16 {
            Some(NodeType::ListItem)
        }
        else if raw == 17 {
            Some(NodeType::Operation)
        }
        else if raw == 18 {
            Some(NodeType::OrDefault)
        }
        else if raw == 19 {
            Some(NodeType::Paren)
        }
        else if raw == 20 {
            Some(NodeType::PatBind)
        }
        else if raw == 21 {
            Some(NodeType::PatEntry)
        }
        else if raw == 22 {
            Some(NodeType::Pattern)
        }
        else if raw == 23 {
            Some(NodeType::Root)
        }
        else if raw == 24 {
            Some(NodeType::AttrSet)
        }
        else if raw == 25 {
            Some(NodeType::SetEntry)
        }
        else if raw == 26 {
            Some(NodeType::Unary)
        }
        else if raw == 27 {
            Some(NodeType::With)
        }
        else {
            None
        }
    }

    /// Convert a kind to the raw number that a tree stores
    pub fn kind_to_raw(kind: NodeType) -> (raw: u16)
        ensures
            raw == Types::spec_kind_to_raw(kind),
    {
        match kind {
            NodeType::Apply => 0,
            NodeType::Assert => 1,
            NodeType::Attribute => 2,
            NodeType::Dynamic => 3,
            NodeType::Error => 4,
            NodeType::IfElse => 5,
            NodeType::IndexSet => 6,
            NodeType::Inherit => 7,
            NodeType::InheritFrom => 8,
            NodeType::Interpol => 9,
            NodeType::InterpolAst => 10,
            NodeType::InterpolLiteral => 11,
            NodeType::Lambda => 12,
            NodeType::Let => 13,
            NodeType::LetIn => 14,
            NodeType::List => 15,
            NodeType::ListItem => 16,
            NodeType::Operation => 17,
            NodeType::OrDefault => 18,
            NodeType::Paren => 19,
            NodeType::PatBind => 20,
            NodeType::PatEntry => 21,
            NodeType::Pattern => 22,
            NodeType::Root => 23,
            NodeType::AttrSet => 24,
            NodeType::SetEntry => 25,
            NodeType::Unary => 26,
            NodeType::With => 27,
            NodeType::Token(t) => TOKEN_KIND_BASE + t.index(),
        }
    }

    /// Convert a raw number back to the kind it stands for, if any
    pub fn kind_from_raw(raw: u16) -> (kind: Option<NodeType>)
        ensures
            kind == Types::spec_kind_from_raw(raw),
    {
        if raw >= TOKEN_KIND_BASE {
            match Token::from_index(raw - TOKEN_KIND_BASE) {
                Some(t) => Some(NodeType::Token(t)),
                None => None,
            }
        } else {
            match raw {
                0 => Some(NodeType::Apply),
                1 => Some(NodeType::Assert),
                2 => Some(NodeType::Attribute),
                3 => Some(NodeType::Dynamic),
                4 => Some(NodeType::Error),
                5 => Some(NodeType::IfElse),
                6 => Some(NodeType::IndexSet),
                7 => Some(NodeType::Inherit),
                8 => Some(NodeType::InheritFrom),
                9 => Some(NodeType::Interpol),
                10 => Some(NodeType::InterpolAst),
                11 => Some(NodeType::InterpolLiteral),
                12 => Some(NodeType::Lambda),
                13 => Some(NodeType::Let),
                14 => Some(NodeType::LetIn),
                15 => Some(NodeType::List),
                16 => Some(NodeType::ListItem),
                17 => Some(NodeType::Operation),
                18 => Some(NodeType::OrDefault),
                19 => Some(NodeType::Paren),
                20 => Some(NodeType::PatBind),
                21 => Some(NodeType::PatEntry),
                22 => Some(NodeType::Pattern),
                23 => Some(NodeType::Root),
                24 => Some(NodeType::AttrSet),
                25 => Some(NodeType::SetEntry),
                26 => Some(NodeType::Unary),
                27 => Some(NodeType::With),
                _ => None,
            }
        }
    }
}

/// Every kind is read back from the raw number it is stored under.
pub proof fn lemma_kind_raw_roundtrip(kind: NodeType)
    ensures
        Types::spec_kind_from_raw(Types::spec_kind_to_raw(kind)) == Some(kind),
{
    if let NodeType::Token(t) = kind {
        crate::token::lemma_token_index_roundtrip(t);
        assert((Types::spec_kind_to_raw(kind) - TOKEN_KIND_BASE) as u16 == t.spec_index());
    }
}

/// Two kinds stored under the same raw number are the same kind.
pub proof fn lemma_kind_raw_injective(a: NodeType, b: NodeType)
    ensures
        Types::spec_kind_to_raw(a) == Types::spec_kind_to_raw(b) ==> a == b,
{
    lemma_kind_raw_roundtrip(a);
    lemma_kind_raw_roundtrip(b);
}

/// A raw number that stands for a kind is the number that kind is stored under.
pub proof fn lemma_kind_from_raw_inverse(raw: u16)
    ensures
        Types::spec_kind_from_raw(raw) matches Some(kind) ==> Types::spec_kind_to_raw(kind) == raw,
{
    if raw >= TOKEN_KIND_BASE {
        crate::token::lemma_token_from_index_some((raw - TOKEN_KIND_BASE) as u16);
    }
}

} // verus!

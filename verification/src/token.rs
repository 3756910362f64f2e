//! The tokens that the parser consumes, as the tokenizer hands them over.

use vstd::prelude::*;

verus! {

/// A lexical token of the Nix language
#[derive(Clone, Copy, Debug, PartialEq, Eq, PartialOrd, Ord, Hash, Structural)]
pub enum Token {
    // Internals
    Comment,
    Error,
    Whitespace,

    // Keywords
    Assert,
    Else,
    If,
    In,
    Inherit,
    Let,
    Rec,
    Then,
    With,

    // Symbols
    CurlyBOpen,
    CurlyBClose,
    SquareBOpen,
    SquareBClose,
    Assign,
    At,
    Colon,
    Comma,
    Dot,
    Ellipsis,
    Question,
    Semicolon,

    // Operators
    ParenOpen,
    ParenClose,
    Concat,
    Invert,
    Merge,

    Add,
    Sub,
    Mul,
    Div,

    And,
    Equal,
    Implication,
    Less,
    LessOrEq,
    More,
    MoreOrEq,
    NotEqual,
    Or,

    // Identifiers and values
    DynamicEnd,
    DynamicStart,
    Float,
    Ident,
    Integer,
    InterpolEnd,
    InterpolEndStart,
    InterpolStart,
    Path,
    String,
}

impl Token {
    /// Comments, whitespace and unrecognised characters: tokens the parser
    /// skips over while deciding what comes next.
    pub open spec fn spec_is_trivia(self) -> bool {
        matches!(self, Token::Comment | Token::Error | Token::Whitespace)
    }

    /// Literal values: floats, integers, paths and strings.
    pub open spec fn spec_is_value(self) -> bool {
        matches!(self, Token::Float | Token::Integer | Token::Path | Token::String)
    }

    /// Tokens that may start a function argument, as in `f 1 { } [ ] x`.
    pub open spec fn spec_is_fn_arg(self) -> bool {
        matches!(self, Token::Rec | Token::CurlyBOpen | Token::SquareBOpen | Token::ParenOpen
            | Token::Ident | Token::InterpolStart) || self.spec_is_value()
    }

    /// Returns true if this token is a comment, whitespace, or similar, and
    /// should be skipped over by the parser.
    #[verifier::when_used_as_spec(spec_is_trivia)]
    pub fn is_trivia(self) -> (b: bool)
        ensures
            b == self.spec_is_trivia(),
    {
        match self {
            Token::Comment | Token::Error | Token::Whitespace => true,
            _ => false,
        }
    }

    /// Returns true if this token is a value, such as an integer or a string
    #[verifier::when_used_as_spec(spec_is_value)]
    pub fn is_value(self) -> (b: bool)
        ensures
            b == self.spec_is_value(),
    {
        match self {
            Token::Float | Token::Integer | Token::Path | Token::String => true,
            _ => false,
        }
    }

    /// Returns true if this token should be used as a function argument.
    #[verifier::when_used_as_spec(spec_is_fn_arg)]
    pub fn is_fn_arg(self) -> (b: bool)
        ensures
            b == self.spec_is_fn_arg(),
    {
        match self {
            Token::Rec | Token::CurlyBOpen | Token::SquareBOpen | Token::ParenOpen | Token::Ident
            | Token::InterpolStart => true,
            _ => self.is_value(),
        }
    }

    /// The position of this token in the declaration of `Token`.
    pub open spec fn spec_index(self) -> u16 {
        match self {
            Token::Comment => 0,
            Token::Error => 1,
            Token::Whitespace => 2,
            Token::Assert => 3,
            Token::Else => 4,
            Token::If => 5,
            Token::In => 6,
            Token::Inherit => 7,
            Token::Let => 8,
            Token::Rec => 9,
            Token::Then => 10,
            Token::With => 11,
            Token::CurlyBOpen => 12,
            Token::CurlyBClose => 13,
            Token::SquareBOpen => 14,
            Token::SquareBClose => 15,
            Token::Assign => 16,
            Token::At => 17,
            Token::Colon => 18,
            Token::Comma => 19,
            Token::Dot => 20,
            Token::Ellipsis => 21,
            Token::Question => 22,
            Token::Semicolon => 23,
            Token::ParenOpen => 24,
            Token::ParenClose => 25,
            Token::Concat => 26,
            Token::Invert => 27,
            Token::Merge => 28,
            Token::Add => 29,
            Token::Sub => 30,
            Token::Mul => 31,
            Token::Div => 32,
            Token::And => 33,
            Token::Equal => 34,
            Token::Implication => 35,
            Token::Less => 36,
            Token::LessOrEq => 37,
            Token::More => 38,
            Token::MoreOrEq => 39,
            Token::NotEqual => 40,
            Token::Or => 41,
            Token::DynamicEnd => 42,
            Token::DynamicStart => 43,
            Token::Float => 44,
            Token::Ident => 45,
            Token::Integer => 46,
            Token::InterpolEnd => 47,
            Token::InterpolEndStart => 48,
            Token::InterpolStart => 49,
            Token::Path => 50,
            Token::String => 51,
        }
    }

    /// The token declared at a position, if any.
    pub open spec fn spec_from_index(i: u16) -> Option<Token> {
        if i == 0 {
            Some(Token::Comment)
        } else if i == 1 {
            Some(Token::Error)
        } else if i == 2 {
            Some(Token::Whitespace)
        } else if i == 3 {
            Some(Token::Assert)
        } else if i == 4 {
            Some(Token::Else)
        } else if i == 5 {
            Some(Token::If)
        } else if i == 6 {
            Some(Token::In)
        } else if i == 7 {
            Some(Token::Inherit)
        } else if i == 8 {
            Some(Token::Let)
        } else if i == 9 {
            Some(Token::Rec)
        } else if i == 10 {
            Some(Token::Then)
        } else if i == 11 {
            Some(Token::With)
        } else if i == 12 {
            Some(Token::CurlyBOpen)
        } else if i == 13 {
            Some(Token::CurlyBClose)
        } else if i == 14 {
            Some(Token::SquareBOpen)
        } else if i == 15 {
            Some(Token::SquareBClose)
        } else if i == 16 {
            Some(Token::Assign)
        } else if i == 17 {
            Some(Token::At)
        } else if i == 18 {
            Some(Token::Colon)
        } else if i == 19 {
            Some(Token::Comma)
        } else if i == 20 {
            Some(Token::Dot)
        } else if i == 21 {
            Some(Token::Ellipsis)
        } else if i == 22 {
            Some(Token::Question)
        } else if i == 23 {
            Some(Token::Semicolon)
        } else if i == 24 {
            Some(Token::ParenOpen)
        } else if i == 25 {
            Some(Token::ParenClose)
        } else if i == 26 {
            Some(Token::Concat)
        } else if i == 27 {
            Some(Token::Invert)
        } else if i == 28 {
            Some(Token::Merge)
        } else if i == 29 {
            Some(Token::Add)
        } else if i == 30 {
            Some(Token::Sub)
        } else if i == 31 {
            Some(Token::Mul)
        } else if i == 32 {
            Some(Token::Div)
        } else if i == 33 {
            Some(Token::And)
        } else if i == 34 {
            Some(Token::Equal)
        } else if i == 35 {
            Some(Token::Implication)
        } else if i == 36 {
            Some(Token::Less)
        } else if i == 37 {
            Some(Token::LessOrEq)
        } else if i == 38 {
            Some(Token::More)
        } else if i == 39 {
            Some(Token::MoreOrEq)
        } else if i == 40 {
            Some(Token::NotEqual)
        } else if i == 41 {
            Some(Token::Or)
        } else if i == 42 {
            Some(Token::DynamicEnd)
        } else if i == 43 {
            Some(Token::DynamicStart)
        } else if i == 44 {
            Some(Token::Float)
        } else if i == 45 {
            Some(Token::Ident)
        } else if i == 46 {
            Some(Token::Integer)
        } else if i == 47 {
            Some(Token::InterpolEnd)
        } else if i == 48 {
            Some(Token::InterpolEndStart)
        } else if i == 49 {
            Some(Token::InterpolStart)
        } else if i == 50 {
            Some(Token::Path)
        } else if i == 51 {
            Some(Token::String)
        } else {
            None
        }
    }

    /// The position of this token in the declaration of `Token`.
    #[verifier::when_used_as_spec(spec_index)]
    pub fn index(self) -> (i: u16)
        ensures
            i == self.spec_index(),
            i < 52,
    {
        match self {
            Token::Comment => 0,
            Token::Error => 1,
            Token::Whitespace => 2,
            Token::Assert => 3,
            Token::Else => 4,
            Token::If => 5,
            Token::In => 6,
            Token::Inherit => 7,
            Token::Let => 8,
            Token::Rec => 9,
            Token::Then => 10,
            Token::With => 11,
            Token::CurlyBOpen => 12,
            Token::CurlyBClose => 13,
            Token::SquareBOpen => 14,
            Token::SquareBClose => 15,
            Token::Assign => 16,
            Token::At => 17,
            Token::Colon => 18,
            Token::Comma => 19,
            Token::Dot => 20,
            Token::Ellipsis => 21,
            Token::Question => 22,
            Token::Semicolon => 23,
            Token::ParenOpen => 24,
            Token::ParenClose => 25,
            Token::Concat => 26,
            Token::Invert => 27,
            Token::Merge => 28,
            Token::Add => 29,
            Token::Sub => 30,
            Token::Mul => 31,
            Token::Div => 32,
            Token::And => 33,
            Token::Equal => 34,
            Token::Implication => 35,
            Token::Less => 36,
            Token::LessOrEq => 37,
            Token::More => 38,
            Token::MoreOrEq => 39,
            Token::NotEqual => 40,
            Token::Or => 41,
            Token::DynamicEnd => 42,
            Token::DynamicStart => 43,
            Token::Float => 44,
            Token::Ident => 45,
            Token::Integer => 46,
            Token::InterpolEnd => 47,
            Token::InterpolEndStart => 48,
            Token::InterpolStart => 49,
            Token::Path => 50,
            Token::String => 51,
        }
    }

    /// The token declared at position `i`, or `None` past the last one.
    pub fn from_index(i: u16) -> (t: Option<Token>)
        ensures
            t == Token::spec_from_index(i),
    {
        match i {
            0 => Some(Token::Comment),
            1 => Some(Token::Error),
            2 => Some(Token::Whitespace),
            3 => Some(Token::Assert),
            4 => Some(Token::Else),
            5 => Some(Token::If),
            6 => Some(Token::In),
            7 => Some(Token::Inherit),
            8 => Some(Token::Let),
            9 => Some(Token::Rec),
            10 => Some(Token::Then),
            11 => Some(Token::With),
            12 => Some(Token::CurlyBOpen),
            13 => Some(Token::CurlyBClose),
            14 => Some(Token::SquareBOpen),
            15 => Some(Token::SquareBClose),
            16 => Some(Token::Assign),
            17 => Some(Token::At),
            18 => Some(Token::Colon),
            19 => Some(Token::Comma),
            20 => Some(Token::Dot),
            21 => Some(Token::Ellipsis),
            22 => Some(Token::Question),
            23 => Some(Token::Semicolon),
            24 => Some(Token::ParenOpen),
            25 => Some(Token::ParenClose),
            26 => Some(Token::Concat),
            27 => Some(Token::Invert),
            28 => Some(Token::Merge),
            29 => Some(Token::Add),
            30 => Some(Token::Sub),
            31 => Some(Token::Mul),
            32 => Some(Token::Div),
            33 => Some(Token::And),
            34 => Some(Token::Equal),
            35 => Some(Token::Implication),
            36 => Some(Token::Less),
            37 => Some(Token::LessOrEq),
            38 => Some(Token::More),
            39 => Some(Token::MoreOrEq),
            40 => Some(Token::NotEqual),
            41 => Some(Token::Or),
            42 => Some(Token::DynamicEnd),
            43 => Some(Token::DynamicStart),
            44 => Some(Token::Float),
            45 => Some(Token::Ident),
            46 => Some(Token::Integer),
            47 => Some(Token::InterpolEnd),
            48 => Some(Token::InterpolEndStart),
            49 => Some(Token::InterpolStart),
            50 => Some(Token::Path),
            51 => Some(Token::String),
            _ => None,
        }
    }
}

/// Reading a token back from its position gives the token.
pub proof fn lemma_token_index_roundtrip(t: Token)
    ensures
        Token::spec_from_index(t.spec_index()) == Some(t),
        t.spec_index() < 52,
{
}

/// Only positions below the number of tokens name a token.
pub proof fn lemma_token_from_index_some(i: u16)
    ensures
        Token::spec_from_index(i) is Some <==> i < 52,
        Token::spec_from_index(i) matches Some(t) ==> t.spec_index() == i,
{
}

} // verus!

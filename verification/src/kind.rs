//! Kind tags of syntax elements.

use vstd::prelude::*;

verus! {

/// The category of a syntax element. Tokens are the leaves of the tree and
/// carry text; nodes group other elements.
#[derive(Clone, Copy, Debug, PartialEq, Eq, Structural, Hash)]
pub enum SyntaxKind {
    Whitespace,
    Newline,
    Comment,
    Ident,
    Period,
    Comma,
    Eq,
    String,
    MultiLineString,
    StringLiteral,
    MultiLineStringLiteral,
    Integer,
    IntegerHex,
    IntegerOct,
    IntegerBin,
    Float,
    Bool,
    Date,
    BracketStart,
    BracketEnd,
    BraceStart,
    BraceEnd,
    Error,
    Key,
    Value,
    TableHeader,
    TableArrayHeader,
    Entry,
    Array,
    InlineTable,
    Root,
}

/// Number of kind tags; raw codes run from zero up to, not including, it.
pub const KIND_COUNT: u16 = 31;

impl SyntaxKind {
    /// The raw code of a kind: its position in the declaration order.
    pub open spec fn spec_code(self) -> u16 {
        match self {
            SyntaxKind::Whitespace => 0,
            SyntaxKind::Newline => 1,
            SyntaxKind::Comment => 2,
            SyntaxKind::Ident => 3,
            SyntaxKind::Period => 4,
            SyntaxKind::Comma => 5,
            SyntaxKind::Eq => 6,
            SyntaxKind::String => 7,
            SyntaxKind::MultiLineString => 8,
            SyntaxKind::StringLiteral => 9,
            SyntaxKind::MultiLineStringLiteral => 10,
            SyntaxKind::Integer => 11,
            SyntaxKind::IntegerHex => 12,
            SyntaxKind::IntegerOct => 13,
            SyntaxKind::IntegerBin => 14,
            SyntaxKind::Float => 15,
            SyntaxKind::Bool => 16,
            SyntaxKind::Date => 17,
            SyntaxKind::BracketStart => 18,
            SyntaxKind::BracketEnd => 19,
            SyntaxKind::BraceStart => 20,
            SyntaxKind::BraceEnd => 21,
            SyntaxKind::Error => 22,
            SyntaxKind::Key => 23,
            SyntaxKind::Value => 24,
            SyntaxKind::TableHeader => 25,
            SyntaxKind::TableArrayHeader => 26,
            SyntaxKind::Entry => 27,
            SyntaxKind::Array => 28,
            SyntaxKind::InlineTable => 29,
            SyntaxKind::Root => 30,
        }
    }

    /// Whether elements of this kind are tokens (leaves with text).
    pub open spec fn spec_is_token(self) -> bool {
        self.spec_code() <= 22
    }

    /// Whether this kind is whitespace, a line break or a comment.
    pub open spec fn spec_is_trivia(self) -> bool {
        self == SyntaxKind::Whitespace || self == SyntaxKind::Newline || self
            == SyntaxKind::Comment
    }

    #[verifier::when_used_as_spec(spec_code)]
    pub fn code(self) -> (c: u16)
        ensures
            c == self.spec_code(),
            c < KIND_COUNT,
    {
        match self {
            SyntaxKind::Whitespace => 0,
            SyntaxKind::Newline => 1,
            SyntaxKind::Comment => 2,
            SyntaxKind::Ident => 3,
            SyntaxKind::Period => 4,
            SyntaxKind::Comma => 5,
            SyntaxKind::Eq => 6,
            SyntaxKind::String => 7,
            SyntaxKind::MultiLineString => 8,
            SyntaxKind::StringLiteral => 9,
            SyntaxKind::MultiLineStringLiteral => 10,
            SyntaxKind::Integer => 11,
            SyntaxKind::IntegerHex => 12,
            SyntaxKind::IntegerOct => 13,
            SyntaxKind::IntegerBin => 14,
            SyntaxKind::Float => 15,
            SyntaxKind::Bool => 16,
            SyntaxKind::Date => 17,
            SyntaxKind::BracketStart => 18,
            SyntaxKind::BracketEnd => 19,
            SyntaxKind::BraceStart => 20,
            SyntaxKind::BraceEnd => 21,
            SyntaxKind::Error => 22,
            SyntaxKind::Key => 23,
            SyntaxKind::Value => 24,
            SyntaxKind::TableHeader => 25,
            SyntaxKind::TableArrayHeader => 26,
            SyntaxKind::Entry => 27,
            SyntaxKind::Array => 28,
            SyntaxKind::InlineTable => 29,
            SyntaxKind::Root => 30,
        }
    }

    /// The kind with the given raw code, if there is one.
    pub fn from_code(code: u16) -> (k: Option<SyntaxKind>)
        ensures
            k is Some <==> code < KIND_COUNT,
            k matches Some(kind) ==> kind.spec_code() == code,
    {
        match code {
            0 => Some(SyntaxKind::Whitespace),
            1 => Some(SyntaxKind::Newline),
            2 => Some(SyntaxKind::Comment),
            3 => Some(SyntaxKind::Ident),
            4 => Some(SyntaxKind::Period),
            5 => Some(SyntaxKind::Comma),
            6 => Some(SyntaxKind::Eq),
            7 => Some(SyntaxKind::String),
            8 => Some(SyntaxKind::MultiLineString),
            9 => Some(SyntaxKind::StringLiteral),
            10 => Some(SyntaxKind::MultiLineStringLiteral),
            11 => Some(SyntaxKind::Integer),
            12 => Some(SyntaxKind::IntegerHex),
            13 => Some(SyntaxKind::IntegerOct),
            14 => Some(SyntaxKind::IntegerBin),
            15 => Some(SyntaxKind::Float),
            16 => Some(SyntaxKind::Bool),
            17 => Some(SyntaxKind::Date),
            18 => Some(SyntaxKind::BracketStart),
            19 => Some(SyntaxKind::BracketEnd),
            20 => Some(SyntaxKind::BraceStart),
            21 => Some(SyntaxKind::BraceEnd),
            22 => Some(SyntaxKind::Error),
            23 => Some(SyntaxKind::Key),
            24 => Some(SyntaxKind::Value),
            25 => Some(SyntaxKind::TableHeader),
            26 => Some(SyntaxKind::TableArrayHeader),
            27 => Some(SyntaxKind::Entry),
            28 => Some(SyntaxKind::Array),
            29 => Some(SyntaxKind::InlineTable),
            30 => Some(SyntaxKind::Root),
            _ => None,
        }
    }

    #[verifier::when_used_as_spec(spec_is_token)]
    pub fn is_token(self) -> (b: bool)
        ensures
            b == self.spec_is_token(),
    {
        self.code() <= 22
    }

    #[verifier::when_used_as_spec(spec_is_trivia)]
    pub fn is_trivia(self) -> (b: bool)
        ensures
            b == self.spec_is_trivia(),
    {
        match self {
            SyntaxKind::Whitespace | SyntaxKind::Newline | SyntaxKind::Comment => true,
            _ => false,
        }
    }
}

} // verus!

//! Lexical tokens of the GraphQL query language and the `TokenSink`
//! hand-off between the tokenizer and its consumers.
//!
//! Every token remembers `start`, its offset in characters from the
//! beginning of the input, so that diagnostics can point at the source.

use vstd::prelude::*;

verus! {

/// The kind of a token, with its lexical value where it has one.
#[derive(Debug, Clone, PartialEq)]
pub enum TokenKind {
    /// `!`
    Bang,
    /// `$`
    Dollar,
    /// `&`
    Amp,
    /// `(`
    ParenL,
    /// `)`
    ParenR,
    /// `...`
    Spread,
    /// `:`
    Colon,
    /// `=`
    Equals,
    /// `@`
    At,
    /// `[`
    BracketL,
    /// `]`
    BracketR,
    /// `{`
    BraceL,
    /// `}`
    BraceR,
    /// `|`
    Pipe,
    /// A name matching `/[_A-Za-z][_0-9A-Za-z]*/` (keywords included).
    Name(String),
    /// An integer literal, kept as its source text.
    Int(String),
    /// A float literal, kept as its source text.
    Float(String),
    /// A string literal with its escapes resolved; block strings are
    /// normalised to this kind as well.
    Str(String),
    /// End of input; the tokenizer emits it exactly once, last.
    Eof,
}

/// The mathematical model of a `TokenKind`: texts become `Seq<char>`.
pub enum SpecTokenKind {
    Bang,
    Dollar,
    Amp,
    ParenL,
    ParenR,
    Spread,
    Colon,
    Equals,
    At,
    BracketL,
    BracketR,
    BraceL,
    BraceR,
    Pipe,
    Name(Seq<char>),
    Int(Seq<char>),
    Float(Seq<char>),
    Str(Seq<char>),
    Eof,
}

impl View for TokenKind {
    type V = SpecTokenKind;

    open spec fn view(&self) -> SpecTokenKind {
        match self {
            TokenKind::Bang => SpecTokenKind::Bang,
            TokenKind::Dollar => SpecTokenKind::Dollar,
            TokenKind::Amp => SpecTokenKind::Amp,
            TokenKind::ParenL => SpecTokenKind::ParenL,
            TokenKind::ParenR => SpecTokenKind::ParenR,
            TokenKind::Spread => SpecTokenKind::Spread,
            TokenKind::Colon => SpecTokenKind::Colon,
            TokenKind::Equals => SpecTokenKind::Equals,
            TokenKind::At => SpecTokenKind::At,
            TokenKind::BracketL => SpecTokenKind::BracketL,
            TokenKind::BracketR => SpecTokenKind::BracketR,
            TokenKind::BraceL => SpecTokenKind::BraceL,
            TokenKind::BraceR => SpecTokenKind::BraceR,
            TokenKind::Pipe => SpecTokenKind::Pipe,
            TokenKind::Name(s) => SpecTokenKind::Name(s@),
            TokenKind::Int(s) => SpecTokenKind::Int(s@),
            TokenKind::Float(s) => SpecTokenKind::Float(s@),
            TokenKind::Str(s) => SpecTokenKind::Str(s@),
            TokenKind::Eof => SpecTokenKind::Eof,
        }
    }
}

impl TokenKind {
    /// A copy of this kind with the same model.
    pub fn duplicate(&self) -> (res: TokenKind)
        ensures
            res@ == self@,
    {
        match self {
            TokenKind::Bang => TokenKind::Bang,
            TokenKind::Dollar => TokenKind::Dollar,
            TokenKind::Amp => TokenKind::Amp,
            TokenKind::ParenL => TokenKind::ParenL,
            TokenKind::ParenR => TokenKind::ParenR,
            TokenKind::Spread => TokenKind::Spread,
            TokenKind::Colon => TokenKind::Colon,
            TokenKind::Equals => TokenKind::Equals,
            TokenKind::At => TokenKind::At,
            TokenKind::BracketL => TokenKind::BracketL,
            TokenKind::BracketR => TokenKind::BracketR,
            TokenKind::BraceL => TokenKind::BraceL,
            TokenKind::BraceR => TokenKind::BraceR,
            TokenKind::Pipe => TokenKind::Pipe,
            TokenKind::Name(s) => TokenKind::Name(s.clone()),
            TokenKind::Int(s) => TokenKind::Int(s.clone()),
            TokenKind::Float(s) => TokenKind::Float(s.clone()),
            TokenKind::Str(s) => TokenKind::Str(s.clone()),
            TokenKind::Eof => TokenKind::Eof,
        }
    }
}

/// A lexical token; `start` is its offset in characters from the start
/// of the input.
#[derive(Debug, Clone, PartialEq)]
pub struct Token {
    pub kind: TokenKind,
    pub start: usize,
}

/// The mathematical model of a `Token`.
pub struct SpecToken {
    pub kind: SpecTokenKind,
    pub start: nat,
}

impl View for Token {
    type V = SpecToken;

    open spec fn view(&self) -> SpecToken {
        SpecToken { kind: self.kind@, start: self.start as nat }
    }
}

impl Token {
    pub fn new(kind: TokenKind, start: usize) -> (res: Self)
        ensures
            res.kind == kind,
            res.start == start,
    {
        Self { kind, start }
    }

    /// A copy of this token with the same model.
    pub fn duplicate(&self) -> (res: Token)
        ensures
            res@ == self@,
    {
        Token { kind: self.kind.duplicate(), start: self.start }
    }
}

/// The model of a sequence of tokens.
pub open spec fn tokens_view(tokens: Seq<Token>) -> Seq<SpecToken> {
    tokens.map_values(|t: Token| t@)
}

/// The consumer of tokens: the tokenizer hands it each token as soon as it
/// is produced. `received` is the sequence of tokens it has been handed.
pub trait TokenSink {
    spec fn received(&self) -> Seq<SpecToken>;

    fn process_token(&mut self, token: Token)
        ensures
            final(self).received() == old(self).received().push(token@),
    ;
}

/// A `TokenSink` that keeps every token it receives, in order.
#[derive(Default, Debug)]
pub struct CollectingSink {
    pub tokens: Vec<Token>,
}

impl CollectingSink {
    /// An empty sink.
    pub fn new() -> (res: Self)
        ensures
            res.tokens@.len() == 0,
    {
        CollectingSink { tokens: Vec::new() }
    }
}

impl TokenSink for CollectingSink {
    open spec fn received(&self) -> Seq<SpecToken> {
        tokens_view(self.tokens@)
    }

    fn process_token(&mut self, token: Token) {
        self.tokens.push(token);
        proof {
            assert(tokens_view(self.tokens@) =~= tokens_view(old(self).tokens@).push(token@));
        }
    }
}

} // verus!

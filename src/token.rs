//! Tokens shared by the lexer and the parser, with the source ranges they
//! cover.

use vstd::prelude::*;

verus! {

/// What a token is.
#[derive(Debug, Clone, PartialEq, Eq, Hash)]
pub enum TokenKind {
    LAngle,
    RAngle,
    Slash,
    Equals,
    LBrace,
    RBrace,
    Ident(String),
    Str(String),
    Text(String),
    Whitespace,
    Comment(String),
    Eof,
}

/// A token kind with its text seen as characters.
pub enum TokenKindView {
    LAngle,
    RAngle,
    Slash,
    Equals,
    LBrace,
    RBrace,
    Ident(Seq<char>),
    Str(Seq<char>),
    Text(Seq<char>),
    Whitespace,
    Comment(Seq<char>),
    Eof,
}

impl View for TokenKind {
    type V = TokenKindView;

    open spec fn view(&self) -> TokenKindView {
        match self {
            TokenKind::LAngle => TokenKindView::LAngle,
            TokenKind::RAngle => TokenKindView::RAngle,
            TokenKind::Slash => TokenKindView::Slash,
            TokenKind::Equals => TokenKindView::Equals,
            TokenKind::LBrace => TokenKindView::LBrace,
            TokenKind::RBrace => TokenKindView::RBrace,
            TokenKind::Ident(s) => TokenKindView::Ident(s@),
            TokenKind::Str(s) => TokenKindView::Str(s@),
            TokenKind::Text(s) => TokenKindView::Text(s@),
            TokenKind::Whitespace => TokenKindView::Whitespace,
            TokenKind::Comment(s) => TokenKindView::Comment(s@),
            TokenKind::Eof => TokenKindView::Eof,
        }
    }
}

/// A source range: 1-based line and column of its start, byte offset and
/// byte length.
#[derive(Debug, Clone, Copy, PartialEq, Eq)]
pub struct Span {
    pub line: usize,
    pub col: usize,
    pub offset: usize,
    pub len: usize,
}

impl Span {
    /// Byte offset just past the range, as a mathematical integer.
    pub open spec fn spec_end_offset(&self) -> int {
        self.offset + self.len
    }

    /// Byte offset just past the range.
    pub fn end_offset(&self) -> (r: usize)
        requires
            self.offset + self.len <= usize::MAX,
        ensures
            r == self.spec_end_offset(),
    {
        self.offset + self.len
    }
}

/// A token and the source range it was read from.
#[derive(Debug, Clone, PartialEq, Eq)]
pub struct Token {
    pub kind: TokenKind,
    pub span: Span,
}

/// A token with its text seen as characters.
pub struct TokenView {
    pub kind: TokenKindView,
    pub span: Span,
}

impl View for Token {
    type V = TokenView;

    open spec fn view(&self) -> TokenView {
        TokenView { kind: self.kind@, span: self.span }
    }
}

/// The views of a sequence of tokens.
pub open spec fn tokens_view(ts: Seq<Token>) -> Seq<TokenView> {
    ts.map_values(|t: Token| t@)
}

/// A copy of a token kind.
pub fn copy_kind(k: &TokenKind) -> (r: TokenKind)
    ensures
        r@ == k@,
{
    match k {
        TokenKind::LAngle => TokenKind::LAngle,
        TokenKind::RAngle => TokenKind::RAngle,
        TokenKind::Slash => TokenKind::Slash,
        TokenKind::Equals => TokenKind::Equals,
        TokenKind::LBrace => TokenKind::LBrace,
        TokenKind::RBrace => TokenKind::RBrace,
        TokenKind::Ident(s) => TokenKind::Ident(s.clone()),
        TokenKind::Str(s) => TokenKind::Str(s.clone()),
        TokenKind::Text(s) => TokenKind::Text(s.clone()),
        TokenKind::Whitespace => TokenKind::Whitespace,
        TokenKind::Comment(s) => TokenKind::Comment(s.clone()),
        TokenKind::Eof => TokenKind::Eof,
    }
}

/// A copy of a token.
pub fn copy_token(t: &Token) -> (r: Token)
    ensures
        r@ == t@,
{
    Token { kind: copy_kind(&t.kind), span: t.span }
}

/// Which of the twelve kinds a token kind is, its text aside.
pub open spec fn variant(k: TokenKindView) -> nat {
    match k {
        TokenKindView::LAngle => 0,
        TokenKindView::RAngle => 1,
        TokenKindView::Slash => 2,
        TokenKindView::Equals => 3,
        TokenKindView::LBrace => 4,
        TokenKindView::RBrace => 5,
        TokenKindView::Ident(_) => 6,
        TokenKindView::Str(_) => 7,
        TokenKindView::Text(_) => 8,
        TokenKindView::Whitespace => 9,
        TokenKindView::Comment(_) => 10,
        TokenKindView::Eof => 11,
    }
}

/// Which of the twelve kinds `k` is.
pub fn variant_of(k: &TokenKind) -> (r: u8)
    ensures
        r == variant(k@),
{
    match k {
        TokenKind::LAngle => 0,
        TokenKind::RAngle => 1,
        TokenKind::Slash => 2,
        TokenKind::Equals => 3,
        TokenKind::LBrace => 4,
        TokenKind::RBrace => 5,
        TokenKind::Ident(_) => 6,
        TokenKind::Str(_) => 7,
        TokenKind::Text(_) => 8,
        TokenKind::Whitespace => 9,
        TokenKind::Comment(_) => 10,
        TokenKind::Eof => 11,
    }
}

} // verus!

//! Recursive-descent parser from tokens to a markup tree. The source text
//! is kept beside the tokens: the code between a pair of braces is cut out
//! of it by byte offset.

use vstd::prelude::*;
use crate::ast::{Attr, AttrValue, AttrValueView, AttrView, Document, Node, NodeView, node_view};
use crate::text::{
    byte_len, chars_of, lemma_byte_len_is_utf8_len, lemma_offset_mono, lemma_offset_step,
    offset_at, string_of, trim_bounds, trim_ws, width_of,
};
use crate::token::{
    Span, Token, TokenKind, TokenKindView, TokenView, copy_kind, copy_token, tokens_view, variant,
    variant_of,
};
use crate::ast::nodes_view;

verus! {

broadcast use {
    vstd::seq::group_seq_axioms,
    vstd::std_specs::vec::group_vec_axioms,
    vstd::slice::group_slice_axioms,
};

/// Why parsing stopped.
#[derive(Debug, Clone, PartialEq, Eq)]
pub enum ParseError {
    /// A token that the grammar does not allow here, and what was expected.
    Unexpected { found: TokenKind, span: Span, expected: &'static str },
    /// The input ended inside the element of this name, opened at the span.
    UnclosedTag(String, Span),
    /// A closing tag names another element than the one open; the span is
    /// that of the closing name.
    MismatchedClose { expected: String, found: String, span: Span },
}

/// A parse error with its text seen as characters.
pub enum ParseErrorView {
    Unexpected { found: TokenKindView, span: Span, expected: Seq<char> },
    UnclosedTag(Seq<char>, Span),
    MismatchedClose { expected: Seq<char>, found: Seq<char>, span: Span },
}

impl View for ParseError {
    type V = ParseErrorView;

    open spec fn view(&self) -> ParseErrorView {
        match self {
            ParseError::Unexpected { found, span, expected } => ParseErrorView::Unexpected {
                found: found@,
                span: *span,
                expected: expected@,
            },
            ParseError::UnclosedTag(name, span) => ParseErrorView::UnclosedTag(name@, *span),
            ParseError::MismatchedClose { expected, found, span } =>
                ParseErrorView::MismatchedClose { expected: expected@, found: found@, span: *span },
        }
    }
}

/// The character index at byte offset `off` of `src`, where one starts there.
pub open spec fn char_index(src: Seq<char>, off: int) -> Option<int> {
    if exists|a: int| 0 <= a <= src.len() && offset_at(src, a) == off {
        Some(choose|a: int| 0 <= a <= src.len() && offset_at(src, a) == off)
    } else {
        None
    }
}

/// The characters between byte offsets `start` and `end`, when both fall on
/// character boundaries in order.
pub open spec fn byte_slice(src: Seq<char>, start: int, end: int) -> Option<Seq<char>> {
    match (char_index(src, start), char_index(src, end)) {
        (Some(a), Some(b)) => if start <= end {
            Some(src.subrange(a, b))
        } else {
            None
        },
        _ => None,
    }
}

/// The error for an unexpected token at `p`, with what was expected.
pub open spec fn unexpected_at(ts: Seq<TokenView>, p: int, what: Seq<char>) -> ParseErrorView {
    ParseErrorView::Unexpected { found: ts[p].kind, span: ts[p].span, expected: what }
}

/// A closing tag starts at `p`: `<` followed by `/`.
pub open spec fn is_closing_at(ts: Seq<TokenView>, p: int) -> bool {
    &&& 0 <= p
    &&& p + 1 < ts.len()
    &&& ts[p].kind is LAngle
    &&& ts[p + 1].kind is Slash
}

/// The trimmed code between the braces at `p` and `p + 1`.
pub open spec fn parse_expr_spec(ts: Seq<TokenView>, src: Seq<char>, p: int) -> Result<
    (Seq<char>, int),
    ParseErrorView,
> {
    if !(ts[p].kind is LBrace) {
        Err(unexpected_at(ts, p, "{"@))
    } else if !(ts[p + 1].kind is RBrace) {
        Err(unexpected_at(ts, p + 1, "}"@))
    } else {
        match byte_slice(src, ts[p].span.offset + ts[p].span.len, ts[p + 1].span.offset as int) {
            None => Err(
                ParseErrorView::Unexpected {
                    found: TokenKindView::RBrace,
                    span: ts[p + 1].span,
                    expected: "expression contents"@,
                },
            ),
            Some(t) => Ok((trim_ws(t), p + 2)),
        }
    }
}

/// One attribute at `p`: a name, `=`, then a string or a brace expression.
pub open spec fn parse_attr_spec(ts: Seq<TokenView>, src: Seq<char>, p: int) -> Result<
    (AttrView, int),
    ParseErrorView,
> {
    if !(ts[p].kind is Ident) {
        Err(unexpected_at(ts, p, "attribute name"@))
    } else if !(ts[p + 1].kind is Equals) {
        Err(unexpected_at(ts, p + 1, "="@))
    } else {
        let name = ts[p].kind->Ident_0;
        match ts[p + 2].kind {
            TokenKindView::Str(v) => Ok((AttrView { name, value: AttrValueView::Str(v) }, p + 3)),
            TokenKindView::LBrace => match parse_expr_spec(ts, src, p + 2) {
                Ok((c, q)) => Ok((AttrView { name, value: AttrValueView::Expr(c) }, q)),
                Err(e) => Err(e),
            },
            _ => Err(unexpected_at(ts, p + 2, "string literal or expression"@)),
        }
    }
}

/// An attribute takes three or four tokens.
pub proof fn lemma_parse_attr_advances(ts: Seq<TokenView>, src: Seq<char>, p: int)
    ensures
        parse_attr_spec(ts, src, p) matches Ok((a, q)) ==> p + 3 <= q <= p + 4,
{
}

/// The attributes from `p` on: as many as start with an identifier.
pub open spec fn parse_attrs_spec(ts: Seq<TokenView>, src: Seq<char>, p: int) -> Result<
    (Seq<AttrView>, int),
    ParseErrorView,
>
    decreases ts.len() + 4 - p,
{
    if !(0 <= p < ts.len()) || !(ts[p].kind is Ident) {
        Ok((Seq::empty(), p))
    } else {
        proof {
            lemma_parse_attr_advances(ts, src, p);
        }
        match parse_attr_spec(ts, src, p) {
            Err(e) => Err(e),
            Ok((a, q)) => match parse_attrs_spec(ts, src, q) {
                Ok((rest, r)) => Ok((seq![a] + rest, r)),
                Err(e) => Err(e),
            },
        }
    }
}

/// One node at `p`. `fuel` bounds the depth of the descent; the parser
/// always gives enough.
pub open spec fn parse_node_spec(ts: Seq<TokenView>, src: Seq<char>, p: int, fuel: nat) -> Result<
    (NodeView, int),
    ParseErrorView,
>
    decreases fuel,
{
    if fuel == 0 {
        Err(unexpected_at(ts, p, "element, text, or expression"@))
    } else {
        match ts[p].kind {
            TokenKindView::LAngle => parse_element_spec(ts, src, p, (fuel - 1) as nat),
            TokenKindView::Text(t) => Ok((NodeView::Text(t), p + 1)),
            TokenKindView::LBrace => match parse_expr_spec(ts, src, p) {
                Ok((c, q)) => Ok((NodeView::Expr(c), q)),
                Err(e) => Err(e),
            },
            _ => Err(unexpected_at(ts, p, "element, text, or expression"@)),
        }
    }
}

/// One element at `p`: an opening tag that closes itself, or an opening tag,
/// children and the matching closing tag.
pub open spec fn parse_element_spec(
    ts: Seq<TokenView>,
    src: Seq<char>,
    p: int,
    fuel: nat,
) -> Result<(NodeView, int), ParseErrorView>
    decreases fuel,
{
    if fuel == 0 {
        Err(unexpected_at(ts, p, "<"@))
    } else if !(ts[p].kind is LAngle) {
        Err(unexpected_at(ts, p, "<"@))
    } else if !(ts[p + 1].kind is Ident) {
        Err(unexpected_at(ts, p + 1, "tag name"@))
    } else {
        let name = ts[p + 1].kind->Ident_0;
        match parse_attrs_spec(ts, src, p + 2) {
            Err(e) => Err(e),
            Ok((attrs, q)) => match ts[q].kind {
                TokenKindView::Slash => if ts[q + 1].kind is RAngle {
                    Ok((NodeView::Element { name, attrs, children: Seq::empty() }, q + 2))
                } else {
                    Err(unexpected_at(ts, q + 1, ">"@))
                },
                TokenKindView::RAngle => match parse_children_spec(
                    ts,
                    src,
                    q + 1,
                    name,
                    ts[p].span,
                    (fuel - 1) as nat,
                ) {
                    Err(e) => Err(e),
                    Ok((children, r)) => if !(ts[r + 2].kind is Ident) {
                        Err(unexpected_at(ts, r + 2, "closing tag name"@))
                    } else if ts[r + 2].kind->Ident_0 != name {
                        Err(
                            ParseErrorView::MismatchedClose {
                                expected: name,
                                found: ts[r + 2].kind->Ident_0,
                                span: ts[r + 2].span,
                            },
                        )
                    } else if !(ts[r + 3].kind is RAngle) {
                        Err(unexpected_at(ts, r + 3, ">"@))
                    } else {
                        Ok((NodeView::Element { name, attrs, children }, r + 4))
                    },
                },
                _ => Err(unexpected_at(ts, q, "`>` or `/>`"@)),
            },
        }
    }
}

/// The children of the element `name` (opened at `open`) from `r` up to its
/// closing tag, which is not consumed.
pub open spec fn parse_children_spec(
    ts: Seq<TokenView>,
    src: Seq<char>,
    r: int,
    name: Seq<char>,
    open: Span,
    fuel: nat,
) -> Result<(Seq<NodeView>, int), ParseErrorView>
    decreases fuel,
{
    if fuel == 0 {
        Err(ParseErrorView::UnclosedTag(name, open))
    } else if is_closing_at(ts, r) {
        Ok((Seq::empty(), r))
    } else if ts[r].kind is Eof {
        Err(ParseErrorView::UnclosedTag(name, open))
    } else {
        match parse_node_spec(ts, src, r, (fuel - 1) as nat) {
            Err(e) => Err(e),
            Ok((n, r2)) => match parse_children_spec(ts, src, r2, name, open, (fuel - 1) as nat) {
                Err(e) => Err(e),
                Ok((ns, r3)) => Ok((seq![n] + ns, r3)),
            },
        }
    }
}

/// The nodes from `p` up to the end-of-file token.
pub open spec fn parse_nodes_spec(ts: Seq<TokenView>, src: Seq<char>, p: int, fuel: nat) -> Result<
    Seq<NodeView>,
    ParseErrorView,
>
    decreases fuel,
{
    if fuel == 0 || ts[p].kind is Eof {
        Ok(Seq::empty())
    } else {
        match parse_node_spec(ts, src, p, (fuel - 1) as nat) {
            Err(e) => Err(e),
            Ok((n, q)) => match parse_nodes_spec(ts, src, q, (fuel - 1) as nat) {
                Ok(ns) => Ok(seq![n] + ns),
                Err(e) => Err(e),
            },
        }
    }
}

/// Fuel enough for a descent from `p`.
pub open spec fn fuel_for(ts: Seq<TokenView>, p: int) -> nat {
    (2 * (ts.len() - p) + 2) as nat
}

/// The document that the tokens `ts` of the source `src` describe.
pub open spec fn parse_spec(ts: Seq<TokenView>, src: Seq<char>) -> Result<
    Seq<NodeView>,
    ParseErrorView,
> {
    parse_nodes_spec(ts, src, 0, fuel_for(ts, 0))
}

/// Tokens that end with exactly the one end-of-file token the parser stops at.
pub open spec fn ends_with_eof(ts: Seq<TokenView>) -> bool {
    ts.len() > 0 && ts.last().kind is Eof
}

/// The view of a parser result.
pub open spec fn parsed(r: Result<Document, ParseError>) -> Result<Seq<NodeView>, ParseErrorView> {
    match r {
        Ok(d) => Ok(d@),
        Err(e) => Err(e@),
    }
}

/// Attributes parsed so far in front of the rest.
pub open spec fn join_attrs(
    v: Seq<AttrView>,
    r: Result<(Seq<AttrView>, int), ParseErrorView>,
) -> Result<(Seq<AttrView>, int), ParseErrorView> {
    match r {
        Ok((rest, q)) => Ok((v + rest, q)),
        Err(e) => Err(e),
    }
}

/// Children parsed so far in front of the rest.
pub open spec fn join_children(
    v: Seq<NodeView>,
    r: Result<(Seq<NodeView>, int), ParseErrorView>,
) -> Result<(Seq<NodeView>, int), ParseErrorView> {
    match r {
        Ok((rest, q)) => Ok((v + rest, q)),
        Err(e) => Err(e),
    }
}

/// Top-level nodes parsed so far in front of the rest.
pub open spec fn join_nodes(v: Seq<NodeView>, r: Result<Seq<NodeView>, ParseErrorView>) -> Result<
    Seq<NodeView>,
    ParseErrorView,
> {
    match r {
        Ok(rest) => Ok(v + rest),
        Err(e) => Err(e),
    }
}

/// The views of a sequence of attributes.
pub open spec fn attrs_view_of(attrs: Seq<Attr>) -> Seq<AttrView> {
    crate::ast::attrs_view(attrs)
}

proof fn lemma_nodes_view_push(ns: Seq<Node>, n: Node)
    ensures
        nodes_view(ns.push(n)) == nodes_view(ns).push(node_view(n)),
{
    assert(ns.push(n).subrange(0, ns.len() as int) =~= ns);
}

struct Parser<'a> {
    tokens: &'a [Token],
    src: Vec<char>,
    pos: usize,
}

impl<'a> Parser<'a> {
    spec fn ts(&self) -> Seq<TokenView> {
        tokens_view(self.tokens@)
    }

    proof fn lemma_len(&self)
        ensures
            self.ts().len() == self.tokens@.len(),
    {
    }

    spec fn wf(&self) -> bool {
        &&& ends_with_eof(self.ts())
        &&& self.pos < self.tokens@.len()
        &&& self.tokens.len() == self.tokens@.len()
        &&& byte_len(self.src@) <= usize::MAX
    }

    spec fn same(&self, o: &Self) -> bool {
        self.tokens@ == o.tokens@ && self.src@ == o.src@
    }

    fn new(tokens: &'a [Token], src: &str) -> (r: Self)
        requires
            ends_with_eof(tokens_view(tokens@)),
        ensures
            r.wf(),
            r.tokens@ == tokens@,
            r.src@ == src@,
            r.pos == 0,
    {
        let chars = chars_of(src);
        let bytes = src.as_bytes();
        let n = bytes.len();
        proof {
            lemma_byte_len_is_utf8_len(src@);
        }
        Parser { tokens, src: chars, pos: 0 }
    }

    fn current(&self) -> (r: &Token)
        requires
            self.wf(),
        ensures
            r@ == self.ts()[self.pos as int],
    {
        &self.tokens[self.pos]
    }

    fn current_is(&self, kind: &TokenKind) -> (r: bool)
        requires
            self.wf(),
        ensures
            r == (variant(self.ts()[self.pos as int].kind) == variant(kind@)),
    {
        variant_of(&self.current().kind) == variant_of(kind)
    }

    fn unexpected(&self, token: &Token, expected: &'static str) -> (r: ParseError)
        ensures
            r@ == (ParseErrorView::Unexpected {
                found: token.kind@,
                span: token.span,
                expected: expected@,
            }),
    {
        ParseError::Unexpected { found: copy_kind(&token.kind), span: token.span, expected }
    }

    fn expect(&mut self, expected: TokenKind, description: &'static str) -> (r: Result<
        Token,
        ParseError,
    >)
        requires
            old(self).pos < old(self).tokens@.len(),
            old(self).tokens.len() == old(self).tokens@.len(),
        ensures
            final(self).same(old(self)),
            ({
                let p = old(self).pos as int;
                let ts = old(self).ts();
                &&& if variant(ts[p].kind) == variant(expected@) {
                    (r matches Ok(t) && t@ == ts[p]) && final(self).pos == p + 1
                } else {
                    (r matches Err(e) && e@ == unexpected_at(ts, p, description@))
                        && final(self).pos == p
                }
                &&& old(self).wf() && (final(self).pos == p || !(ts[p].kind is Eof))
                    ==> final(self).wf()
            }),
    {
        proof {
            self.lemma_len();
        }
        let token = copy_token(&self.tokens[self.pos]);
        if variant_of(&token.kind) == variant_of(&expected) {
            self.pos = self.pos + 1;
            Ok(token)
        } else {
            Err(self.unexpected(&token, description))
        }
    }

    fn expect_ident(&mut self, description: &'static str) -> (r: Result<Token, ParseError>)
        requires
            old(self).pos < old(self).tokens@.len(),
            old(self).tokens.len() == old(self).tokens@.len(),
        ensures
            final(self).same(old(self)),
            old(self).wf() ==> final(self).wf(),
            ({
                let p = old(self).pos as int;
                let ts = old(self).ts();
                if ts[p].kind is Ident {
                    (r matches Ok(t) && t@ == ts[p] && t.kind is Ident) && final(self).pos == p + 1
                } else {
                    (r matches Err(e) && e@ == unexpected_at(ts, p, description@))
                        && final(self).pos == p
                }
            }),
    {
        proof {
            self.lemma_len();
        }
        let token = copy_token(&self.tokens[self.pos]);
        if matches!(token.kind, TokenKind::Ident(_)) {
            self.pos = self.pos + 1;
            Ok(token)
        } else {
            Err(self.unexpected(&token, description))
        }
    }

    fn next_is_closing_tag(&self) -> (r: bool)
        requires
            self.wf(),
        ensures
            r == is_closing_at(self.ts(), self.pos as int),
    {
        self.pos + 1 < self.tokens.len() && matches!(self.tokens[self.pos].kind, TokenKind::LAngle)
            && matches!(self.tokens[self.pos + 1].kind, TokenKind::Slash)
    }

    /// The index of the character that starts at byte offset `off`.
    fn index_at_offset(&self, off: usize) -> (r: Option<usize>)
        requires
            byte_len(self.src@) <= usize::MAX,
        ensures
            r matches Some(a) ==> char_index(self.src@, off as int) == Some(a as int) && a
                <= self.src@.len(),
            r is None ==> char_index(self.src@, off as int) is None,
    {
        let ghost s = self.src@;
        let mut a: usize = 0;
        let mut acc: usize = 0;
        proof {
            assert(s.take(0) =~= Seq::<char>::empty());
        }
        while a < self.src.len() && acc < off
            invariant
                s == self.src@,
                byte_len(s) <= usize::MAX,
                a <= s.len(),
                acc == offset_at(s, a as int),
                forall|i: int| 0 <= i < a ==> #[trigger] offset_at(s, i) < off,
            decreases s.len() - a,
        {
            proof {
                lemma_offset_step(s, a as int);
                lemma_offset_mono(s, a + 1, a + 1);
            }
            acc = acc + width_of(self.src[a]);
            a = a + 1;
        }
        if acc == off {
            proof {
                let c = choose|c: int| 0 <= c <= s.len() && offset_at(s, c) == off;
                if c > a {
                    lemma_offset_mono(s, a as int, c);
                }
            }
            Some(a)
        } else {
            proof {
                assert forall|c: int| 0 <= c <= s.len() implies offset_at(s, c) != off by {
                    if c >= a {
                        lemma_offset_mono(s, a as int, c);
                    }
                }
            }
            None
        }
    }

    fn parse_expr_string(&mut self) -> (r: Result<String, ParseError>)
        requires
            old(self).wf(),
        ensures
            final(self).same(old(self)),
            match parse_expr_spec(old(self).ts(), old(self).src@, old(self).pos as int) {
                Ok((c, q)) => (r matches Ok(x) && x@ == c) && final(self).pos == q
                    && final(self).wf(),
                Err(e) => r matches Err(x) && x@ == e,
            },
    {
        let ghost ts = self.ts();
        let ghost s = self.src@;
        let lbrace = match self.expect(TokenKind::LBrace, "{") {
            Ok(t) => t,
            Err(e) => {
                return Err(e);
            },
        };
        let rbrace = match self.expect(TokenKind::RBrace, "}") {
            Ok(t) => t,
            Err(e) => {
                return Err(e);
            },
        };
        let bad = ParseError::Unexpected {
            found: TokenKind::RBrace,
            span: rbrace.span,
            expected: "expression contents",
        };
        if lbrace.span.offset > usize::MAX - lbrace.span.len {
            proof {
                assert forall|c: int| 0 <= c <= s.len() implies offset_at(s, c)
                    != lbrace.span.offset + lbrace.span.len by {
                    lemma_offset_mono(s, c, s.len() as int);
                }
            }
            return Err(bad);
        }
        let start = lbrace.span.end_offset();
        let end = rbrace.span.offset;
        let a = match self.index_at_offset(start) {
            Some(a) => a,
            None => {
                return Err(bad);
            },
        };
        let b = match self.index_at_offset(end) {
            Some(b) => b,
            None => {
                return Err(bad);
            },
        };
        if start > end {
            return Err(bad);
        }
        proof {
            if a > b {
                lemma_offset_mono(s, b as int, a as int);
            }
        }
        let (lo, hi) = trim_bounds(&self.src, a, b);
        Ok(string_of(&self.src, lo, hi))
    }

    fn parse_attr(&mut self) -> (r: Result<Attr, ParseError>)
        requires
            old(self).wf(),
        ensures
            final(self).same(old(self)),
            match parse_attr_spec(old(self).ts(), old(self).src@, old(self).pos as int) {
                Ok((a, q)) => (r matches Ok(x) && x@ == a) && final(self).pos == q
                    && final(self).wf(),
                Err(e) => r matches Err(x) && x@ == e,
            },
    {
        let ghost ts = self.ts();
        let ghost p = self.pos as int;
        let name_token = match self.expect_ident("attribute name") {
            Ok(t) => t,
            Err(e) => {
                return Err(e);
            },
        };
        let name = match name_token.kind {
            TokenKind::Ident(value) => value,
            _ => String::new(),
        };
        match self.expect(TokenKind::Equals, "=") {
            Ok(_) => {},
            Err(e) => {
                return Err(e);
            },
        }
        let value = match &self.current().kind {
            TokenKind::Str(v) => {
                let v = v.clone();
                self.pos = self.pos + 1;
                AttrValue::Str(v)
            },
            TokenKind::LBrace => {
                match self.parse_expr_string() {
                    Ok(code) => AttrValue::Expr(code),
                    Err(e) => {
                        return Err(e);
                    },
                }
            },
            _ => {
                let t = copy_token(self.current());
                return Err(self.unexpected(&t, "string literal or expression"));
            },
        };
        Ok(Attr { name, value })
    }

    fn parse_node(&mut self, Ghost(fuel): Ghost<nat>) -> (r: Result<Node, ParseError>)
        requires
            old(self).wf(),
            fuel >= 2 * (old(self).tokens@.len() - old(self).pos) + 1,
        ensures
            final(self).same(old(self)),
            match parse_node_spec(old(self).ts(), old(self).src@, old(self).pos as int, fuel) {
                Ok((n, q)) => (r matches Ok(x) && x@ == n) && final(self).pos == q
                    && final(self).wf() && q > old(self).pos,
                Err(e) => r matches Err(x) && x@ == e,
            },
            ({
                let k = old(self).ts()[old(self).pos as int].kind;
                !(k is LAngle || k is Text || k is LBrace) ==> final(self).pos == old(self).pos
            }),
        decreases fuel,
    {
        let ghost ts = self.ts();
        let ghost p = self.pos as int;
        proof {
            self.lemma_len();
        }
        match &self.current().kind {
            TokenKind::LAngle => self.parse_element(Ghost((fuel - 1) as nat)),
            TokenKind::Text(text) => {
                let text = text.clone();
                self.pos = self.pos + 1;
                Ok(Node::Text(text))
            },
            TokenKind::LBrace => {
                match self.parse_expr_string() {
                    Ok(code) => Ok(Node::Expr(code)),
                    Err(e) => Err(e),
                }
            },
            _ => {
                let t = copy_token(self.current());
                Err(self.unexpected(&t, "element, text, or expression"))
            },
        }
    }

    fn parse_element(&mut self, Ghost(fuel): Ghost<nat>) -> (r: Result<Node, ParseError>)
        requires
            old(self).wf(),
            fuel >= 2 * (old(self).tokens@.len() - old(self).pos),
        ensures
            final(self).same(old(self)),
            match parse_element_spec(old(self).ts(), old(self).src@, old(self).pos as int, fuel) {
                Ok((n, q)) => (r matches Ok(x) && x@ == n) && final(self).pos == q
                    && final(self).wf() && q > old(self).pos,
                Err(e) => r matches Err(x) && x@ == e,
            },
        decreases fuel,
    {
        let ghost ts = self.ts();
        let ghost src = self.src@;
        let ghost p = self.pos as int;
        let ghost len = ts.len();
        proof {
            self.lemma_len();
        }
        let open = match self.expect(TokenKind::LAngle, "<") {
            Ok(t) => t,
            Err(e) => {
                return Err(e);
            },
        };
        let name_token = match self.expect_ident("tag name") {
            Ok(t) => t,
            Err(e) => {
                return Err(e);
            },
        };
        let name = match name_token.kind {
            TokenKind::Ident(value) => value,
            _ => String::new(),
        };
        let mut attrs: Vec<Attr> = Vec::new();
        proof {
            assert(attrs_view_of(attrs@) + Seq::<AttrView>::empty() =~= Seq::<AttrView>::empty());
            if let Ok((v, q)) = parse_attrs_spec(ts, src, p + 2) {
                assert(Seq::<AttrView>::empty() + v =~= v);
            }
        }
        while matches!(self.current().kind, TokenKind::Ident(_))
            invariant
                self.wf(),
                self.same(old(self)),
                ts == self.ts(),
                src == self.src@,
                len == ts.len(),
                len == self.tokens@.len(),
                p + 2 <= self.pos,
                p == old(self).pos,
                ts == old(self).ts(),
                src == old(self).src@,
                fuel >= 2 * (len - p),
                ts[p].kind is LAngle,
                ts[p + 1].kind is Ident,
                name@ == ts[p + 1].kind->Ident_0,
                open@ == ts[p],
                parse_attrs_spec(ts, src, p + 2) == join_attrs(
                    attrs_view_of(attrs@),
                    parse_attrs_spec(ts, src, self.pos as int),
                ),
            decreases len - self.pos,
        {
            let ghost before = attrs_view_of(attrs@);
            proof {
                lemma_parse_attr_advances(ts, src, self.pos as int);
            }
            let ghost k = self.pos as int;
            let attr = match self.parse_attr() {
                Ok(a) => a,
                Err(e) => {
                    assert(parse_attrs_spec(ts, src, k) == Err::<(Seq<AttrView>, int), ParseErrorView>(e@));
                    return Err(e);
                },
            };
            attrs.push(attr);
            proof {
                assert(attrs_view_of(attrs@) =~= before.push(attr@));
                if let Ok((v, q)) = parse_attrs_spec(ts, src, self.pos as int) {
                    assert(before + (seq![attr@] + v) =~= before.push(attr@) + v);
                }
            }
        }
        let ghost q = self.pos as int;
        assert(attrs_view_of(attrs@) + Seq::<AttrView>::empty() =~= attrs_view_of(attrs@));
        assert(parse_attrs_spec(ts, src, p + 2) == Ok::<(Seq<AttrView>, int), ParseErrorView>((attrs_view_of(attrs@), q)));
        let tok = copy_token(self.current());
        match tok.kind {
            TokenKind::Slash => {
                self.pos = self.pos + 1;
                match self.expect(TokenKind::RAngle, ">") {
                    Ok(_) => {},
                    Err(e) => {
                        return Err(e);
                    },
                }
                let children: Vec<Node> = Vec::new();
                assert(nodes_view(children@) =~= Seq::<NodeView>::empty());
                Ok(Node::Element { name, attrs, children })
            },
            TokenKind::RAngle => {
                self.pos = self.pos + 1;
                let ghost start = self.pos as int;
                let ghost mut cf: nat = (fuel - 1) as nat;
                let mut children: Vec<Node> = Vec::new();
                proof {
                    if let Ok((v, r)) = parse_children_spec(ts, src, start, name@, open.span, cf) {
                        assert(nodes_view(children@) + v =~= v);
                    }
                }
                loop
                    invariant
                        self.wf(),
                        self.same(old(self)),
                        ts == self.ts(),
                        src == self.src@,
                        len == ts.len(),
                        len == self.tokens@.len(),
                        start <= self.pos,
                        start == q + 1,
                        p == old(self).pos,
                        ts == old(self).ts(),
                        src == old(self).src@,
                        fuel >= 2 * (len - p),
                        ts[p].kind is LAngle,
                        ts[p + 1].kind is Ident,
                        name@ == ts[p + 1].kind->Ident_0,
                        open@ == ts[p],
                        ts[q].kind is RAngle,
                        parse_attrs_spec(ts, src, p + 2) == Ok::<(Seq<AttrView>, int), ParseErrorView>(
                            (attrs_view_of(attrs@), q),
                        ),
                        cf < fuel,
                        cf >= 2 * (len - self.pos) + 2,
                        parse_children_spec(ts, src, start, name@, open.span, (fuel - 1) as nat)
                            == join_children(
                            nodes_view(children@),
                            parse_children_spec(ts, src, self.pos as int, name@, open.span, cf),
                        ),
                    ensures
                        self.wf(),
                        self.same(old(self)),
                        start <= self.pos,
                        is_closing_at(ts, self.pos as int),
                        parse_children_spec(ts, src, start, name@, open.span, (fuel - 1) as nat)
                            == Ok::<(Seq<NodeView>, int), ParseErrorView>(
                            (nodes_view(children@), self.pos as int),
                        ),
                    decreases cf,
                {
                    if self.next_is_closing_tag() {
                        assert(nodes_view(children@) + Seq::<NodeView>::empty() =~= nodes_view(
                            children@,
                        ));
                        break;
                    }
                    if self.current_is(&TokenKind::Eof) {
                        return Err(ParseError::UnclosedTag(name.clone(), open.span));
                    }
                    let ghost before = nodes_view(children@);
                    let ghost k = self.pos as int;
                    let ghost kf = cf;
                    let child = match self.parse_node(Ghost((cf - 1) as nat)) {
                        Ok(c) => c,
                        Err(e) => {
                            assert(parse_children_spec(ts, src, k, name@, open.span, kf) == Err::<
                                (Seq<NodeView>, int),
                                ParseErrorView,
                            >(e@));
                            return Err(e);
                        },
                    };
                    let ghost old_children = children@;
                    children.push(child);
                    proof {
                        lemma_nodes_view_push(old_children, child);
                        cf = (kf - 1) as nat;
                        let rest = parse_children_spec(ts, src, self.pos as int, name@, open.span, cf);
                        assert(parse_children_spec(ts, src, k, name@, open.span, kf) == match rest {
                            Err(e) => Err(e),
                            Ok((ns, r3)) => Ok((seq![child@] + ns, r3)),
                        });
                        if let Ok((v, r)) = rest {
                            assert(before + (seq![child@] + v) =~= before.push(child@) + v);
                        }
                    }
                }
                let ghost r = self.pos as int;
                self.pos = self.pos + 2;
                let closing_name = match self.expect_ident("closing tag name") {
                    Ok(t) => t,
                    Err(e) => {
                        return Err(e);
                    },
                };
                let found_name = match closing_name.kind {
                    TokenKind::Ident(value) => value,
                    _ => String::new(),
                };
                if found_name != name {
                    return Err(
                        ParseError::MismatchedClose {
                            expected: name,
                            found: found_name,
                            span: closing_name.span,
                        },
                    );
                }
                match self.expect(TokenKind::RAngle, ">") {
                    Ok(_) => {},
                    Err(e) => {
                        return Err(e);
                    },
                }
                Ok(Node::Element { name, attrs, children })
            },
            _ => Err(self.unexpected(&tok, "`>` or `/>`")),
        }
    }

    fn parse_document(&mut self) -> (r: Result<Document, ParseError>)
        requires
            old(self).wf(),
            old(self).pos == 0,
        ensures
            parsed(r) == parse_spec(old(self).ts(), old(self).src@),
    {
        let ghost ts = self.ts();
        let ghost src = self.src@;
        let ghost len = ts.len();
        proof {
            self.lemma_len();
        }
        let ghost mut f: nat = fuel_for(ts, 0);
        let mut children: Vec<Node> = Vec::new();
        proof {
            if let Ok(v) = parse_spec(ts, src) {
                assert(nodes_view(children@) + v =~= v);
            }
        }
        while !self.current_is(&TokenKind::Eof)
            invariant
                self.wf(),
                self.same(old(self)),
                ts == self.ts(),
                src == self.src@,
                len == ts.len(),
                len == self.tokens@.len(),
                f >= 2 * (len - self.pos) + 2,
                parse_spec(ts, src) == join_nodes(
                    nodes_view(children@),
                    parse_nodes_spec(ts, src, self.pos as int, f),
                ),
            decreases f,
        {
            let ghost before = nodes_view(children@);
            let ghost k = self.pos as int;
            let ghost kf = f;
            let child = match self.parse_node(Ghost((f - 1) as nat)) {
                Ok(c) => c,
                Err(e) => {
                    assert(parse_nodes_spec(ts, src, k, kf) == Err::<Seq<NodeView>, ParseErrorView>(
                        e@,
                    ));
                    return Err(e);
                },
            };
            let ghost old_children = children@;
            children.push(child);
            proof {
                lemma_nodes_view_push(old_children, child);
                f = (kf - 1) as nat;
                let rest = parse_nodes_spec(ts, src, self.pos as int, f);
                assert(parse_nodes_spec(ts, src, k, kf) == match rest {
                    Ok(ns) => Ok(seq![child@] + ns),
                    Err(e) => Err(e),
                });
                if let Ok(v) = rest {
                    assert(before + (seq![child@] + v) =~= before.push(child@) + v);
                }
            }
        }
        assert(nodes_view(children@) + Seq::<NodeView>::empty() =~= nodes_view(children@));
        Ok(Document { children })
    }
}

/// Parses the tokens of `src` into a document; see `parse_spec`.
pub fn parse(tokens: &[Token], src: &str) -> (r: Result<Document, ParseError>)
    requires
        ends_with_eof(tokens_view(tokens@)),
    ensures
        parsed(r) == parse_spec(tokens_view(tokens@), src@),
{
    let mut parser = Parser::new(tokens, src);
    parser.parse_document()
}

} // verus!

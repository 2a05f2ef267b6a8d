//! The tokenizer: one pass over the characters, with a flag that says
//! whether the cursor is inside a tag.

use vstd::prelude::*;
use crate::text::{
    byte_len, chars_of, ident_continue, ident_start, is_ident_continue,
    is_ident_start, is_space, is_white_space, lemma_byte_len_is_utf8_len, lemma_offset_mono,
    lemma_offset_step, offset_at, push_char, string_of, width_of,
};
use crate::token::{Span, Token, TokenKind, TokenKindView, TokenView, tokens_view};

verus! {

/// The one way lexing fails: an unterminated string literal or brace
/// expression, at the span given.
#[derive(Debug, Clone, PartialEq, Eq)]
pub enum LexError {
    Invalid(Span),
}

/// Line (1-based) of the character at index `i`.
pub open spec fn line_at(s: Seq<char>, i: int) -> nat
    decreases i,
{
    if i <= 0 {
        1
    } else {
        line_at(s, i - 1) + if s[i - 1] == '\n' {
            1nat
        } else {
            0nat
        }
    }
}

/// Column (1-based) of the character at index `i`; both `\n` and `\r` reset
/// it.
pub open spec fn col_at(s: Seq<char>, i: int) -> nat
    decreases i,
{
    if i <= 0 {
        1
    } else if s[i - 1] == '\n' || s[i - 1] == '\r' {
        1
    } else {
        col_at(s, i - 1) + 1
    }
}

/// The span of the characters `s[a..b]`.
pub open spec fn span_of(s: Seq<char>, a: int, b: int) -> Span {
    Span {
        line: line_at(s, a) as usize,
        col: col_at(s, a) as usize,
        offset: offset_at(s, a) as usize,
        len: (offset_at(s, b) - offset_at(s, a)) as usize,
    }
}

/// The token of kind `kind` that covers `s[a..b]`.
pub open spec fn tok(kind: TokenKindView, s: Seq<char>, a: int, b: int) -> TokenView {
    TokenView { kind, span: span_of(s, a, b) }
}

/// Characters that end a text run.
pub open spec fn is_text_stop(c: char, in_tag: bool) -> bool {
    ||| c == '<'
    ||| c == '{'
    ||| c == '}'
    ||| c == '"'
    ||| (in_tag && (c == '/' || c == '=' || is_ident_start(c)))
}

/// Index of the first text stop at or after `i`, or the end.
pub open spec fn text_end(s: Seq<char>, i: int, in_tag: bool) -> int
    decreases s.len() - i,
{
    if !(0 <= i < s.len()) {
        s.len() as int
    } else if is_text_stop(s[i], in_tag) {
        i
    } else {
        text_end(s, i + 1, in_tag)
    }
}

/// Index of the first character at or after `i` that cannot continue an
/// identifier, or the end.
pub open spec fn ident_end(s: Seq<char>, i: int) -> int
    decreases s.len() - i,
{
    if !(0 <= i < s.len()) {
        s.len() as int
    } else if !is_ident_continue(s[i]) {
        i
    } else {
        ident_end(s, i + 1)
    }
}

/// Index of the first `c` at or after `i`, or the end.
pub open spec fn find_char(s: Seq<char>, i: int, c: char) -> int
    decreases s.len() - i,
{
    if !(0 <= i < s.len()) {
        s.len() as int
    } else if s[i] == c {
        i
    } else {
        find_char(s, i + 1, c)
    }
}

/// What a backslash followed by `c` stands for in a string literal.
pub open spec fn unescape(c: char) -> char {
    if c == 'n' {
        '\n'
    } else if c == 't' {
        '\t'
    } else {
        c
    }
}

/// The body of a string literal that starts at index `i` (just past its
/// opening quote): its decoded value and the index just past the closing
/// quote, or `None` when the input ends first.
pub open spec fn scan_string(s: Seq<char>, i: int) -> Option<(Seq<char>, int)>
    decreases s.len() - i,
{
    if !(0 <= i < s.len()) {
        None
    } else if s[i] == '"' {
        Some((Seq::empty(), i + 1))
    } else if s[i] == '\\' {
        if i + 1 >= s.len() {
            None
        } else {
            match scan_string(s, i + 2) {
                Some((v, e)) => Some((seq![unescape(s[i + 1])] + v, e)),
                None => None,
            }
        }
    } else {
        match scan_string(s, i + 1) {
            Some((v, e)) => Some((seq![s[i]] + v, e)),
            None => None,
        }
    }
}

/// A text run without one leading and one trailing newline.
pub open spec fn trim_newlines(t: Seq<char>) -> Seq<char> {
    let t1 = if t.len() > 0 && t[0] == '\n' {
        t.drop_first()
    } else {
        t
    };
    if t1.len() > 0 && t1.last() == '\n' {
        t1.drop_last()
    } else {
        t1
    }
}

/// Tokens in front of a lexing result.
pub open spec fn prepend(ts: Seq<TokenView>, r: Result<Seq<TokenView>, LexError>) -> Result<
    Seq<TokenView>,
    LexError,
> {
    match r {
        Ok(rest) => Ok(ts + rest),
        Err(e) => Err(e),
    }
}

/// `text_end` stays between `i` and the end.
pub proof fn lemma_text_end_bounds(s: Seq<char>, i: int, in_tag: bool)
    requires
        0 <= i <= s.len(),
    ensures
        i <= text_end(s, i, in_tag) <= s.len(),
    decreases s.len() - i,
{
    if i < s.len() {
        lemma_text_end_bounds(s, i + 1, in_tag);
    }
}

/// `ident_end` stays between `i` and the end.
pub proof fn lemma_ident_end_bounds(s: Seq<char>, i: int)
    requires
        0 <= i <= s.len(),
    ensures
        i <= ident_end(s, i) <= s.len(),
    decreases s.len() - i,
{
    if i < s.len() {
        lemma_ident_end_bounds(s, i + 1);
    }
}

/// `find_char` stays between `i` and the end, and finds the character.
pub proof fn lemma_find_char_bounds(s: Seq<char>, i: int, c: char)
    requires
        0 <= i <= s.len(),
    ensures
        i <= find_char(s, i, c) <= s.len(),
        find_char(s, i, c) < s.len() ==> s[find_char(s, i, c)] == c,
    decreases s.len() - i,
{
    if i < s.len() {
        lemma_find_char_bounds(s, i + 1, c);
    }
}

/// A string literal that closes ends past its start.
pub proof fn lemma_scan_string_bounds(s: Seq<char>, i: int)
    requires
        0 <= i <= s.len(),
    ensures
        scan_string(s, i) matches Some((v, e)) ==> i < e <= s.len(),
    decreases s.len() - i,
{
    if i < s.len() {
        if s[i] == '\\' && i + 1 < s.len() {
            lemma_scan_string_bounds(s, i + 2);
        } else if s[i] != '"' && s[i] != '\\' {
            lemma_scan_string_bounds(s, i + 1);
        }
    }
}

/// The tokens of `s` from index `i` on, with the tag flag `in_tag`.
pub open spec fn lex_from(s: Seq<char>, i: int, in_tag: bool) -> Result<Seq<TokenView>, LexError>
    decreases s.len() - i,
{
    if !(0 <= i < s.len()) {
        Ok(seq![tok(TokenKindView::Eof, s, s.len() as int, s.len() as int)])
    } else {
        let c = s[i];
        if c == '<' {
            prepend(seq![tok(TokenKindView::LAngle, s, i, i + 1)], lex_from(s, i + 1, true))
        } else if c == '>' {
            prepend(seq![tok(TokenKindView::RAngle, s, i, i + 1)], lex_from(s, i + 1, false))
        } else if c == '/' {
            if i + 1 < s.len() && s[i + 1] == '/' && !in_tag {
                proof {
                    lemma_find_char_bounds(s, i + 2, '\n');
                }
                lex_from(s, find_char(s, i + 2, '\n'), in_tag)
            } else {
                prepend(seq![tok(TokenKindView::Slash, s, i, i + 1)], lex_from(s, i + 1, in_tag))
            }
        } else if c == '=' {
            prepend(seq![tok(TokenKindView::Equals, s, i, i + 1)], lex_from(s, i + 1, in_tag))
        } else if c == '{' {
            let j = find_char(s, i + 1, '}');
            proof {
                lemma_find_char_bounds(s, i + 1, '}');
            }
            if j >= s.len() {
                Err(LexError::Invalid(span_of(s, i, i + 1)))
            } else {
                prepend(
                    seq![
                        tok(TokenKindView::LBrace, s, i, i + 1),
                        tok(TokenKindView::RBrace, s, j, j + 1),
                    ],
                    lex_from(s, j + 1, in_tag),
                )
            }
        } else if c == '}' {
            prepend(seq![tok(TokenKindView::RBrace, s, i, i + 1)], lex_from(s, i + 1, in_tag))
        } else if c == '"' {
            proof {
                lemma_scan_string_bounds(s, i + 1);
            }
            match scan_string(s, i + 1) {
                None => Err(LexError::Invalid(span_of(s, i, s.len() as int))),
                Some((v, e)) => prepend(
                    seq![tok(TokenKindView::Str(v), s, i, e)],
                    lex_from(s, e, in_tag),
                ),
            }
        } else if is_white_space(c) {
            lex_from(s, i + 1, in_tag)
        } else if is_ident_start(c) && in_tag {
            let j = ident_end(s, i + 1);
            proof {
                lemma_ident_end_bounds(s, i + 1);
            }
            prepend(
                seq![tok(TokenKindView::Ident(s.subrange(i, j)), s, i, j)],
                lex_from(s, j, in_tag),
            )
        } else {
            let j = text_end(s, i + 1, in_tag);
            proof {
                lemma_text_end_bounds(s, i + 1, in_tag);
            }
            let v = trim_newlines(s.subrange(i, j));
            if v.len() == 0 {
                lex_from(s, j, in_tag)
            } else {
                prepend(seq![tok(TokenKindView::Text(v), s, i, j)], lex_from(s, j, in_tag))
            }
        }
    }
}

/// The tokens of `s`: the lexer starts outside any tag.
pub open spec fn lex_spec(s: Seq<char>) -> Result<Seq<TokenView>, LexError> {
    lex_from(s, 0, false)
}

/// A brace expression or string literal starts at `k` and is never closed.
pub open spec fn unterminated_at(s: Seq<char>, k: int) -> bool {
    ||| (s[k] == '{' && find_char(s, k + 1, '}') >= s.len())
    ||| (s[k] == '"' && scan_string(s, k + 1) is None)
}

/// What lexing does at index `i`: the tokens it emits there, the index and
/// tag flag it goes on with, or its failure.
pub open spec fn lex_step(s: Seq<char>, i: int, in_tag: bool) -> Result<
    (Seq<TokenView>, int, bool),
    LexError,
> {
    let c = s[i];
    if c == '<' {
        Ok((seq![tok(TokenKindView::LAngle, s, i, i + 1)], i + 1, true))
    } else if c == '>' {
        Ok((seq![tok(TokenKindView::RAngle, s, i, i + 1)], i + 1, false))
    } else if c == '/' && i + 1 < s.len() && s[i + 1] == '/' && !in_tag {
        Ok((Seq::empty(), find_char(s, i + 2, '\n'), in_tag))
    } else if c == '/' {
        Ok((seq![tok(TokenKindView::Slash, s, i, i + 1)], i + 1, in_tag))
    } else if c == '=' {
        Ok((seq![tok(TokenKindView::Equals, s, i, i + 1)], i + 1, in_tag))
    } else if c == '{' {
        let j = find_char(s, i + 1, '}');
        if j >= s.len() {
            Err(LexError::Invalid(span_of(s, i, i + 1)))
        } else {
            Ok(
                (
                    seq![
                        tok(TokenKindView::LBrace, s, i, i + 1),
                        tok(TokenKindView::RBrace, s, j, j + 1),
                    ],
                    j + 1,
                    in_tag,
                ),
            )
        }
    } else if c == '}' {
        Ok((seq![tok(TokenKindView::RBrace, s, i, i + 1)], i + 1, in_tag))
    } else if c == '"' {
        match scan_string(s, i + 1) {
            None => Err(LexError::Invalid(span_of(s, i, s.len() as int))),
            Some((v, e)) => Ok((seq![tok(TokenKindView::Str(v), s, i, e)], e, in_tag)),
        }
    } else if is_white_space(c) {
        Ok((Seq::empty(), i + 1, in_tag))
    } else if is_ident_start(c) && in_tag {
        let j = ident_end(s, i + 1);
        Ok((seq![tok(TokenKindView::Ident(s.subrange(i, j)), s, i, j)], j, in_tag))
    } else {
        let j = text_end(s, i + 1, in_tag);
        let v = trim_newlines(s.subrange(i, j));
        if v.len() == 0 {
            Ok((Seq::empty(), j, in_tag))
        } else {
            Ok((seq![tok(TokenKindView::Text(v), s, i, j)], j, in_tag))
        }
    }
}

/// `lex_from` goes one step at a time, and each step moves forward and
/// emits no end-of-file token.
#[verifier::rlimit(60)]
pub proof fn lemma_lex_step(s: Seq<char>, i: int, in_tag: bool)
    requires
        0 <= i < s.len(),
    ensures
        lex_from(s, i, in_tag) == match lex_step(s, i, in_tag) {
            Err(e) => Err(e),
            Ok((ts, j, t)) => prepend(ts, lex_from(s, j, t)),
        },
        lex_step(s, i, in_tag) matches Ok((ts, j, t)) ==> i < j <= s.len() && forall|k: int|
            0 <= k < ts.len() ==> !(#[trigger] ts[k].kind is Eof),
{
    lemma_find_char_bounds(s, i + 1, '}');
    lemma_scan_string_bounds(s, i + 1);
    lemma_ident_end_bounds(s, i + 1);
    lemma_text_end_bounds(s, i + 1, in_tag);
    if i + 2 <= s.len() {
        lemma_find_char_bounds(s, i + 2, '\n');
    }
    if let Ok((ts, j, t)) = lex_step(s, i, in_tag) {
        if ts.len() == 0 {
            if let Ok(rest) = lex_from(s, j, t) {
                assert(ts + rest =~= rest);
            }
        }
    }
}

/// Lexing either fails or yields tokens whose last one, and only that one,
/// is the end-of-file token.
pub proof fn lemma_lex_from_ends_with_eof(s: Seq<char>, i: int, in_tag: bool)
    ensures
        lex_from(s, i, in_tag) matches Ok(ts) ==> ts.len() > 0 && ts.last() == tok(
            TokenKindView::Eof,
            s,
            s.len() as int,
            s.len() as int,
        ) && forall|k: int| 0 <= k < ts.len() - 1 ==> !(#[trigger] ts[k].kind is Eof),
    decreases s.len() - i,
{
    if 0 <= i < s.len() {
        lemma_lex_step(s, i, in_tag);
        if let Ok((ts, j, t)) = lex_step(s, i, in_tag) {
            lemma_lex_from_ends_with_eof(s, j, t);
            if let Ok(rest) = lex_from(s, j, t) {
                let all = ts + rest;
                assert(all.last() == rest.last());
                assert forall|k: int| 0 <= k < all.len() - 1 implies !(#[trigger] all[k].kind is Eof) by {
                    if k >= ts.len() {
                        assert(all[k] == rest[k - ts.len()]);
                    }
                }
            }
        }
    }
}

/// Lexing from index `i` with tag flag `in_tag` dispatches on the character
/// at index `k`: the scan reaches `k` rather than passing over it inside a
/// comment, a string literal, a brace expression, a name or a text run.
pub open spec fn scan_reaches(s: Seq<char>, i: int, in_tag: bool, k: int) -> bool
    decreases s.len() - i,
{
    if !(0 <= i < s.len()) {
        false
    } else if i == k {
        true
    } else {
        proof {
            lemma_lex_step(s, i, in_tag);
        }
        match lex_step(s, i, in_tag) {
            Ok((_, j, t)) => scan_reaches(s, j, t, k),
            Err(_) => false,
        }
    }
}

/// Lexing fails only where the scan reaches an unterminated brace expression
/// or string literal: without one, it succeeds.
pub proof fn lemma_lex_from_succeeds(s: Seq<char>, i: int, in_tag: bool)
    requires
        forall|k: int| #[trigger] scan_reaches(s, i, in_tag, k) ==> !unterminated_at(s, k),
    ensures
        lex_from(s, i, in_tag) is Ok,
    decreases s.len() - i,
{
    if 0 <= i < s.len() {
        lemma_lex_step(s, i, in_tag);
        assert(scan_reaches(s, i, in_tag, i));
        assert(!unterminated_at(s, i));
        if let Ok((ts, j, t)) = lex_step(s, i, in_tag) {
            assert forall|k: int| #[trigger] scan_reaches(s, j, t, k) implies !unterminated_at(
                s,
                k,
            ) by {
                if k != i {
                    assert(scan_reaches(s, i, in_tag, k) == scan_reaches(s, j, t, k));
                } else {
                    assert(scan_reaches(s, i, in_tag, k));
                }
            }
            lemma_lex_from_succeeds(s, j, t);
        }
    }
}

/// The view of a lexer result.
pub open spec fn lexed(r: Result<Vec<Token>, LexError>) -> Result<Seq<TokenView>, LexError> {
    match r {
        Ok(ts) => Ok(tokens_view(ts@)),
        Err(e) => Err(e),
    }
}

/// Putting tokens in front twice is putting them in front at once.
pub proof fn lemma_prepend_assoc(
    a: Seq<TokenView>,
    b: Seq<TokenView>,
    r: Result<Seq<TokenView>, LexError>,
)
    ensures
        prepend(a, prepend(b, r)) == prepend(a + b, r),
{
    if let Ok(rest) = r {
        assert(a + (b + rest) =~= (a + b) + rest);
    }
}

/// The decoded value so far in front of what is left of a string literal.
pub open spec fn join_string(v: Seq<char>, r: Option<(Seq<char>, int)>) -> Option<(Seq<char>, int)> {
    match r {
        Some((w, e)) => Some((v + w, e)),
        None => None,
    }
}

/// A position in the input.
#[derive(Clone, Copy)]
struct Mark {
    index: usize,
    offset: usize,
    line: usize,
    col: usize,
}

impl Mark {
    spec fn at(&self, s: Seq<char>) -> bool {
        &&& self.index <= s.len()
        &&& self.offset == offset_at(s, self.index as int)
        &&& self.line == line_at(s, self.index as int)
        &&& self.col == col_at(s, self.index as int)
    }
}

struct Lexer {
    chars: Vec<char>,
    index: usize,
    offset: usize,
    line: usize,
    col: usize,
    in_tag: bool,
}

fn text_stop(c: char, in_tag: bool) -> (r: bool)
    ensures
        r == is_text_stop(c, in_tag),
{
    c == '<' || c == '{' || c == '}' || c == '"' || (in_tag && (c == '/' || c == '=' || ident_start(
        c,
    )))
}

fn unescape_char(c: char) -> (r: char)
    ensures
        r == unescape(c),
{
    if c == 'n' {
        '\n'
    } else if c == 't' {
        '\t'
    } else {
        c
    }
}

/// `t[lo..hi]` without one leading and one trailing newline.
fn trim_text(t: &Vec<char>, lo: usize, hi: usize) -> (r: String)
    requires
        lo <= hi <= t@.len(),
    ensures
        r@ == trim_newlines(t@.subrange(lo as int, hi as int)),
{
    let ghost w = t@.subrange(lo as int, hi as int);
    let mut a = lo;
    let mut b = hi;
    if a < b && t[a] == '\n' {
        a = a + 1;
        assert(w.drop_first() =~= t@.subrange(a as int, b as int));
    } else {
        assert(w =~= t@.subrange(a as int, b as int));
    }
    if a < b && t[b - 1] == '\n' {
        b = b - 1;
        assert(t@.subrange(a as int, b + 1).drop_last() =~= t@.subrange(a as int, b as int));
    }
    string_of(t, a, b)
}

impl Lexer {
    spec fn wf(&self) -> bool {
        &&& self.index <= self.chars@.len()
        &&& self.offset == offset_at(self.chars@, self.index as int)
        &&& self.line == line_at(self.chars@, self.index as int)
        &&& self.col == col_at(self.chars@, self.index as int)
        &&& self.line <= self.offset + 1
        &&& self.col <= self.offset + 1
        &&& byte_len(self.chars@) < usize::MAX
    }

    spec fn same_input(&self, other: &Lexer) -> bool {
        self.chars@ == other.chars@ && self.in_tag == other.in_tag
    }

    fn new(input: &str) -> (r: Self)
        requires
            input.len() < usize::MAX,
        ensures
            r.wf(),
            r.chars@ == input@,
            r.index == 0,
            !r.in_tag,
    {
        broadcast use vstd::slice::axiom_spec_len;

        let chars = chars_of(input);
        let bytes = input.as_bytes();
        let n = bytes.len();
        proof {
            lemma_byte_len_is_utf8_len(input@);
            assert(chars@.take(0) =~= Seq::<char>::empty());
        }
        Lexer { chars, index: 0, offset: 0, line: 1, col: 1, in_tag: false }
    }

    fn peek_char(&self) -> (r: Option<char>)
        ensures
            r == if self.index < self.chars@.len() {
                Some(self.chars@[self.index as int])
            } else {
                None::<char>
            },
    {
        if self.index < self.chars.len() {
            Some(self.chars[self.index])
        } else {
            None
        }
    }

    fn peek_next_char(&self) -> (r: Option<char>)
        ensures
            r == if self.index + 1 < self.chars@.len() {
                Some(self.chars@[self.index + 1])
            } else {
                None::<char>
            },
    {
        if self.index < self.chars.len() && self.chars.len() - self.index > 1 {
            Some(self.chars[self.index + 1])
        } else {
            None
        }
    }

    fn advance_char(&mut self) -> (r: Option<char>)
        requires
            old(self).wf(),
        ensures
            final(self).wf(),
            final(self).same_input(old(self)),
            old(self).index < old(self).chars@.len() ==> final(self).index == old(self).index + 1
                && r == Some(old(self).chars@[old(self).index as int]),
            old(self).index >= old(self).chars@.len() ==> final(self).index == old(self).index
                && r is None,
    {
        if self.index >= self.chars.len() {
            return None;
        }
        let ch = self.chars[self.index];
        let w = width_of(ch);
        proof {
            lemma_offset_step(self.chars@, self.index as int);
            lemma_offset_mono(self.chars@, self.index + 1, self.index + 1);
        }
        self.index = self.index + 1;
        self.offset = self.offset + w;
        if ch == '\n' {
            self.line = self.line + 1;
            self.col = 1;
        } else if ch == '\r' {
            self.col = 1;
        } else {
            self.col = self.col + 1;
        }
        Some(ch)
    }

    fn mark(&self) -> (r: Mark)
        requires
            self.wf(),
        ensures
            r.at(self.chars@),
            r.index == self.index,
    {
        Mark { index: self.index, offset: self.offset, line: self.line, col: self.col }
    }

    fn span_from(&self, mark: Mark) -> (r: Span)
        requires
            self.wf(),
            mark.at(self.chars@),
            mark.index <= self.index,
        ensures
            r == span_of(self.chars@, mark.index as int, self.index as int),
    {
        proof {
            lemma_offset_mono(self.chars@, mark.index as int, self.index as int);
        }
        Span { line: mark.line, col: mark.col, offset: mark.offset, len: self.offset - mark.offset }
    }

    fn consume_single(&mut self, kind: TokenKind) -> (r: Token)
        requires
            old(self).wf(),
            old(self).index < old(self).chars@.len(),
        ensures
            final(self).wf(),
            final(self).chars@ == old(self).chars@,
            final(self).index == old(self).index + 1,
            final(self).in_tag == if kind is LAngle {
                true
            } else if kind is RAngle {
                false
            } else {
                old(self).in_tag
            },
            r.kind == kind,
            r.span == span_of(old(self).chars@, old(self).index as int, old(self).index + 1),
    {
        let mark = self.mark();
        self.advance_char();
        match &kind {
            TokenKind::LAngle => self.in_tag = true,
            TokenKind::RAngle => self.in_tag = false,
            _ => {},
        }
        let span = self.span_from(mark);
        Token { kind, span }
    }

    fn consume_ident(&mut self) -> (r: Token)
        requires
            old(self).wf(),
            old(self).index < old(self).chars@.len(),
        ensures
            final(self).wf(),
            final(self).same_input(old(self)),
            final(self).index == ident_end(old(self).chars@, old(self).index + 1),
            r@ == tok(
                TokenKindView::Ident(
                    old(self).chars@.subrange(old(self).index as int, final(self).index as int),
                ),
                old(self).chars@,
                old(self).index as int,
                final(self).index as int,
            ),
    {
        let ghost s = self.chars@;
        let mark = self.mark();
        self.advance_char();
        while self.index < self.chars.len() && ident_continue(self.chars[self.index])
            invariant
                self.wf(),
                self.same_input(old(self)),
                mark.at(s),
                mark.index < self.index <= s.len(),
                self.chars@ == s,
                ident_end(s, self.index as int) == ident_end(s, mark.index + 1),
            decreases s.len() - self.index,
        {
            self.advance_char();
        }
        let span = self.span_from(mark);
        let text = string_of(&self.chars, mark.index, self.index);
        Token { kind: TokenKind::Ident(text), span }
    }

    fn consume_string(&mut self) -> (r: Result<Token, LexError>)
        requires
            old(self).wf(),
            old(self).index < old(self).chars@.len(),
            old(self).chars@[old(self).index as int] == '"',
        ensures
            final(self).wf(),
            final(self).same_input(old(self)),
            match scan_string(old(self).chars@, old(self).index + 1) {
                None => r == Err::<Token, LexError>(
                    LexError::Invalid(
                        span_of(
                            old(self).chars@,
                            old(self).index as int,
                            old(self).chars@.len() as int,
                        ),
                    ),
                ),
                Some((v, e)) => final(self).index == e && (r matches Ok(t) && t@ == tok(
                    TokenKindView::Str(v),
                    old(self).chars@,
                    old(self).index as int,
                    e,
                )),
            },
    {
        let ghost s = self.chars@;
        let ghost start = self.index + 1;
        let mark = self.mark();
        self.advance_char();
        let mut value = String::new();
        assert(value@ + Seq::<char>::empty() =~= Seq::<char>::empty());
        while self.index < self.chars.len()
            invariant
                self.wf(),
                self.same_input(old(self)),
                self.chars@ == s,
                mark.at(s),
                mark.index == old(self).index,
                start == mark.index + 1,
                mark.index < self.index <= s.len(),
                scan_string(s, start) == join_string(value@, scan_string(s, self.index as int)),
            decreases s.len() - self.index,
        {
            let ghost k = self.index as int;
            let ch = self.chars[self.index];
            if ch == '\\' {
                self.advance_char();
                if self.index >= self.chars.len() {
                    return Err(LexError::Invalid(self.span_from(mark)));
                }
                let c2 = self.chars[self.index];
                let ghost before = value@;
                push_char(&mut value, unescape_char(c2));
                self.advance_char();
                proof {
                    match scan_string(s, k + 2) {
                        Some((w, e)) => {
                            assert(before + (seq![unescape(c2)] + w) =~= value@ + w);
                        },
                        None => {},
                    }
                }
            } else if ch == '"' {
                self.advance_char();
                assert(value@ + Seq::<char>::empty() =~= value@);
                let span = self.span_from(mark);
                return Ok(Token { kind: TokenKind::Str(value), span });
            } else {
                let ghost before = value@;
                push_char(&mut value, ch);
                self.advance_char();
                proof {
                    match scan_string(s, k + 1) {
                        Some((w, e)) => {
                            assert(before + (seq![ch] + w) =~= value@ + w);
                        },
                        None => {},
                    }
                }
            }
        }
        Err(LexError::Invalid(self.span_from(mark)))
    }

    fn consume_text(&mut self) -> (r: Option<Token>)
        requires
            old(self).wf(),
            old(self).index < old(self).chars@.len(),
            !is_text_stop(old(self).chars@[old(self).index as int], old(self).in_tag),
        ensures
            final(self).wf(),
            final(self).same_input(old(self)),
            final(self).index == text_end(old(self).chars@, old(self).index + 1, old(self).in_tag),
            ({
                let v = trim_newlines(
                    old(self).chars@.subrange(old(self).index as int, final(self).index as int),
                );
                match r {
                    None => v.len() == 0,
                    Some(t) => v.len() > 0 && t@ == tok(
                        TokenKindView::Text(v),
                        old(self).chars@,
                        old(self).index as int,
                        final(self).index as int,
                    ),
                }
            }),
    {
        let ghost s = self.chars@;
        let mark = self.mark();
        while self.index < self.chars.len() && !text_stop(self.chars[self.index], self.in_tag)
            invariant
                self.wf(),
                self.same_input(old(self)),
                self.chars@ == s,
                mark.at(s),
                mark.index == old(self).index,
                mark.index <= self.index <= s.len(),
                self.index == mark.index || text_end(s, self.index as int, self.in_tag) == text_end(
                    s,
                    mark.index + 1,
                    self.in_tag,
                ),
            decreases s.len() - self.index,
        {
            self.advance_char();
        }
        let span = self.span_from(mark);
        let trimmed = trim_text(&self.chars, mark.index, self.index);
        if trimmed.as_str().is_empty() {
            None
        } else {
            Some(Token { kind: TokenKind::Text(trimmed), span })
        }
    }

    fn consume_whitespace(&mut self)
        requires
            old(self).wf(),
        ensures
            final(self).wf(),
            final(self).same_input(old(self)),
            old(self).index <= final(self).index,
            old(self).index < old(self).chars@.len() && is_white_space(
                old(self).chars@[old(self).index as int],
            ) ==> old(self).index < final(self).index,
            lex_from(final(self).chars@, final(self).index as int, final(self).in_tag) == lex_from(
                old(self).chars@,
                old(self).index as int,
                old(self).in_tag,
            ),
    {
        let ghost s = self.chars@;
        while self.index < self.chars.len() && is_space(self.chars[self.index])
            invariant
                self.wf(),
                self.same_input(old(self)),
                self.chars@ == s,
                old(self).index <= self.index,
                lex_from(s, self.index as int, self.in_tag) == lex_from(
                    s,
                    old(self).index as int,
                    self.in_tag,
                ),
            decreases s.len() - self.index,
        {
            self.advance_char();
        }
    }

    fn consume_comment(&mut self)
        requires
            old(self).wf(),
            old(self).index + 1 < old(self).chars@.len(),
        ensures
            final(self).wf(),
            final(self).same_input(old(self)),
            final(self).index == find_char(old(self).chars@, old(self).index + 2, '\n'),
    {
        let ghost s = self.chars@;
        self.advance_char();
        self.advance_char();
        while self.index < self.chars.len() && self.chars[self.index] != '\n'
            invariant
                self.wf(),
                self.same_input(old(self)),
                self.chars@ == s,
                old(self).index + 2 <= self.index <= s.len(),
                find_char(s, self.index as int, '\n') == find_char(
                    s,
                    old(self).index + 2,
                    '\n',
                ),
            decreases s.len() - self.index,
        {
            self.advance_char();
        }
    }

    fn consume_expression(&mut self, open: Span) -> (r: Result<Token, LexError>)
        requires
            old(self).wf(),
        ensures
            final(self).wf(),
            final(self).same_input(old(self)),
            ({
                let j = find_char(old(self).chars@, old(self).index as int, '}');
                if j >= old(self).chars@.len() {
                    r == Err::<Token, LexError>(LexError::Invalid(open))
                } else {
                    final(self).index == j + 1 && (r matches Ok(t) && t@ == tok(
                        TokenKindView::RBrace,
                        old(self).chars@,
                        j,
                        j + 1,
                    ))
                }
            }),
    {
        let ghost s = self.chars@;
        proof {
            lemma_find_char_bounds(s, self.index as int, '}');
        }
        while self.index < self.chars.len()
            invariant
                self.wf(),
                self.same_input(old(self)),
                self.chars@ == s,
                old(self).index <= self.index <= s.len(),
                find_char(s, self.index as int, '}') == find_char(s, old(self).index as int, '}'),
            decreases s.len() - self.index,
        {
            if self.chars[self.index] == '}' {
                let t = self.consume_single(TokenKind::RBrace);
                return Ok(t);
            }
            self.advance_char();
        }
        Err(LexError::Invalid(open))
    }

    fn lex(&mut self) -> (r: Result<Vec<Token>, LexError>)
        requires
            old(self).wf(),
            old(self).index == 0,
            !old(self).in_tag,
        ensures
            lexed(r) == lex_spec(old(self).chars@),
    {
        let ghost s = self.chars@;
        let mut tokens: Vec<Token> = Vec::new();
        assert(tokens_view(tokens@) + Seq::<TokenView>::empty() =~= Seq::<TokenView>::empty());
        proof {
            lemma_prepend_assoc(Seq::empty(), Seq::empty(), lex_spec(s));
            if let Ok(ts) = lex_spec(s) {
                assert(Seq::<TokenView>::empty() + ts =~= ts);
            }
        }
        loop
            invariant
                self.wf(),
                self.chars@ == s,
                old(self).chars@ == s,
                lex_spec(s) == prepend(
                    tokens_view(tokens@),
                    lex_from(s, self.index as int, self.in_tag),
                ),
            ensures
                self.wf(),
                self.chars@ == s,
                self.index == s.len(),
                lex_spec(s) == prepend(
                    tokens_view(tokens@),
                    lex_from(s, self.index as int, self.in_tag),
                ),
            decreases s.len() - self.index,
        {
            let ghost i = self.index as int;
            let ghost t = self.in_tag;
            let ghost before = tokens_view(tokens@);
            let ch = match self.peek_char() {
                Some(ch) => ch,
                None => break,
            };
            if ch == '<' || ch == '>' || ch == '=' || ch == '}' || (ch == '/' && !(matches!(
                self.peek_next_char(),
                Some('/')
            ) && !self.in_tag)) {
                let kind = if ch == '<' {
                    TokenKind::LAngle
                } else if ch == '>' {
                    TokenKind::RAngle
                } else if ch == '=' {
                    TokenKind::Equals
                } else if ch == '}' {
                    TokenKind::RBrace
                } else {
                    TokenKind::Slash
                };
                let tk = self.consume_single(kind);
                tokens.push(tk);
                proof {
                    assert(tokens_view(tokens@) =~= before + seq![tk@]);
                    lemma_prepend_assoc(before, seq![tk@], lex_from(s, i + 1, self.in_tag));
                }
            } else if ch == '/' {
                proof {
                    lemma_find_char_bounds(s, i + 2, '\n');
                }
                self.consume_comment();
            } else if ch == '{' {
                let open = self.consume_single(TokenKind::LBrace);
                let ghost mid = self.index;
                let close = match self.consume_expression(open.span) {
                    Ok(close) => close,
                    Err(e) => {
                        return Err(e);
                    },
                };
                tokens.push(open);
                tokens.push(close);
                proof {
                    lemma_find_char_bounds(s, i + 1, '}');
                    assert(find_char(s, mid as int, '}') == find_char(s, i + 1, '}'));
                    assert(tokens_view(tokens@) =~= before + seq![open@, close@]);
                    lemma_prepend_assoc(
                        before,
                        seq![open@, close@],
                        lex_from(s, self.index as int, t),
                    );
                }
            } else if ch == '"' {
                proof {
                    lemma_scan_string_bounds(s, i + 1);
                }
                let tk = match self.consume_string() {
                    Ok(tk) => tk,
                    Err(e) => {
                        assert(scan_string(s, i + 1) is None);
                        assert(lex_from(s, i, t) == Err::<Seq<TokenView>, LexError>(e));
                        return Err(e);
                    },
                };
                tokens.push(tk);
                proof {
                    assert(tokens_view(tokens@) =~= before + seq![tk@]);
                    lemma_prepend_assoc(before, seq![tk@], lex_from(s, self.index as int, t));
                }
            } else if is_space(ch) {
                self.consume_whitespace();
            } else if ident_start(ch) && self.in_tag {
                proof {
                    lemma_ident_end_bounds(s, i + 1);
                }
                let tk = self.consume_ident();
                tokens.push(tk);
                proof {
                    assert(tokens_view(tokens@) =~= before + seq![tk@]);
                    lemma_prepend_assoc(before, seq![tk@], lex_from(s, self.index as int, t));
                }
            } else {
                proof {
                    lemma_text_end_bounds(s, i + 1, t);
                }
                match self.consume_text() {
                    Some(tk) => {
                        tokens.push(tk);
                        proof {
                            assert(tokens_view(tokens@) =~= before + seq![tk@]);
                            lemma_prepend_assoc(
                                before,
                                seq![tk@],
                                lex_from(s, self.index as int, t),
                            );
                        }
                    },
                    None => {},
                }
            }
        }
        let eof = Token {
            kind: TokenKind::Eof,
            span: Span { line: self.line, col: self.col, offset: self.offset, len: 0 },
        };
        let ghost before = tokens_view(tokens@);
        tokens.push(eof);
        proof {
            assert(tokens_view(tokens@) =~= before + seq![eof@]);
        }
        Ok(tokens)
    }
}

/// Tokenizes `input`; see `lex_spec`.
pub fn lex(input: &str) -> (r: Result<Vec<Token>, LexError>)
    requires
        input.len() < usize::MAX,
    ensures
        lexed(r) == lex_spec(input@),
        r matches Ok(ts) ==> ts@.len() > 0 && ts@.last().kind is Eof && ts@.last().span.len == 0
            && ts@.last().span.offset == input.len() && forall|k: int|
            0 <= k < ts@.len() - 1 ==> !(#[trigger] ts@[k].kind is Eof),
        (forall|k: int| #[trigger] scan_reaches(input@, 0, false, k) ==> !unterminated_at(input@, k))
            ==> r is Ok,
{
    let mut lexer = Lexer::new(input);
    let r = lexer.lex();
    proof {
        lemma_lex_from_ends_with_eof(input@, 0, false);
        lemma_byte_len_is_utf8_len(input@);
        assert(input@.take(input@.len() as int) =~= input@);
        if forall|k: int| #[trigger] scan_reaches(input@, 0, false, k) ==> !unterminated_at(input@, k) {
            lemma_lex_from_succeeds(input@, 0, false);
        }
        if let Ok(ts) = &r {
            assert forall|k: int| 0 <= k < ts@.len() implies #[trigger] ts@[k].kind@ == tokens_view(
                ts@,
            )[k].kind by {}
        }
    }
    r
}

} // verus!

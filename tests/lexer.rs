use ravensone::{lex, LexError, Span, TokenKind};

fn kinds(src: &str) -> Vec<TokenKind> {
    lex(src).unwrap().into_iter().map(|t| t.kind).collect()
}

#[test]
fn lexes_simple_element() {
    let tokens = lex("<div>Hello</div>").unwrap();
    let kinds: Vec<_> = tokens.into_iter().map(|t| t.kind).collect();
    assert_eq!(
        kinds,
        vec![
            TokenKind::LAngle,
            TokenKind::Ident("div".into()),
            TokenKind::RAngle,
            TokenKind::Text("Hello".into()),
            TokenKind::LAngle,
            TokenKind::Slash,
            TokenKind::Ident("div".into()),
            TokenKind::RAngle,
            TokenKind::Eof,
        ]
    );
}

#[test]
fn lexes_attribute_string() {
    let tokens = lex("<button class=\"cta\"></button>").unwrap();
    let kinds: Vec<_> = tokens.into_iter().map(|t| t.kind).collect();
    assert_eq!(kinds[0], TokenKind::LAngle);
    assert_eq!(kinds[1], TokenKind::Ident("button".into()));
    assert_eq!(kinds[2], TokenKind::Ident("class".into()));
    assert_eq!(kinds[3], TokenKind::Equals);
    assert_eq!(kinds[4], TokenKind::Str("cta".into()));
}

#[test]
fn lexes_self_closing_without_space() {
    assert_eq!(
        kinds("<img/>"),
        vec![
            TokenKind::LAngle,
            TokenKind::Ident("img".into()),
            TokenKind::Slash,
            TokenKind::RAngle,
            TokenKind::Eof,
        ]
    );
}

#[test]
fn lexes_expression_attribute_as_brace_pair() {
    assert_eq!(
        kinds("<input checked={isChecked}/>"),
        vec![
            TokenKind::LAngle,
            TokenKind::Ident("input".into()),
            TokenKind::Ident("checked".into()),
            TokenKind::Equals,
            TokenKind::LBrace,
            TokenKind::RBrace,
            TokenKind::Slash,
            TokenKind::RAngle,
            TokenKind::Eof,
        ]
    );
}

#[test]
fn empty_input_is_one_eof_token() {
    let tokens = lex("").unwrap();
    assert_eq!(tokens.len(), 1);
    assert_eq!(tokens[0].kind, TokenKind::Eof);
    assert_eq!(tokens[0].span, Span { line: 1, col: 1, offset: 0, len: 0 });
}

#[test]
fn input_ends_with_exactly_one_eof() {
    let tokens = lex("<a x=\"1\">t {y} </a> // done\n").unwrap();
    let eofs = tokens.iter().filter(|t| t.kind == TokenKind::Eof).count();
    assert_eq!(eofs, 1);
    assert_eq!(tokens.last().unwrap().kind, TokenKind::Eof);
}

#[test]
fn decodes_string_escapes() {
    assert_eq!(
        kinds("<a t=\"q\\\"b\\\\n\\nt\\tz\\x\">"),
        vec![
            TokenKind::LAngle,
            TokenKind::Ident("a".into()),
            TokenKind::Ident("t".into()),
            TokenKind::Equals,
            TokenKind::Str("q\"b\\n\nt\tzx".into()),
            TokenKind::RAngle,
            TokenKind::Eof,
        ]
    );
}

#[test]
fn unterminated_string_fails_at_its_quote() {
    let err = lex("<a t=\"abc").unwrap_err();
    assert_eq!(err, LexError::Invalid(Span { line: 1, col: 6, offset: 5, len: 4 }));
}

#[test]
fn unterminated_brace_fails_at_the_brace() {
    let err = lex("x\n{abc").unwrap_err();
    assert_eq!(err, LexError::Invalid(Span { line: 2, col: 1, offset: 2, len: 1 }));
}

#[test]
fn comment_outside_tag_is_dropped() {
    assert_eq!(
        kinds("// note\n<b/>"),
        vec![
            TokenKind::LAngle,
            TokenKind::Ident("b".into()),
            TokenKind::Slash,
            TokenKind::RAngle,
            TokenKind::Eof,
        ]
    );
}

#[test]
fn text_keeps_inner_space_and_drops_one_trailing_newline() {
    assert_eq!(
        kinds("<p>a b\n</p>"),
        vec![
            TokenKind::LAngle,
            TokenKind::Ident("p".into()),
            TokenKind::RAngle,
            TokenKind::Text("a b".into()),
            TokenKind::LAngle,
            TokenKind::Slash,
            TokenKind::Ident("p".into()),
            TokenKind::RAngle,
            TokenKind::Eof,
        ]
    );
}

#[test]
fn spans_count_bytes_lines_and_columns() {
    let tokens = lex("é\n<ab>").unwrap();
    assert_eq!(tokens[0].kind, TokenKind::Text("é".into()));
    assert_eq!(tokens[0].span, Span { line: 1, col: 1, offset: 0, len: 3 });
    assert_eq!(tokens[1].kind, TokenKind::LAngle);
    assert_eq!(tokens[1].span, Span { line: 2, col: 1, offset: 3, len: 1 });
    assert_eq!(tokens[2].kind, TokenKind::Ident("ab".into()));
    assert_eq!(tokens[2].span, Span { line: 2, col: 2, offset: 4, len: 2 });
    assert_eq!(tokens[4].span, Span { line: 2, col: 5, offset: 7, len: 0 });
}

#[test]
fn unicode_space_is_skipped() {
    assert_eq!(
        kinds("\u{3000}<i/>"),
        vec![
            TokenKind::LAngle,
            TokenKind::Ident("i".into()),
            TokenKind::Slash,
            TokenKind::RAngle,
            TokenKind::Eof,
        ]
    );
}

#[test]
fn span_end_offset_adds_length() {
    let span = Span { line: 1, col: 1, offset: 4, len: 3 };
    assert_eq!(span.end_offset(), 7);
}

#[test]
fn brace_inside_a_string_is_not_an_expression() {
    let src = "<a t=\"{\">";
    let tokens = lex(src).unwrap();
    assert_eq!(tokens[4].kind, TokenKind::Str("{".into()));
    let eof = tokens.last().unwrap();
    assert_eq!(eof.kind, TokenKind::Eof);
    assert_eq!(eof.span.len, 0);
    assert_eq!(eof.span.offset, src.len());
}

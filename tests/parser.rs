use ravensone::{lex, parse, to_tsx, Attr, AttrValue, Document, Node, ParseError, Span, Token, TokenKind};

fn parse_src(src: &str) -> Result<Document, ParseError> {
    let tokens = lex(src).unwrap();
    parse(&tokens, src)
}

#[test]
fn parses_simple_element() {
    let src = "<div>Hello</div>";
    let tokens = lex(src).unwrap();
    let doc = parse(&tokens, src).unwrap();
    assert_eq!(doc.children.len(), 1);
    match &doc.children[0] {
        Node::Element { name, children, .. } => {
            assert_eq!(name, "div");
            assert_eq!(children.len(), 1);
        }
        _ => panic!("expected element"),
    }
}

#[test]
fn parses_self_closing_without_space() {
    let doc = parse_src("<img/>").unwrap();
    assert_eq!(
        doc,
        Document { children: vec![Node::Element { name: "img".into(), attrs: vec![], children: vec![] }] }
    );
}

#[test]
fn recovers_expression_attribute_from_source() {
    let doc = parse_src("<input class=\"cta\" checked={ isChecked }/>").unwrap();
    assert_eq!(
        doc,
        Document {
            children: vec![Node::Element {
                name: "input".into(),
                attrs: vec![
                    Attr { name: "class".into(), value: AttrValue::Str("cta".into()) },
                    Attr { name: "checked".into(), value: AttrValue::Expr("isChecked".into()) },
                ],
                children: vec![],
            }],
        }
    );
}

#[test]
fn mismatched_close_names_the_closing_identifier() {
    let err = parse_src("<a><b></a></b>").unwrap_err();
    assert_eq!(
        err,
        ParseError::MismatchedClose {
            expected: "b".into(),
            found: "a".into(),
            span: Span { line: 1, col: 9, offset: 8, len: 1 },
        }
    );
}

#[test]
fn unclosed_tag_names_the_opening_tag() {
    let err = parse_src("<div>").unwrap_err();
    assert_eq!(err, ParseError::UnclosedTag("div".into(), Span { line: 1, col: 1, offset: 0, len: 1 }));
}

#[test]
fn stray_token_is_unexpected() {
    let err = parse_src("}").unwrap_err();
    assert_eq!(
        err,
        ParseError::Unexpected {
            found: TokenKind::RBrace,
            span: Span { line: 1, col: 1, offset: 0, len: 1 },
            expected: "element, text, or expression",
        }
    );
}

#[test]
fn bad_tag_end_is_unexpected() {
    let err = parse_src("<a b=\"1\" =>").unwrap_err();
    assert_eq!(
        err,
        ParseError::Unexpected {
            found: TokenKind::Equals,
            span: Span { line: 1, col: 10, offset: 9, len: 1 },
            expected: "`>` or `/>`",
        }
    );
}

#[test]
fn bad_attribute_value_is_unexpected() {
    let err = parse_src("<a b=c>").unwrap_err();
    assert_eq!(
        err,
        ParseError::Unexpected {
            found: TokenKind::Ident("c".into()),
            span: Span { line: 1, col: 6, offset: 5, len: 1 },
            expected: "string literal or expression",
        }
    );
}

#[test]
fn expression_slice_out_of_source_is_unexpected() {
    let tokens = vec![
        Token { kind: TokenKind::LBrace, span: Span { line: 1, col: 1, offset: 0, len: 1 } },
        Token { kind: TokenKind::RBrace, span: Span { line: 1, col: 9, offset: 40, len: 1 } },
        Token { kind: TokenKind::Eof, span: Span { line: 1, col: 10, offset: 41, len: 0 } },
    ];
    let err = parse(&tokens, "{x}").unwrap_err();
    assert_eq!(
        err,
        ParseError::Unexpected {
            found: TokenKind::RBrace,
            span: Span { line: 1, col: 9, offset: 40, len: 1 },
            expected: "expression contents",
        }
    );
}

#[test]
fn expression_slice_off_a_char_boundary_is_unexpected() {
    let tokens = vec![
        Token { kind: TokenKind::LBrace, span: Span { line: 1, col: 1, offset: 0, len: 2 } },
        Token { kind: TokenKind::RBrace, span: Span { line: 1, col: 3, offset: 3, len: 1 } },
        Token { kind: TokenKind::Eof, span: Span { line: 1, col: 4, offset: 4, len: 0 } },
    ];
    assert!(parse(&tokens, "{é}").is_err());
}

#[test]
fn expressions_and_text_nest() {
    let doc = parse_src("<div><h1>{title}</h1>hi</div>{x}").unwrap();
    assert_eq!(
        doc,
        Document {
            children: vec![
                Node::Element {
                    name: "div".into(),
                    attrs: vec![],
                    children: vec![
                        Node::Element {
                            name: "h1".into(),
                            attrs: vec![],
                            children: vec![Node::Expr("title".into())],
                        },
                        Node::Text("hi".into()),
                    ],
                },
                Node::Expr("x".into()),
            ],
        }
    );
}

#[test]
fn rendered_document_parses_back() {
    let doc = Document {
        children: vec![Node::Element {
            name: "p".into(),
            attrs: vec![
                Attr { name: "title".into(), value: AttrValue::Str("a \"q\"\nb".into()) },
                Attr { name: "on-click".into(), value: AttrValue::Expr("go(1)".into()) },
            ],
            children: vec![
                Node::Text("Hello there".into()),
                Node::Expr("who".into()),
                Node::Element { name: "br".into(), attrs: vec![], children: vec![] },
            ],
        }],
    };
    let text = to_tsx(&doc);
    let tokens = lex(&text).unwrap();
    assert_eq!(parse(&tokens, &text).unwrap(), doc);
}

use ravensone::codegen::escape_string;
use ravensone::{init, to_tsx, Attr, AttrValue, Document, Node};

#[test]
fn renders_simple_tree() {
    let doc = Document {
        children: vec![Node::Element {
            name: "div".into(),
            attrs: vec![],
            children: vec![Node::Text("Hello".into())],
        }],
    };
    assert_eq!(to_tsx(&doc), "<div>Hello</div>");
}

#[test]
fn renders_empty_element_self_closing() {
    let doc = Document {
        children: vec![Node::Element {
            name: "img".into(),
            attrs: vec![],
            children: vec![],
        }],
    };
    assert_eq!(to_tsx(&doc), "<img />");
}

#[test]
fn renders_attributes_in_order() {
    let doc = Document {
        children: vec![Node::Element {
            name: "input".into(),
            attrs: vec![
                Attr { name: "class".into(), value: AttrValue::Str("cta".into()) },
                Attr { name: "checked".into(), value: AttrValue::Expr("isChecked".into()) },
                Attr { name: "class".into(), value: AttrValue::Str("b".into()) },
            ],
            children: vec![],
        }],
    };
    assert_eq!(to_tsx(&doc), "<input class=\"cta\" checked={isChecked} class=\"b\" />");
}

#[test]
fn escapes_attribute_strings() {
    let doc = Document {
        children: vec![Node::Element {
            name: "a".into(),
            attrs: vec![Attr {
                name: "t".into(),
                value: AttrValue::Str("say \"hi\"\nback\\slash\ttab".into()),
            }],
            children: vec![],
        }],
    };
    assert_eq!(to_tsx(&doc), "<a t=\"say \\\"hi\\\"\\nback\\\\slash\\ttab\" />");
}

#[test]
fn escape_string_writes_escapes() {
    assert_eq!(escape_string("a\"b"), "a\\\"b");
    assert_eq!(escape_string("x\ny"), "x\\ny");
    assert_eq!(escape_string("plain"), "plain");
}

#[test]
fn renders_siblings_and_expressions() {
    let doc = Document {
        children: vec![
            Node::Text("hi ".into()),
            Node::Expr("name".into()),
            Node::Element {
                name: "ul".into(),
                attrs: vec![],
                children: vec![Node::Element { name: "li".into(), attrs: vec![], children: vec![] }],
            },
        ],
    };
    assert_eq!(to_tsx(&doc), "hi {name}<ul><li /></ul>");
}

#[test]
fn empty_document_renders_empty() {
    assert_eq!(to_tsx(&Document { children: vec![] }), "");
}

#[test]
fn init_returns_greeting() {
    assert_eq!(init(), "initialized");
}

#[test]
fn clone_keeps_the_tree() {
    let doc = Document {
        children: vec![Node::Element {
            name: "ul".into(),
            attrs: vec![Attr { name: "id".into(), value: AttrValue::Expr("x".into()) }],
            children: vec![Node::Text("a".into()), Node::Element { name: "li".into(), attrs: vec![], children: vec![] }],
        }],
    };
    let copy = doc.clone();
    assert_eq!(copy, doc);
    assert_eq!(to_tsx(&copy), "<ul id={x}>a<li /></ul>");
}

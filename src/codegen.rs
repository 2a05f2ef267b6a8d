//! Prints a markup tree as JSX-flavoured text.

use vstd::prelude::*;
use vstd::string::StringExecFns;
use crate::ast::{
    Attr, AttrValue, AttrValueView, AttrView, Document, Node, NodeView, attrs_view, node_view,
    nodes_view,
};
use crate::text::{chars_of, push_char};

verus! {

broadcast use {vstd::seq::group_seq_axioms, vstd::std_specs::vec::group_vec_axioms};

/// How one character of an attribute string is written between quotes.
pub open spec fn escape_char(c: char) -> Seq<char> {
    if c == '"' {
        seq!['\\', '"']
    } else if c == '\\' {
        seq!['\\', '\\']
    } else if c == '\n' {
        seq!['\\', 'n']
    } else if c == '\t' {
        seq!['\\', 't']
    } else {
        seq![c]
    }
}

/// An attribute string written with `"`, `\`, newline and tab escaped.
pub open spec fn escape_spec(t: Seq<char>) -> Seq<char>
    decreases t.len(),
{
    if t.len() == 0 {
        Seq::empty()
    } else {
        escape_spec(t.drop_last()) + escape_char(t.last())
    }
}

/// The text of one attribute, with its leading space.
pub open spec fn render_attr_spec(a: AttrView) -> Seq<char> {
    seq![' '] + a.name + seq!['='] + match a.value {
        AttrValueView::Str(v) => seq!['"'] + escape_spec(v) + seq!['"'],
        AttrValueView::Expr(c) => seq!['{'] + c + seq!['}'],
    }
}

/// The text of attributes, one after the other.
pub open spec fn render_attrs_spec(attrs: Seq<AttrView>) -> Seq<char>
    decreases attrs.len(),
{
    if attrs.len() == 0 {
        Seq::empty()
    } else {
        render_attrs_spec(attrs.drop_last()) + render_attr_spec(attrs.last())
    }
}

/// The text of one node.
pub open spec fn render_node_spec(n: NodeView) -> Seq<char>
    decreases n,
{
    match n {
        NodeView::Element { name, attrs, children } => {
            seq!['<'] + name + render_attrs_spec(attrs) + if children.len() == 0 {
                seq![' ', '/', '>']
            } else {
                seq!['>'] + render_nodes_spec(children) + seq!['<', '/'] + name + seq!['>']
            }
        },
        NodeView::Text(t) => t,
        NodeView::Expr(c) => seq!['{'] + c + seq!['}'],
    }
}

/// The text of a sequence of sibling nodes, one after the other.
pub open spec fn render_nodes_spec(ns: Seq<NodeView>) -> Seq<char>
    decreases ns,
{
    if ns.len() == 0 {
        Seq::empty()
    } else {
        proof {
            assert(decreases_to!(ns => ns[ns.len() - 1]));
            assert(decreases_to!(ns => ns.subrange(0, ns.len() - 1)));
        }
        render_nodes_spec(ns.subrange(0, ns.len() - 1)) + render_node_spec(ns[ns.len() - 1])
    }
}

/// An element without children is written as an opening tag closed by
/// ` />`, with no closing tag of its own.
pub proof fn lemma_self_closing(name: Seq<char>, attrs: Seq<AttrView>)
    ensures
        ({
            let text = render_node_spec(NodeView::Element { name, attrs, children: Seq::empty() });
            &&& text == seq!['<'] + name + render_attrs_spec(attrs) + seq![' ', '/', '>']
            &&& text.subrange(text.len() - 3, text.len() as int) == seq![' ', '/', '>']
        }),
{
    let text = render_node_spec(NodeView::Element { name, attrs, children: Seq::empty() });
    assert(text.subrange(text.len() - 3, text.len() as int) =~= seq![' ', '/', '>']);
}

/// Escaping works character by character.
pub proof fn lemma_escape_concat(a: Seq<char>, b: Seq<char>)
    ensures
        escape_spec(a + b) == escape_spec(a) + escape_spec(b),
    decreases b.len(),
{
    if b.len() == 0 {
        assert(a + b =~= a);
        assert(escape_spec(a) + escape_spec(b) =~= escape_spec(a));
    } else {
        assert((a + b).drop_last() =~= a + b.drop_last());
        lemma_escape_concat(a, b.drop_last());
        assert(escape_spec(a + b) =~= escape_spec(a) + escape_spec(b));
    }
}

/// An escaped attribute string holds no newline character.
pub proof fn lemma_escape_has_no_newline(t: Seq<char>)
    ensures
        forall|j: int| 0 <= j < escape_spec(t).len() ==> #[trigger] escape_spec(t)[j] != '\n',
    decreases t.len(),
{
    if t.len() > 0 {
        lemma_escape_has_no_newline(t.drop_last());
        let e = escape_spec(t);
        let front = escape_spec(t.drop_last());
        assert forall|j: int| 0 <= j < e.len() implies #[trigger] e[j] != '\n' by {
            if j >= front.len() {
                assert(e[j] == escape_char(t.last())[j - front.len()]);
            } else {
                assert(e[j] == front[j]);
            }
        }
    }
}

/// A double quote in an attribute string is written as `\"`, and a newline
/// as the two characters `\n`, at the place that the characters before it
/// leave.
pub proof fn lemma_escape_quote_and_newline(t: Seq<char>, i: int)
    requires
        0 <= i < t.len(),
    ensures
        ({
            let e = escape_spec(t);
            let p = escape_spec(t.take(i)).len() as int;
            &&& t[i] == '"' ==> e.subrange(p, p + 2) == seq!['\\', '"']
            &&& t[i] == '\n' ==> e.subrange(p, p + 2) == seq!['\\', 'n']
        }),
{
    let front = t.take(i);
    let back = t.skip(i + 1);
    assert(t =~= front + seq![t[i]] + back);
    lemma_escape_concat(front + seq![t[i]], back);
    lemma_escape_concat(front, seq![t[i]]);
    assert(seq![t[i]].drop_last() =~= Seq::<char>::empty());
    assert(escape_spec(Seq::<char>::empty()) == Seq::<char>::empty());
    assert(seq![t[i]].last() == t[i]);
    assert(escape_spec(seq![t[i]]) =~= escape_char(t[i]));
    let e = escape_spec(t);
    let p = escape_spec(front).len() as int;
    if t[i] == '"' || t[i] == '\n' {
        assert(e.subrange(p, p + 2) =~= escape_char(t[i]));
    }
}

/// Prints a document: its top-level nodes one after the other.
pub fn to_tsx(doc: &Document) -> (r: String)
    ensures
        r@ == render_nodes_spec(doc@),
{
    let mut out = String::new();
    render_children(&doc.children, &mut out);
    out
}

fn render_children(children: &Vec<Node>, out: &mut String)
    ensures
        final(out)@ == old(out)@ + render_nodes_spec(nodes_view(children@)),
    decreases children, 1nat,
{
    let mut i: usize = 0;
    while i < children.len()
        invariant
            i <= children@.len(),
            out@ == old(out)@ + render_nodes_spec(nodes_view(children@.subrange(0, i as int))),
        decreases children@.len() - i,
    {
        let ghost before = out@;
        proof {
            assert(decreases_to!(children => children@));
            assert(decreases_to!(children@ => children@[i as int]));
        }
        render_node(&children[i], out);
        proof {
            let pre = children@.subrange(0, i as int);
            let next = children@.subrange(0, i + 1);
            assert(next.subrange(0, i as int) =~= pre);
            assert(nodes_view(next) == nodes_view(pre).push(node_view(children@[i as int])));
            let nv = nodes_view(next);
            assert(nv.subrange(0, nv.len() - 1) =~= nodes_view(pre));
        }
        i = i + 1;
    }
    assert(children@.subrange(0, children@.len() as int) =~= children@);
}

fn render_node(node: &Node, out: &mut String)
    ensures
        final(out)@ == old(out)@ + render_node_spec(node@),
    decreases node, 0nat,
{
    match node {
        Node::Element { name, attrs, children } => {
            push_char(out, '<');
            out.append(name.as_str());
            render_attrs(attrs, out);
            if children.len() == 0 {
                push_char(out, ' ');
                push_char(out, '/');
                push_char(out, '>');
            } else {
                push_char(out, '>');
                render_children(children, out);
                push_char(out, '<');
                push_char(out, '/');
                out.append(name.as_str());
                push_char(out, '>');
            }
        },
        Node::Text(text) => out.append(text.as_str()),
        Node::Expr(code) => {
            push_char(out, '{');
            out.append(code.as_str());
            push_char(out, '}');
        },
    }
}

fn render_attrs(attrs: &Vec<Attr>, out: &mut String)
    ensures
        final(out)@ == old(out)@ + render_attrs_spec(attrs_view(attrs@)),
{
    let mut i: usize = 0;
    while i < attrs.len()
        invariant
            i <= attrs@.len(),
            out@ == old(out)@ + render_attrs_spec(attrs_view(attrs@.subrange(0, i as int))),
        decreases attrs@.len() - i,
    {
        let attr = &attrs[i];
        push_char(out, ' ');
        out.append(attr.name.as_str());
        push_char(out, '=');
        match &attr.value {
            AttrValue::Str(value) => {
                push_char(out, '"');
                let escaped = escape_string(value.as_str());
                out.append(escaped.as_str());
                push_char(out, '"');
            },
            AttrValue::Expr(code) => {
                push_char(out, '{');
                out.append(code.as_str());
                push_char(out, '}');
            },
        }
        proof {
            let pre = attrs_view(attrs@.subrange(0, i as int));
            let next = attrs_view(attrs@.subrange(0, i + 1));
            assert(next.drop_last() =~= pre);
        }
        i = i + 1;
    }
    assert(attrs@.subrange(0, attrs@.len() as int) =~= attrs@);
}

/// `input` with `"`, `\`, newline and tab written as escapes.
pub fn escape_string(input: &str) -> (r: String)
    ensures
        r@ == escape_spec(input@),
{
    let chars = chars_of(input);
    let mut out = String::new();
    let mut i: usize = 0;
    while i < chars.len()
        invariant
            i <= chars@.len(),
            chars@ == input@,
            out@ == escape_spec(chars@.subrange(0, i as int)),
        decreases chars@.len() - i,
    {
        let c = chars[i];
        if c == '"' {
            push_char(&mut out, '\\');
            push_char(&mut out, '"');
        } else if c == '\\' {
            push_char(&mut out, '\\');
            push_char(&mut out, '\\');
        } else if c == '\n' {
            push_char(&mut out, '\\');
            push_char(&mut out, 'n');
        } else if c == '\t' {
            push_char(&mut out, '\\');
            push_char(&mut out, 't');
        } else {
            push_char(&mut out, c);
        }
        proof {
            assert(chars@.subrange(0, i + 1).drop_last() =~= chars@.subrange(0, i as int));
        }
        i = i + 1;
    }
    assert(chars@.subrange(0, chars@.len() as int) =~= chars@);
    out
}

/// A fixed greeting of the generator module.
pub fn init() -> (r: &'static str)
    ensures
        r@ == "initialized"@,
{
    "initialized"
}

} // verus!

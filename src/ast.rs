//! The markup tree that the parser builds and the generator prints.

use vstd::prelude::*;

verus! {

broadcast use {vstd::seq::group_seq_axioms, vstd::std_specs::vec::group_vec_axioms};

/// An attribute's value: a decoded string literal, or raw code that stood
/// between braces.
#[derive(Debug, Clone, PartialEq)]
pub enum AttrValue {
    Str(String),
    Expr(String),
}

/// A named attribute of an element.
#[derive(Debug, Clone, PartialEq)]
pub struct Attr {
    pub name: String,
    pub value: AttrValue,
}

/// A node of the markup: an element with attributes and children, a run of
/// text, or raw code between braces.
#[derive(Debug, PartialEq)]
pub enum Node {
    Element { name: String, attrs: Vec<Attr>, children: Vec<Node> },
    Text(String),
    Expr(String),
}

/// The nodes at the top level of the markup.
#[derive(Debug, PartialEq)]
pub struct Document {
    pub children: Vec<Node>,
}

/// An attribute value with its text seen as characters.
pub enum AttrValueView {
    Str(Seq<char>),
    Expr(Seq<char>),
}

/// An attribute with its text seen as characters.
pub struct AttrView {
    pub name: Seq<char>,
    pub value: AttrValueView,
}

/// A node with its text seen as characters and its children as a sequence.
pub enum NodeView {
    Element { name: Seq<char>, attrs: Seq<AttrView>, children: Seq<NodeView> },
    Text(Seq<char>),
    Expr(Seq<char>),
}

impl View for AttrValue {
    type V = AttrValueView;

    open spec fn view(&self) -> AttrValueView {
        match self {
            AttrValue::Str(s) => AttrValueView::Str(s@),
            AttrValue::Expr(s) => AttrValueView::Expr(s@),
        }
    }
}

impl View for Attr {
    type V = AttrView;

    open spec fn view(&self) -> AttrView {
        AttrView { name: self.name@, value: self.value@ }
    }
}

/// The views of a sequence of attributes.
pub open spec fn attrs_view(attrs: Seq<Attr>) -> Seq<AttrView> {
    attrs.map_values(|a: Attr| a@)
}

/// The view of a node.
pub open spec fn node_view(n: Node) -> NodeView
    decreases n,
{
    match n {
        Node::Element { name, attrs, children } => {
            proof {
                assert(decreases_to!(children => children@));
            }
            NodeView::Element {
                name: name@,
                attrs: attrs_view(attrs@),
                children: nodes_view(children@),
            }
        },
        Node::Text(s) => NodeView::Text(s@),
        Node::Expr(s) => NodeView::Expr(s@),
    }
}

/// The views of a sequence of nodes.
pub open spec fn nodes_view(ns: Seq<Node>) -> Seq<NodeView>
    decreases ns,
{
    if ns.len() == 0 {
        Seq::empty()
    } else {
        proof {
            assert(decreases_to!(ns => ns[ns.len() - 1]));
            assert(decreases_to!(ns => ns.subrange(0, ns.len() - 1)));
        }
        nodes_view(ns.subrange(0, ns.len() - 1)).push(node_view(ns[ns.len() - 1]))
    }
}

impl View for Node {
    type V = NodeView;

    open spec fn view(&self) -> NodeView {
        node_view(*self)
    }
}

impl View for Document {
    type V = Seq<NodeView>;

    open spec fn view(&self) -> Seq<NodeView> {
        nodes_view(self.children@)
    }
}

fn copy_attr(a: &Attr) -> (r: Attr)
    ensures
        r@ == a@,
{
    let value = match &a.value {
        AttrValue::Str(v) => AttrValue::Str(v.clone()),
        AttrValue::Expr(c) => AttrValue::Expr(c.clone()),
    };
    Attr { name: a.name.clone(), value }
}

fn copy_attrs(attrs: &Vec<Attr>) -> (r: Vec<Attr>)
    ensures
        attrs_view(r@) == attrs_view(attrs@),
{
    let mut out: Vec<Attr> = Vec::new();
    let mut i: usize = 0;
    while i < attrs.len()
        invariant
            i <= attrs@.len(),
            out@.len() == i,
            forall|k: int| 0 <= k < i ==> #[trigger] out@[k]@ == attrs@[k]@,
        decreases attrs@.len() - i,
    {
        let a = copy_attr(&attrs[i]);
        out.push(a);
        i = i + 1;
    }
    assert(attrs_view(out@) =~= attrs_view(attrs@));
    out
}

fn copy_nodes(ns: &Vec<Node>) -> (r: Vec<Node>)
    ensures
        nodes_view(r@) == nodes_view(ns@),
    decreases ns, 1nat,
{
    let mut out: Vec<Node> = Vec::new();
    let mut i: usize = 0;
    while i < ns.len()
        invariant
            i <= ns@.len(),
            nodes_view(out@) == nodes_view(ns@.subrange(0, i as int)),
        decreases ns@.len() - i,
    {
        proof {
            assert(decreases_to!(ns => ns@));
            assert(decreases_to!(ns@ => ns@[i as int]));
        }
        let n = copy_node(&ns[i]);
        let ghost before = out@;
        out.push(n);
        proof {
            assert(out@.subrange(0, before.len() as int) =~= before);
            let next = ns@.subrange(0, i + 1);
            assert(next.subrange(0, i as int) =~= ns@.subrange(0, i as int));
        }
        i = i + 1;
    }
    assert(ns@.subrange(0, ns@.len() as int) =~= ns@);
    out
}

fn copy_node(n: &Node) -> (r: Node)
    ensures
        r@ == n@,
    decreases n, 0nat,
{
    match n {
        Node::Element { name, attrs, children } => Node::Element {
            name: name.clone(),
            attrs: copy_attrs(attrs),
            children: copy_nodes(children),
        },
        Node::Text(t) => Node::Text(t.clone()),
        Node::Expr(c) => Node::Expr(c.clone()),
    }
}

impl Clone for Node {
    fn clone(&self) -> Self {
        copy_node(self)
    }
}

impl Clone for Document {
    fn clone(&self) -> Self {
        Document { children: copy_nodes(&self.children) }
    }
}

} // verus!

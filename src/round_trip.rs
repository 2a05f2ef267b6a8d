//! Printing a well-formed tree and reading it back gives the same tree.

use vstd::prelude::*;
use crate::ast::{AttrValueView, AttrView, NodeView};
use crate::codegen::{
    escape_char, escape_spec, lemma_escape_concat, render_attr_spec, render_attrs_spec,
    render_node_spec, render_nodes_spec,
};
use crate::lexer::{
    lex_spec, find_char, ident_end, is_text_stop, lemma_lex_step, lemma_prepend_assoc, lex_from, lex_step,
    prepend, scan_string, text_end, tok, trim_newlines, unescape,
};
use crate::parser::{
    ParseErrorView, byte_slice, char_index, is_closing_at, parse_spec, fuel_for, parse_attr_spec, parse_attrs_spec,
    parse_children_spec, parse_element_spec, parse_expr_spec, parse_node_spec, parse_nodes_spec,
};
use crate::text::{
    byte_len, is_ident_continue, is_ident_start, is_white_space, lemma_offset_mono, offset_at,
    trim_ws,
};
use crate::token::{TokenKindView, TokenView};

verus! {

broadcast use vstd::seq::group_seq_axioms;

/// `t` is a name: an identifier start followed by identifier characters.
pub open spec fn is_ident(t: Seq<char>) -> bool {
    &&& t.len() > 0
    &&& is_ident_start(t[0])
    &&& forall|k: int| 0 <= k < t.len() ==> #[trigger] is_ident_continue(t[k])
}

/// Code that reads back as written: no `}` and no white space at its ends.
pub open spec fn is_code(t: Seq<char>) -> bool {
    &&& forall|k: int| 0 <= k < t.len() ==> #[trigger] t[k] != '}'
    &&& trim_ws(t) == t
}

/// Text that reads back as one text token holding it: not empty, no
/// character that ends a text run, not starting with white space or with a
/// character that makes a token of its own, not ending with a newline.
pub open spec fn is_text(t: Seq<char>) -> bool {
    &&& t.len() > 0
    &&& !is_white_space(t[0])
    &&& t[0] != '>' && t[0] != '/' && t[0] != '='
    &&& t.last() != '\n'
    &&& forall|k: int| 0 <= k < t.len() ==> !#[trigger] is_text_stop(t[k], false)
}

pub open spec fn good_attr(a: AttrView) -> bool {
    &&& is_ident(a.name)
    &&& a.value matches AttrValueView::Expr(c) ==> is_code(c)
}

pub open spec fn good_attrs(attrs: Seq<AttrView>) -> bool {
    forall|k: int| 0 <= k < attrs.len() ==> #[trigger] good_attr(attrs[k])
}

/// A tree that printing and reading back leaves as it is: names are
/// identifiers, code and text read back as written, and no two texts stand
/// side by side.
pub open spec fn good_node(n: NodeView) -> bool
    decreases n,
{
    match n {
        NodeView::Element { name, attrs, children } => is_ident(name) && good_attrs(attrs)
            && good_nodes(children),
        NodeView::Text(t) => is_text(t),
        NodeView::Expr(c) => is_code(c),
    }
}

pub open spec fn good_nodes(ns: Seq<NodeView>) -> bool
    decreases ns,
{
    if ns.len() == 0 {
        true
    } else {
        proof {
            assert(decreases_to!(ns => ns[0]));
            assert(decreases_to!(ns => ns.subrange(1, ns.len() as int)));
        }
        &&& good_node(ns[0])
        &&& good_nodes(ns.subrange(1, ns.len() as int))
        &&& !(ns[0] is Text && ns.len() > 1 && ns[1] is Text)
    }
}

pub proof fn lemma_render_attrs_concat(a: Seq<AttrView>, b: Seq<AttrView>)
    ensures
        render_attrs_spec(a + b) == render_attrs_spec(a) + render_attrs_spec(b),
    decreases b.len(),
{
    if b.len() == 0 {
        assert(a + b =~= a);
        assert(render_attrs_spec(a) + render_attrs_spec(b) =~= render_attrs_spec(a));
    } else {
        assert((a + b).drop_last() =~= a + b.drop_last());
        lemma_render_attrs_concat(a, b.drop_last());
        assert(render_attrs_spec(a + b) =~= render_attrs_spec(a) + render_attrs_spec(b));
    }
}

pub proof fn lemma_render_attrs_front(attrs: Seq<AttrView>)
    requires
        attrs.len() > 0,
    ensures
        render_attrs_spec(attrs) == render_attr_spec(attrs[0]) + render_attrs_spec(
            attrs.drop_first(),
        ),
{
    assert(attrs =~= seq![attrs[0]] + attrs.drop_first());
    lemma_render_attrs_concat(seq![attrs[0]], attrs.drop_first());
    assert(seq![attrs[0]].drop_last() =~= Seq::<AttrView>::empty());
    assert(render_attrs_spec(Seq::<AttrView>::empty()) == Seq::<char>::empty());
    assert(render_attrs_spec(seq![attrs[0]]) =~= render_attr_spec(attrs[0]));
}

pub proof fn lemma_render_nodes_concat(a: Seq<NodeView>, b: Seq<NodeView>)
    ensures
        render_nodes_spec(a + b) == render_nodes_spec(a) + render_nodes_spec(b),
    decreases b.len(),
{
    if b.len() == 0 {
        assert(a + b =~= a);
        assert(render_nodes_spec(a) + render_nodes_spec(b) =~= render_nodes_spec(a));
    } else {
        assert((a + b).subrange(0, (a + b).len() - 1) =~= a + b.subrange(0, b.len() - 1));
        lemma_render_nodes_concat(a, b.subrange(0, b.len() - 1));
        assert(render_nodes_spec(a + b) =~= render_nodes_spec(a) + render_nodes_spec(b));
    }
}

pub proof fn lemma_render_nodes_front(ns: Seq<NodeView>)
    requires
        ns.len() > 0,
    ensures
        render_nodes_spec(ns) == render_node_spec(ns[0]) + render_nodes_spec(ns.drop_first()),
{
    assert(ns =~= seq![ns[0]] + ns.drop_first());
    lemma_render_nodes_concat(seq![ns[0]], ns.drop_first());
    assert(seq![ns[0]].subrange(0, 0) =~= Seq::<NodeView>::empty());
    assert(render_nodes_spec(Seq::<NodeView>::empty()) == Seq::<char>::empty());
    assert(render_nodes_spec(seq![ns[0]]) =~= render_node_spec(ns[0]));
}

/// `t` stands in `s` at `i`.
pub open spec fn chars_at(s: Seq<char>, i: int, t: Seq<char>) -> bool {
    0 <= i && i + t.len() <= s.len() && s.subrange(i, i + t.len()) == t
}

proof fn lemma_chars_at_split(s: Seq<char>, i: int, a: Seq<char>, b: Seq<char>)
    requires
        chars_at(s, i, a + b),
    ensures
        chars_at(s, i, a),
        chars_at(s, i + a.len(), b),
{
    let w = s.subrange(i, i + a.len() + b.len());
    assert(w == a + b);
    assert(s.subrange(i, i + a.len()) =~= w.subrange(0, a.len() as int));
    assert(w.subrange(0, a.len() as int) =~= a);
    assert(s.subrange(i + a.len(), i + a.len() + b.len()) =~= w.subrange(
        a.len() as int,
        w.len() as int,
    ));
    assert(w.subrange(a.len() as int, w.len() as int) =~= b);
}

proof fn lemma_chars_at_index(s: Seq<char>, i: int, t: Seq<char>, k: int)
    requires
        chars_at(s, i, t),
        0 <= k < t.len(),
    ensures
        s[i + k] == t[k],
{
    assert(s.subrange(i, i + t.len())[k] == s[i + k]);
}

/// The tokens of one attribute printed at `p` (its leading space included).
pub open spec fn toks_attr(s: Seq<char>, p: int, a: AttrView) -> Seq<TokenView> {
    let e = p + 1 + a.name.len();
    seq![
        tok(TokenKindView::Ident(a.name), s, p + 1, e),
        tok(TokenKindView::Equals, s, e, e + 1),
    ] + match a.value {
        AttrValueView::Str(v) => seq![
            tok(TokenKindView::Str(v), s, e + 1, e + 3 + escape_spec(v).len()),
        ],
        AttrValueView::Expr(c) => seq![
            tok(TokenKindView::LBrace, s, e + 1, e + 2),
            tok(TokenKindView::RBrace, s, e + 2 + c.len(), e + 3 + c.len()),
        ],
    }
}

pub open spec fn toks_attrs(s: Seq<char>, p: int, attrs: Seq<AttrView>) -> Seq<TokenView>
    decreases attrs.len(),
{
    if attrs.len() == 0 {
        Seq::empty()
    } else {
        toks_attr(s, p, attrs[0]) + toks_attrs(
            s,
            p + render_attr_spec(attrs[0]).len(),
            attrs.drop_first(),
        )
    }
}

/// The tokens of an opening tag without its closing `>` or `/>`.
pub open spec fn toks_open(s: Seq<char>, i: int, name: Seq<char>, attrs: Seq<AttrView>) -> Seq<
    TokenView,
> {
    seq![
        tok(TokenKindView::LAngle, s, i, i + 1),
        tok(TokenKindView::Ident(name), s, i + 1, i + 1 + name.len()),
    ] + toks_attrs(s, i + 1 + name.len(), attrs)
}

/// The tokens of one node printed at `i`.
pub open spec fn toks_node(s: Seq<char>, i: int, n: NodeView) -> Seq<TokenView>
    decreases n,
{
    match n {
        NodeView::Text(t) => seq![tok(TokenKindView::Text(t), s, i, i + t.len())],
        NodeView::Expr(c) => seq![
            tok(TokenKindView::LBrace, s, i, i + 1),
            tok(TokenKindView::RBrace, s, i + 1 + c.len(), i + 2 + c.len()),
        ],
        NodeView::Element { name, attrs, children } => {
            let p = i + 1 + name.len();
            let q = p + render_attrs_spec(attrs).len();
            let open = toks_open(s, i, name, attrs);
            if children.len() == 0 {
                open + seq![
                    tok(TokenKindView::Slash, s, q + 1, q + 2),
                    tok(TokenKindView::RAngle, s, q + 2, q + 3),
                ]
            } else {
                let r = q + 1 + render_nodes_spec(children).len();
                open + seq![tok(TokenKindView::RAngle, s, q, q + 1)] + toks_nodes(s, q + 1, children)
                    + seq![
                    tok(TokenKindView::LAngle, s, r, r + 1),
                    tok(TokenKindView::Slash, s, r + 1, r + 2),
                    tok(TokenKindView::Ident(name), s, r + 2, r + 2 + name.len()),
                    tok(TokenKindView::RAngle, s, r + 2 + name.len(), r + 3 + name.len()),
                ]
            }
        },
    }
}

pub open spec fn toks_nodes(s: Seq<char>, i: int, ns: Seq<NodeView>) -> Seq<TokenView>
    decreases ns,
{
    if ns.len() == 0 {
        Seq::empty()
    } else {
        proof {
            assert(decreases_to!(ns => ns[0]));
            assert(decreases_to!(ns => ns.subrange(1, ns.len() as int)));
        }
        toks_node(s, i, ns[0]) + toks_nodes(
            s,
            i + render_node_spec(ns[0]).len(),
            ns.subrange(1, ns.len() as int),
        )
    }
}

proof fn lemma_find_char_at(s: Seq<char>, k: int, m: int, c: char)
    requires
        0 <= k <= m < s.len(),
        s[m] == c,
        forall|j: int| k <= j < m ==> s[j] != c,
    ensures
        find_char(s, k, c) == m,
    decreases m - k,
{
    if k < m {
        lemma_find_char_at(s, k + 1, m, c);
    }
}

proof fn lemma_ident_end_at(s: Seq<char>, k: int, m: int)
    requires
        0 <= k <= m < s.len(),
        !is_ident_continue(s[m]),
        forall|j: int| k <= j < m ==> is_ident_continue(s[j]),
    ensures
        ident_end(s, k) == m,
    decreases m - k,
{
    if k < m {
        lemma_ident_end_at(s, k + 1, m);
    }
}

proof fn lemma_text_end_at(s: Seq<char>, k: int, m: int)
    requires
        0 <= k <= m <= s.len(),
        m < s.len() ==> is_text_stop(s[m], false),
        forall|j: int| k <= j < m ==> !is_text_stop(s[j], false),
    ensures
        text_end(s, k, false) == m,
    decreases m - k,
{
    if k < m {
        lemma_text_end_at(s, k + 1, m);
    }
}

/// A string literal written with `escape_spec` scans back to its value.
proof fn lemma_scan_escaped(s: Seq<char>, k: int, v: Seq<char>)
    requires
        chars_at(s, k, escape_spec(v) + seq!['"']),
    ensures
        scan_string(s, k) == Some((v, k + escape_spec(v).len() + 1)),
    decreases v.len(),
{
    let e = escape_spec(v);
    if v.len() == 0 {
        assert(e =~= Seq::<char>::empty());
        lemma_chars_at_index(s, k, e + seq!['"'], 0);
    } else {
        let c = v[0];
        let rest = v.drop_first();
        assert(v =~= seq![c] + rest);
        lemma_escape_concat(seq![c], rest);
        assert(seq![c].drop_last() =~= Seq::<char>::empty());
        assert(escape_spec(Seq::<char>::empty()) == Seq::<char>::empty());
        assert(escape_spec(seq![c]) =~= escape_char(c));
        let ec = escape_char(c);
        assert(e + seq!['"'] =~= ec + (escape_spec(rest) + seq!['"']));
        lemma_chars_at_split(s, k, ec, escape_spec(rest) + seq!['"']);
        lemma_scan_escaped(s, k + ec.len(), rest);
        lemma_chars_at_index(s, k, ec, 0);
        if ec.len() == 2 {
            lemma_chars_at_index(s, k, ec, 1);
            assert(unescape(ec[1]) == c);
            assert(seq![c] + rest =~= v);
        } else {
            assert(seq![c] + rest =~= v);
        }
    }
}

/// One step of lexing, with the tokens so far in front.
proof fn lemma_advance(s: Seq<char>, i: int, t: bool, acc: Seq<TokenView>) -> (next: (
    Seq<TokenView>,
    int,
    bool,
))
    requires
        0 <= i < s.len(),
        lex_step(s, i, t) is Ok,
    ensures
        lex_step(s, i, t) == Ok::<(Seq<TokenView>, int, bool), crate::lexer::LexError>(next),
        prepend(acc, lex_from(s, i, t)) == prepend(acc + next.0, lex_from(s, next.1, next.2)),
{
    lemma_lex_step(s, i, t);
    let next = lex_step(s, i, t)->Ok_0;
    lemma_prepend_assoc(acc, next.0, lex_from(s, next.1, next.2));
    next
}

proof fn lemma_name_chars(s: Seq<char>, i: int, name: Seq<char>)
    requires
        chars_at(s, i, name),
        is_ident(name),
    ensures
        is_ident_start(s[i]),
        forall|j: int| i <= j < i + name.len() ==> is_ident_continue(#[trigger] s[j]),
        s.subrange(i, i + name.len()) == name,
{
    lemma_chars_at_index(s, i, name, 0);
    assert forall|j: int| i <= j < i + name.len() implies is_ident_continue(#[trigger] s[j]) by {
        lemma_chars_at_index(s, i, name, j - i);
    }
}

/// Lexing a printed attribute (in a tag) gives its tokens.
#[verifier::rlimit(80)]
proof fn lemma_lex_attr(s: Seq<char>, p: int, a: AttrView, acc: Seq<TokenView>)
    requires
        good_attr(a),
        chars_at(s, p, render_attr_spec(a)),
    ensures
        prepend(acc, lex_from(s, p, true)) == prepend(
            acc + toks_attr(s, p, a),
            lex_from(s, p + render_attr_spec(a).len(), true),
        ),
{
    let name = a.name;
    let e = p + 1 + name.len();
    let vt = match a.value {
        AttrValueView::Str(v) => seq!['"'] + escape_spec(v) + seq!['"'],
        AttrValueView::Expr(c) => seq!['{'] + c + seq!['}'],
    };
    assert(render_attr_spec(a) =~= seq![' '] + (name + (seq!['='] + vt)));
    lemma_chars_at_split(s, p, seq![' '], name + (seq!['='] + vt));
    lemma_chars_at_split(s, p + 1, name, seq!['='] + vt);
    lemma_chars_at_split(s, e, seq!['='], vt);
    lemma_chars_at_index(s, p, seq![' '], 0);
    lemma_chars_at_index(s, e, seq!['='], 0);
    lemma_name_chars(s, p + 1, name);
    lemma_ident_end_at(s, p + 2, e);
    let n0 = lemma_advance(s, p, true, acc);
    let a1 = acc + n0.0;
    assert(a1 =~= acc);
    let n1 = lemma_advance(s, p + 1, true, a1);
    let n2 = lemma_advance(s, e, true, a1 + n1.0);
    let a3 = a1 + n1.0 + n2.0;
    lemma_chars_at_index(s, e + 1, vt, 0);
    match a.value {
        AttrValueView::Str(v) => {
            assert(vt =~= seq!['"'] + (escape_spec(v) + seq!['"']));
            lemma_chars_at_split(s, e + 1, seq!['"'], escape_spec(v) + seq!['"']);
            lemma_scan_escaped(s, e + 2, v);
            let n3 = lemma_advance(s, e + 1, true, a3);
            assert(a3 + n3.0 =~= acc + toks_attr(s, p, a));
        },
        AttrValueView::Expr(c) => {
            assert(vt =~= seq!['{'] + (c + seq!['}']));
            lemma_chars_at_split(s, e + 1, seq!['{'], c + seq!['}']);
            lemma_chars_at_split(s, e + 2, c, seq!['}']);
            lemma_chars_at_index(s, e + 2 + c.len(), seq!['}'], 0);
            assert forall|j: int| e + 2 <= j < e + 2 + c.len() implies s[j] != '}' by {
                lemma_chars_at_index(s, e + 2, c, j - (e + 2));
            }
            lemma_find_char_at(s, e + 2, e + 2 + c.len(), '}');
            let n3 = lemma_advance(s, e + 1, true, a3);
            assert(a3 + n3.0 =~= acc + toks_attr(s, p, a));
        },
    }
}

proof fn lemma_lex_attrs(s: Seq<char>, p: int, attrs: Seq<AttrView>, acc: Seq<TokenView>)
    requires
        good_attrs(attrs),
        chars_at(s, p, render_attrs_spec(attrs)),
    ensures
        prepend(acc, lex_from(s, p, true)) == prepend(
            acc + toks_attrs(s, p, attrs),
            lex_from(s, p + render_attrs_spec(attrs).len(), true),
        ),
    decreases attrs.len(),
{
    if attrs.len() == 0 {
        assert(acc + toks_attrs(s, p, attrs) =~= acc);
    } else {
        let a = attrs[0];
        let rest = attrs.drop_first();
        lemma_render_attrs_front(attrs);
        lemma_chars_at_split(s, p, render_attr_spec(a), render_attrs_spec(rest));
        assert(good_attr(attrs[0]));
        lemma_lex_attr(s, p, a, acc);
        assert forall|k: int| 0 <= k < rest.len() implies #[trigger] good_attr(rest[k]) by {
            assert(rest[k] == attrs[k + 1]);
        }
        let p2 = p + render_attr_spec(a).len();
        lemma_lex_attrs(s, p2, rest, acc + toks_attr(s, p, a));
        assert(acc + toks_attr(s, p, a) + toks_attrs(s, p2, rest) =~= acc + toks_attrs(
            s,
            p,
            attrs,
        ));
    }
}

/// An element or an expression prints starting with `<` or `{`.
proof fn lemma_render_starts(n: NodeView)
    requires
        !(n is Text),
    ensures
        render_node_spec(n).len() > 0,
        render_node_spec(n)[0] == '<' || render_node_spec(n)[0] == '{',
{
}

/// A first attribute prints starting with a space.
proof fn lemma_render_attrs_starts(attrs: Seq<AttrView>)
    requires
        attrs.len() > 0,
    ensures
        render_attrs_spec(attrs).len() > 0,
        render_attrs_spec(attrs)[0] == ' ',
{
    lemma_render_attrs_front(attrs);
}

/// What must follow printed nodes so that a trailing text ends where it
/// should: the end of the input or a character that ends a text run.
pub open spec fn text_may_end(s: Seq<char>, j: int) -> bool {
    j == s.len() || (0 <= j < s.len() && is_text_stop(s[j], false))
}

proof fn lemma_lex_text(s: Seq<char>, i: int, t: Seq<char>, acc: Seq<TokenView>)
    requires
        is_text(t),
        chars_at(s, i, t),
        text_may_end(s, i + t.len()),
    ensures
        prepend(acc, lex_from(s, i, false)) == prepend(
            acc + toks_node(s, i, NodeView::Text(t)),
            lex_from(s, i + t.len(), false),
        ),
{
    lemma_chars_at_index(s, i, t, 0);
    assert(!is_text_stop(t[0], false));
    assert forall|j: int| i + 1 <= j < i + t.len() implies !is_text_stop(s[j], false) by {
        lemma_chars_at_index(s, i, t, j - i);
    }
    lemma_text_end_at(s, i + 1, i + t.len());
    assert(trim_newlines(s.subrange(i, i + t.len())) == t);
    let n0 = lemma_advance(s, i, false, acc);
    assert(acc + n0.0 =~= acc + toks_node(s, i, NodeView::Text(t)));
}

proof fn lemma_lex_expr(s: Seq<char>, i: int, c: Seq<char>, acc: Seq<TokenView>)
    requires
        is_code(c),
        chars_at(s, i, seq!['{'] + c + seq!['}']),
    ensures
        prepend(acc, lex_from(s, i, false)) == prepend(
            acc + toks_node(s, i, NodeView::Expr(c)),
            lex_from(s, i + c.len() + 2, false),
        ),
{
    assert(seq!['{'] + c + seq!['}'] =~= seq!['{'] + (c + seq!['}']));
    lemma_chars_at_split(s, i, seq!['{'], c + seq!['}']);
    lemma_chars_at_split(s, i + 1, c, seq!['}']);
    lemma_chars_at_index(s, i, seq!['{'], 0);
    lemma_chars_at_index(s, i + 1 + c.len(), seq!['}'], 0);
    assert forall|j: int| i + 1 <= j < i + 1 + c.len() implies s[j] != '}' by {
        lemma_chars_at_index(s, i + 1, c, j - (i + 1));
    }
    lemma_find_char_at(s, i + 1, i + 1 + c.len(), '}');
    let n0 = lemma_advance(s, i, false, acc);
    assert(acc + n0.0 =~= acc + toks_node(s, i, NodeView::Expr(c)));
}

/// Lexing `<`, a name and attributes leaves the lexer inside the tag.
#[verifier::rlimit(40)]
proof fn lemma_lex_open(
    s: Seq<char>,
    i: int,
    name: Seq<char>,
    attrs: Seq<AttrView>,
    acc: Seq<TokenView>,
)
    requires
        is_ident(name),
        good_attrs(attrs),
        chars_at(s, i, seq!['<'] + name + render_attrs_spec(attrs)),
        ({
            let q = i + 1 + name.len() + render_attrs_spec(attrs).len();
            q < s.len() && !is_ident_continue(s[q])
        }),
    ensures
        prepend(acc, lex_from(s, i, false)) == prepend(
            acc + toks_open(s, i, name, attrs),
            lex_from(s, i + 1 + name.len() + render_attrs_spec(attrs).len(), true),
        ),
{
    let ra = render_attrs_spec(attrs);
    let p = i + 1 + name.len();
    assert(seq!['<'] + name + ra =~= seq!['<'] + (name + ra));
    lemma_chars_at_split(s, i, seq!['<'], name + ra);
    lemma_chars_at_split(s, i + 1, name, ra);
    lemma_chars_at_index(s, i, seq!['<'], 0);
    lemma_name_chars(s, i + 1, name);
    if attrs.len() > 0 {
        lemma_render_attrs_starts(attrs);
        lemma_chars_at_index(s, p, ra, 0);
    }
    lemma_ident_end_at(s, i + 2, p);
    let n0 = lemma_advance(s, i, false, acc);
    let a1 = acc + n0.0;
    let n1 = lemma_advance(s, i + 1, true, a1);
    let a2 = a1 + n1.0;
    lemma_lex_attrs(s, p, attrs, a2);
    assert(a2 + toks_attrs(s, p, attrs) =~= acc + toks_open(s, i, name, attrs));
}

/// Lexing a printed node (outside a tag) gives its tokens.
proof fn lemma_lex_node(s: Seq<char>, i: int, n: NodeView, acc: Seq<TokenView>)
    requires
        good_node(n),
        chars_at(s, i, render_node_spec(n)),
        n is Text ==> text_may_end(s, i + render_node_spec(n).len()),
    ensures
        prepend(acc, lex_from(s, i, false)) == prepend(
            acc + toks_node(s, i, n),
            lex_from(s, i + render_node_spec(n).len(), false),
        ),
    decreases n, 1nat,
{
    match n {
        NodeView::Text(t) => lemma_lex_text(s, i, t, acc),
        NodeView::Expr(c) => lemma_lex_expr(s, i, c, acc),
        NodeView::Element { name, attrs, children } => if children.len() == 0 {
            lemma_lex_leaf(s, i, n, acc);
        } else {
            lemma_lex_parent(s, i, n, acc);
        },
    }
}

/// Lexing ` />` inside a tag closes it.
proof fn lemma_lex_self_close(s: Seq<char>, q: int, acc: Seq<TokenView>)
    requires
        chars_at(s, q, seq![' ', '/', '>']),
    ensures
        prepend(acc, lex_from(s, q, true)) == prepend(
            acc + seq![
                tok(TokenKindView::Slash, s, q + 1, q + 2),
                tok(TokenKindView::RAngle, s, q + 2, q + 3),
            ],
            lex_from(s, q + 3, false),
        ),
{
    lemma_chars_at_index(s, q, seq![' ', '/', '>'], 0);
    lemma_chars_at_index(s, q, seq![' ', '/', '>'], 1);
    lemma_chars_at_index(s, q, seq![' ', '/', '>'], 2);
    let m0 = lemma_advance(s, q, true, acc);
    let m1 = lemma_advance(s, q + 1, true, acc + m0.0);
    let m2 = lemma_advance(s, q + 2, true, acc + m0.0 + m1.0);
    assert(acc + m0.0 + m1.0 + m2.0 =~= acc + seq![
        tok(TokenKindView::Slash, s, q + 1, q + 2),
        tok(TokenKindView::RAngle, s, q + 2, q + 3),
    ]);
}

/// Lexing a closing tag `</name>`.
#[verifier::rlimit(40)]
proof fn lemma_lex_close(s: Seq<char>, r: int, name: Seq<char>, acc: Seq<TokenView>)
    requires
        is_ident(name),
        chars_at(s, r, seq!['<', '/'] + (name + seq!['>'])),
    ensures
        prepend(acc, lex_from(s, r, false)) == prepend(
            acc + seq![
                tok(TokenKindView::LAngle, s, r, r + 1),
                tok(TokenKindView::Slash, s, r + 1, r + 2),
                tok(TokenKindView::Ident(name), s, r + 2, r + 2 + name.len()),
                tok(TokenKindView::RAngle, s, r + 2 + name.len(), r + 3 + name.len()),
            ],
            lex_from(s, r + 3 + name.len(), false),
        ),
{
    lemma_chars_at_split(s, r, seq!['<', '/'], name + seq!['>']);
    lemma_chars_at_split(s, r + 2, name, seq!['>']);
    lemma_chars_at_index(s, r, seq!['<', '/'], 0);
    lemma_chars_at_index(s, r, seq!['<', '/'], 1);
    lemma_chars_at_index(s, r + 2 + name.len(), seq!['>'], 0);
    lemma_name_chars(s, r + 2, name);
    lemma_ident_end_at(s, r + 3, r + 2 + name.len());
    let k0 = lemma_advance(s, r, false, acc);
    let k1 = lemma_advance(s, r + 1, true, acc + k0.0);
    let k2 = lemma_advance(s, r + 2, true, acc + k0.0 + k1.0);
    let k3 = lemma_advance(s, r + 2 + name.len(), true, acc + k0.0 + k1.0 + k2.0);
    assert(acc + k0.0 + k1.0 + k2.0 + k3.0 =~= acc + seq![
        tok(TokenKindView::LAngle, s, r, r + 1),
        tok(TokenKindView::Slash, s, r + 1, r + 2),
        tok(TokenKindView::Ident(name), s, r + 2, r + 2 + name.len()),
        tok(TokenKindView::RAngle, s, r + 2 + name.len(), r + 3 + name.len()),
    ]);
}

/// The characters of an element, split into its opening tag and the rest.
proof fn lemma_element_chars(s: Seq<char>, i: int, n: NodeView) -> (tail: Seq<char>)
    requires
        n is Element,
        chars_at(s, i, render_node_spec(n)),
    ensures
        tail == if n->Element_children.len() == 0 {
            seq![' ', '/', '>']
        } else {
            seq!['>'] + render_nodes_spec(n->Element_children) + seq!['<', '/'] + n->Element_name
                + seq!['>']
        },
        chars_at(s, i, seq!['<'] + n->Element_name + render_attrs_spec(n->Element_attrs)),
        chars_at(
            s,
            i + 1 + n->Element_name.len() + render_attrs_spec(n->Element_attrs).len(),
            tail,
        ),
        i + 1 + n->Element_name.len() + render_attrs_spec(n->Element_attrs).len() < s.len(),
        !is_ident_continue(
            s[i + 1 + n->Element_name.len() + render_attrs_spec(n->Element_attrs).len()],
        ),
{
    let name = n->Element_name;
    let attrs = n->Element_attrs;
    let children = n->Element_children;
    let ra = render_attrs_spec(attrs);
    let tail = if children.len() == 0 {
        seq![' ', '/', '>']
    } else {
        seq!['>'] + render_nodes_spec(children) + seq!['<', '/'] + name + seq!['>']
    };
    assert(render_node_spec(n) =~= (seq!['<'] + name + ra) + tail);
    lemma_chars_at_split(s, i, seq!['<'] + name + ra, tail);
    lemma_chars_at_index(s, i + 1 + name.len() + ra.len(), tail, 0);
    tail
}

/// Lexing an element without children.
#[verifier::rlimit(60)]
proof fn lemma_lex_leaf(s: Seq<char>, i: int, n: NodeView, acc: Seq<TokenView>)
    requires
        n is Element,
        n->Element_children.len() == 0,
        good_node(n),
        chars_at(s, i, render_node_spec(n)),
    ensures
        prepend(acc, lex_from(s, i, false)) == prepend(
            acc + toks_node(s, i, n),
            lex_from(s, i + render_node_spec(n).len(), false),
        ),
{
    let name = n->Element_name;
    let attrs = n->Element_attrs;
    let q = i + 1 + name.len() + render_attrs_spec(attrs).len();
    lemma_element_chars(s, i, n);
    lemma_lex_open(s, i, name, attrs, acc);
    let a3 = acc + toks_open(s, i, name, attrs);
    lemma_lex_self_close(s, q, a3);
    assert(a3 + seq![
        tok(TokenKindView::Slash, s, q + 1, q + 2),
        tok(TokenKindView::RAngle, s, q + 2, q + 3),
    ] =~= acc + toks_node(s, i, n));
}

/// Lexing an element with children.
#[verifier::spinoff_prover]
#[verifier::rlimit(100)]
proof fn lemma_lex_parent(s: Seq<char>, i: int, n: NodeView, acc: Seq<TokenView>)
    requires
        n is Element,
        n->Element_children.len() > 0,
        good_node(n),
        chars_at(s, i, render_node_spec(n)),
    ensures
        prepend(acc, lex_from(s, i, false)) == prepend(
            acc + toks_node(s, i, n),
            lex_from(s, i + render_node_spec(n).len(), false),
        ),
    decreases n, 0nat,
{
    let name = n->Element_name;
    let attrs = n->Element_attrs;
    let children = n->Element_children;
    let q = i + 1 + name.len() + render_attrs_spec(attrs).len();
    let tail = lemma_element_chars(s, i, n);
    lemma_lex_open(s, i, name, attrs, acc);
    let a3 = acc + toks_open(s, i, name, attrs);
    let rc = render_nodes_spec(children);
    let r = q + 1 + rc.len();
    let close = seq!['<', '/'] + (name + seq!['>']);
    assert(tail =~= seq!['>'] + (rc + close));
    lemma_chars_at_split(s, q, seq!['>'], rc + close);
    lemma_chars_at_split(s, q + 1, rc, close);
    lemma_chars_at_index(s, r, close, 0);
    let m0 = lemma_advance(s, q, true, a3);
    let a4 = a3 + m0.0;
    assert(decreases_to!(n => children));
    lemma_lex_nodes(s, q + 1, children, a4);
    let a5 = a4 + toks_nodes(s, q + 1, children);
    lemma_lex_close(s, r, name, a5);
    assert(a5 + seq![
        tok(TokenKindView::LAngle, s, r, r + 1),
        tok(TokenKindView::Slash, s, r + 1, r + 2),
        tok(TokenKindView::Ident(name), s, r + 2, r + 2 + name.len()),
        tok(TokenKindView::RAngle, s, r + 2 + name.len(), r + 3 + name.len()),
    ] =~= acc + toks_node(s, i, n));
}

/// Lexing printed sibling nodes (outside a tag) gives their tokens.
proof fn lemma_lex_nodes(s: Seq<char>, i: int, ns: Seq<NodeView>, acc: Seq<TokenView>)
    requires
        good_nodes(ns),
        chars_at(s, i, render_nodes_spec(ns)),
        ns.len() > 0 && ns.last() is Text ==> text_may_end(s, i + render_nodes_spec(ns).len()),
    ensures
        prepend(acc, lex_from(s, i, false)) == prepend(
            acc + toks_nodes(s, i, ns),
            lex_from(s, i + render_nodes_spec(ns).len(), false),
        ),
    decreases ns, 0nat,
{
    if ns.len() == 0 {
        assert(acc + toks_nodes(s, i, ns) =~= acc);
    } else {
        let n = ns[0];
        let rest = ns.subrange(1, ns.len() as int);
        assert(rest =~= ns.drop_first());
        lemma_render_nodes_front(ns);
        lemma_chars_at_split(s, i, render_node_spec(n), render_nodes_spec(rest));
        let j = i + render_node_spec(n).len();
        if n is Text && rest.len() > 0 {
            lemma_render_nodes_front(rest);
            assert(!(rest[0] is Text));
            lemma_render_starts(rest[0]);
            lemma_chars_at_index(s, j, render_nodes_spec(rest), 0);
        } else if rest.len() == 0 {
            assert(ns.last() == n);
        }
        assert(decreases_to!(ns => ns[0]));
        lemma_lex_node(s, i, n, acc);
        if rest.len() > 0 {
            assert(rest.last() == ns.last());
        }
        assert(decreases_to!(ns => ns.subrange(1, ns.len() as int)));
        lemma_lex_nodes(s, j, rest, acc + toks_node(s, i, n));
        assert(acc + toks_node(s, i, n) + toks_nodes(s, j, rest) =~= acc + toks_nodes(s, i, ns));
    }
}

/// The tokens `xs` stand in `ts` at `p`.
pub open spec fn toks_at(ts: Seq<TokenView>, p: int, xs: Seq<TokenView>) -> bool {
    0 <= p && p + xs.len() <= ts.len() && ts.subrange(p, p + xs.len()) == xs
}

proof fn lemma_toks_at_split(ts: Seq<TokenView>, p: int, a: Seq<TokenView>, b: Seq<TokenView>)
    requires
        toks_at(ts, p, a + b),
    ensures
        toks_at(ts, p, a),
        toks_at(ts, p + a.len(), b),
{
    let w = ts.subrange(p, p + a.len() + b.len());
    assert(w == a + b);
    assert(ts.subrange(p, p + a.len()) =~= w.subrange(0, a.len() as int));
    assert(w.subrange(0, a.len() as int) =~= a);
    assert(ts.subrange(p + a.len(), p + a.len() + b.len()) =~= w.subrange(
        a.len() as int,
        w.len() as int,
    ));
    assert(w.subrange(a.len() as int, w.len() as int) =~= b);
}

proof fn lemma_toks_at_index(ts: Seq<TokenView>, p: int, xs: Seq<TokenView>, k: int)
    requires
        toks_at(ts, p, xs),
        0 <= k < xs.len(),
    ensures
        ts[p + k] == xs[k],
{
    assert(ts.subrange(p, p + xs.len())[k] == ts[p + k]);
}

/// The byte offset of a character index leads back to it.
proof fn lemma_char_index(src: Seq<char>, a: int)
    requires
        0 <= a <= src.len(),
    ensures
        char_index(src, offset_at(src, a) as int) == Some(a),
{
    let off = offset_at(src, a) as int;
    assert(0 <= a <= src.len() && offset_at(src, a) == off);
    let b = choose|b: int| 0 <= b <= src.len() && offset_at(src, b) == off;
    if b < a {
        lemma_offset_mono(src, b, a);
    } else if b > a {
        lemma_offset_mono(src, a, b);
    }
}

/// Slicing by the byte offsets of two character indices.
proof fn lemma_byte_slice(src: Seq<char>, a: int, b: int)
    requires
        0 <= a <= b <= src.len(),
    ensures
        byte_slice(src, offset_at(src, a) as int, offset_at(src, b) as int) == Some(
            src.subrange(a, b),
        ),
{
    lemma_char_index(src, a);
    lemma_char_index(src, b);
    lemma_offset_mono(src, a, b);
}

/// The code between printed braces is read back from the source.
proof fn lemma_parse_expr(ts: Seq<TokenView>, src: Seq<char>, p: int, e: int, c: Seq<char>)
    requires
        is_code(c),
        chars_at(src, e, seq!['{'] + c + seq!['}']),
        byte_len(src) <= usize::MAX,
        toks_at(
            ts,
            p,
            seq![
                tok(TokenKindView::LBrace, src, e, e + 1),
                tok(TokenKindView::RBrace, src, e + 1 + c.len(), e + 2 + c.len()),
            ],
        ),
    ensures
        parse_expr_spec(ts, src, p) == Ok::<(Seq<char>, int), crate::parser::ParseErrorView>(
            (c, p + 2),
        ),
{
    let xs = seq![
        tok(TokenKindView::LBrace, src, e, e + 1),
        tok(TokenKindView::RBrace, src, e + 1 + c.len(), e + 2 + c.len()),
    ];
    lemma_toks_at_index(ts, p, xs, 0);
    lemma_toks_at_index(ts, p, xs, 1);
    lemma_offset_mono(src, e, e + 1);
    lemma_offset_mono(src, e + 1, e + 1 + c.len());
    lemma_offset_mono(src, e + 1 + c.len(), src.len() as int);
    lemma_byte_slice(src, e + 1, e + 1 + c.len());
    assert(seq!['{'] + c + seq!['}'] =~= seq!['{'] + (c + seq!['}']));
    lemma_chars_at_split(src, e, seq!['{'], c + seq!['}']);
    lemma_chars_at_split(src, e + 1, c, seq!['}']);
}

proof fn lemma_parse_attr(ts: Seq<TokenView>, src: Seq<char>, q: int, p: int, a: AttrView)
    requires
        good_attr(a),
        chars_at(src, p, render_attr_spec(a)),
        byte_len(src) <= usize::MAX,
        toks_at(ts, q, toks_attr(src, p, a)),
    ensures
        parse_attr_spec(ts, src, q) == Ok::<(AttrView, int), crate::parser::ParseErrorView>(
            (a, q + toks_attr(src, p, a).len()),
        ),
{
    let xs = toks_attr(src, p, a);
    let e = p + 1 + a.name.len();
    lemma_toks_at_index(ts, q, xs, 0);
    lemma_toks_at_index(ts, q, xs, 1);
    lemma_toks_at_index(ts, q, xs, 2);
    match a.value {
        AttrValueView::Str(v) => {},
        AttrValueView::Expr(c) => {
            let vt = seq!['{'] + c + seq!['}'];
            assert(render_attr_spec(a) =~= (seq![' '] + a.name + seq!['=']) + vt);
            lemma_chars_at_split(src, p, seq![' '] + a.name + seq!['='], vt);
            let two = seq![
                tok(TokenKindView::LBrace, src, e + 1, e + 2),
                tok(TokenKindView::RBrace, src, e + 2 + c.len(), e + 3 + c.len()),
            ];
            assert(xs =~= seq![
                tok(TokenKindView::Ident(a.name), src, p + 1, e),
                tok(TokenKindView::Equals, src, e, e + 1),
            ] + two);
            lemma_toks_at_split(
                ts,
                q,
                seq![
                    tok(TokenKindView::Ident(a.name), src, p + 1, e),
                    tok(TokenKindView::Equals, src, e, e + 1),
                ],
                two,
            );
            lemma_parse_expr(ts, src, q + 2, e + 1, c);
        },
    }
}

proof fn lemma_parse_attrs(
    ts: Seq<TokenView>,
    src: Seq<char>,
    q: int,
    p: int,
    attrs: Seq<AttrView>,
)
    requires
        good_attrs(attrs),
        chars_at(src, p, render_attrs_spec(attrs)),
        byte_len(src) <= usize::MAX,
        toks_at(ts, q, toks_attrs(src, p, attrs)),
        q + toks_attrs(src, p, attrs).len() < ts.len(),
        !(ts[q + toks_attrs(src, p, attrs).len()].kind is Ident),
    ensures
        parse_attrs_spec(ts, src, q) == Ok::<
            (Seq<AttrView>, int),
            crate::parser::ParseErrorView,
        >((attrs, q + toks_attrs(src, p, attrs).len())),
    decreases attrs.len(),
{
    if attrs.len() == 0 {
        assert(attrs =~= Seq::<AttrView>::empty());
    } else {
        let a = attrs[0];
        let rest = attrs.drop_first();
        let p2 = p + render_attr_spec(a).len();
        lemma_render_attrs_front(attrs);
        lemma_chars_at_split(src, p, render_attr_spec(a), render_attrs_spec(rest));
        lemma_toks_at_split(ts, q, toks_attr(src, p, a), toks_attrs(src, p2, rest));
        assert(good_attr(attrs[0]));
        lemma_parse_attr(ts, src, q, p, a);
        lemma_toks_at_index(ts, q, toks_attr(src, p, a), 0);
        assert forall|k: int| 0 <= k < rest.len() implies #[trigger] good_attr(rest[k]) by {
            assert(rest[k] == attrs[k + 1]);
        }
        let q2 = q + toks_attr(src, p, a).len();
        assert(toks_attrs(src, p, attrs) == toks_attr(src, p, a) + toks_attrs(src, p2, rest));
        lemma_parse_attrs(ts, src, q2, p2, rest);
        assert(ts[q].kind is Ident);
        assert(parse_attr_spec(ts, src, q) == Ok::<(AttrView, int), crate::parser::ParseErrorView>(
            (a, q2),
        ));
        assert(seq![a] + rest =~= attrs);
    }
}

proof fn lemma_toks_node_head(s: Seq<char>, i: int, n: NodeView)
    ensures
        toks_node(s, i, n).len() >= 1,
        n matches NodeView::Text(t) ==> toks_node(s, i, n)[0].kind == TokenKindView::Text(t),
        n is Expr ==> toks_node(s, i, n)[0].kind is LBrace,
        n is Element ==> toks_node(s, i, n).len() >= 2 && toks_node(s, i, n)[0].kind is LAngle
            && toks_node(s, i, n)[1].kind is Ident,
{
}

/// The tokens of an element, split into its opening tag and the rest.
proof fn lemma_element_toks(ts: Seq<TokenView>, src: Seq<char>, p: int, i: int, n: NodeView)
    requires
        n is Element,
        toks_at(ts, p, toks_node(src, i, n)),
    ensures
        ({
            let name = n->Element_name;
            let attrs = n->Element_attrs;
            let ta = toks_attrs(src, i + 1 + name.len(), attrs);
            &&& ts[p].kind is LAngle
            &&& ts[p + 1].kind == TokenKindView::Ident(name)
            &&& toks_at(ts, p + 2, ta)
            &&& toks_at(
                ts,
                p + 2 + ta.len(),
                toks_node(src, i, n).subrange(2 + ta.len() as int, toks_node(src, i, n).len() as int),
            )
        }),
{
    let name = n->Element_name;
    let attrs = n->Element_attrs;
    let ta = toks_attrs(src, i + 1 + name.len(), attrs);
    let xs = toks_node(src, i, n);
    let head = seq![
        tok(TokenKindView::LAngle, src, i, i + 1),
        tok(TokenKindView::Ident(name), src, i + 1, i + 1 + name.len()),
    ];
    let rest = xs.subrange(2 + ta.len() as int, xs.len() as int);
    assert(xs =~= head + (ta + rest));
    lemma_toks_at_split(ts, p, head, ta + rest);
    lemma_toks_at_split(ts, p + 2, ta, rest);
    lemma_toks_at_index(ts, p, head, 0);
    lemma_toks_at_index(ts, p, head, 1);
}

/// Parsing the tokens of an element without children.
#[verifier::rlimit(60)]
proof fn lemma_parse_leaf(
    ts: Seq<TokenView>,
    src: Seq<char>,
    p: int,
    i: int,
    n: NodeView,
    fuel: nat,
)
    requires
        n is Element,
        n->Element_children.len() == 0,
        good_node(n),
        chars_at(src, i, render_node_spec(n)),
        toks_at(ts, p, toks_node(src, i, n)),
        byte_len(src) <= usize::MAX,
        fuel >= 1,
    ensures
        parse_element_spec(ts, src, p, fuel) == Ok::<(NodeView, int), ParseErrorView>(
            (n, p + toks_node(src, i, n).len()),
        ),
{
    let name = n->Element_name;
    let attrs = n->Element_attrs;
    let pc = i + 1 + name.len();
    let ta = toks_attrs(src, pc, attrs);
    lemma_element_chars(src, i, n);
    lemma_chars_at_split(src, i, seq!['<'] + name, render_attrs_spec(attrs));
    lemma_element_toks(ts, src, p, i, n);
    let xs = toks_node(src, i, n);
    let rest = xs.subrange(2 + ta.len() as int, xs.len() as int);
    lemma_toks_at_index(ts, p + 2 + ta.len(), rest, 0);
    lemma_toks_at_index(ts, p + 2 + ta.len(), rest, 1);
    lemma_parse_attrs(ts, src, p + 2, pc, attrs);
    assert(n->Element_children =~= Seq::<NodeView>::empty());
}

/// Parsing the tokens of one printed node.
proof fn lemma_parse_node(
    ts: Seq<TokenView>,
    src: Seq<char>,
    p: int,
    i: int,
    n: NodeView,
    fuel: nat,
)
    requires
        good_node(n),
        chars_at(src, i, render_node_spec(n)),
        toks_at(ts, p, toks_node(src, i, n)),
        p + toks_node(src, i, n).len() < ts.len(),
        byte_len(src) <= usize::MAX,
        fuel >= 2 * (ts.len() - p) + 1,
    ensures
        parse_node_spec(ts, src, p, fuel) == Ok::<(NodeView, int), ParseErrorView>(
            (n, p + toks_node(src, i, n).len()),
        ),
    decreases n, 1nat,
{
    lemma_toks_node_head(src, i, n);
    lemma_toks_at_index(ts, p, toks_node(src, i, n), 0);
    match n {
        NodeView::Text(t) => {},
        NodeView::Expr(c) => {
            lemma_parse_expr(ts, src, p, i, c);
        },
        NodeView::Element { name, attrs, children } => {
            if children.len() == 0 {
                lemma_parse_leaf(ts, src, p, i, n, (fuel - 1) as nat);
            } else {
                lemma_parse_parent(ts, src, p, i, n, (fuel - 1) as nat);
            }
        },
    }
}

/// Parsing the tokens of an element with children.
#[verifier::rlimit(80)]
proof fn lemma_parse_parent(
    ts: Seq<TokenView>,
    src: Seq<char>,
    p: int,
    i: int,
    n: NodeView,
    fuel: nat,
)
    requires
        n is Element,
        n->Element_children.len() > 0,
        good_node(n),
        chars_at(src, i, render_node_spec(n)),
        toks_at(ts, p, toks_node(src, i, n)),
        p + toks_node(src, i, n).len() < ts.len(),
        byte_len(src) <= usize::MAX,
        fuel >= 2 * (ts.len() - p),
    ensures
        parse_element_spec(ts, src, p, fuel) == Ok::<(NodeView, int), ParseErrorView>(
            (n, p + toks_node(src, i, n).len()),
        ),
    decreases n, 0nat,
{
    let name = n->Element_name;
    let attrs = n->Element_attrs;
    let children = n->Element_children;
    let pc = i + 1 + name.len();
    let q = pc + render_attrs_spec(attrs).len();
    let ta = toks_attrs(src, pc, attrs);
    let tail = lemma_element_chars(src, i, n);
    lemma_chars_at_split(src, i, seq!['<'] + name, render_attrs_spec(attrs));
    lemma_element_toks(ts, src, p, i, n);
    let xs = toks_node(src, i, n);
    let rest = xs.subrange(2 + ta.len() as int, xs.len() as int);
    let tn = toks_nodes(src, q + 1, children);
    let r = q + 1 + render_nodes_spec(children).len();
    let close = seq![
        tok(TokenKindView::LAngle, src, r, r + 1),
        tok(TokenKindView::Slash, src, r + 1, r + 2),
        tok(TokenKindView::Ident(name), src, r + 2, r + 2 + name.len()),
        tok(TokenKindView::RAngle, src, r + 2 + name.len(), r + 3 + name.len()),
    ];
    assert(rest =~= seq![tok(TokenKindView::RAngle, src, q, q + 1)] + (tn + close));
    let qt = p + 2 + ta.len();
    lemma_toks_at_split(ts, qt, seq![tok(TokenKindView::RAngle, src, q, q + 1)], tn + close);
    lemma_toks_at_split(ts, qt + 1, tn, close);
    lemma_toks_at_index(ts, qt, seq![tok(TokenKindView::RAngle, src, q, q + 1)], 0);
    let rt = qt + 1 + tn.len();
    lemma_toks_at_index(ts, rt, close, 0);
    lemma_toks_at_index(ts, rt, close, 1);
    lemma_toks_at_index(ts, rt, close, 2);
    lemma_toks_at_index(ts, rt, close, 3);
    lemma_parse_attrs(ts, src, p + 2, pc, attrs);
    let rc = render_nodes_spec(children);
    assert(tail =~= seq!['>'] + (rc + (seq!['<', '/'] + name + seq!['>'])));
    lemma_chars_at_split(src, q, seq!['>'], rc + (seq!['<', '/'] + name + seq!['>']));
    lemma_chars_at_split(src, q + 1, rc, seq!['<', '/'] + name + seq!['>']);
    assert(decreases_to!(n => children));
    lemma_parse_children(ts, src, qt + 1, q + 1, children, name, ts[p].span, (fuel - 1) as nat);
}

/// Parsing the tokens of printed children up to a closing tag.
proof fn lemma_parse_children(
    ts: Seq<TokenView>,
    src: Seq<char>,
    r: int,
    i: int,
    ns: Seq<NodeView>,
    name: Seq<char>,
    open: crate::token::Span,
    fuel: nat,
)
    requires
        good_nodes(ns),
        chars_at(src, i, render_nodes_spec(ns)),
        toks_at(ts, r, toks_nodes(src, i, ns)),
        is_closing_at(ts, r + toks_nodes(src, i, ns).len()),
        byte_len(src) <= usize::MAX,
        fuel >= 2 * (ts.len() - r) + 2,
    ensures
        parse_children_spec(ts, src, r, name, open, fuel) == Ok::<
            (Seq<NodeView>, int),
            ParseErrorView,
        >((ns, r + toks_nodes(src, i, ns).len())),
    decreases ns, 0nat,
{
    if ns.len() == 0 {
        assert(ns =~= Seq::<NodeView>::empty());
    } else {
        let n = ns[0];
        let rest = ns.subrange(1, ns.len() as int);
        assert(rest =~= ns.drop_first());
        lemma_render_nodes_front(ns);
        lemma_chars_at_split(src, i, render_node_spec(n), render_nodes_spec(rest));
        let i2 = i + render_node_spec(n).len();
        let tk = toks_node(src, i, n);
        lemma_toks_at_split(ts, r, tk, toks_nodes(src, i2, rest));
        lemma_toks_node_head(src, i, n);
        lemma_toks_at_index(ts, r, tk, 0);
        if n is Element {
            lemma_toks_at_index(ts, r, tk, 1);
        }
        assert(!is_closing_at(ts, r));
        assert(decreases_to!(ns => ns[0]));
        lemma_parse_node(ts, src, r, i, n, (fuel - 1) as nat);
        assert(decreases_to!(ns => ns.subrange(1, ns.len() as int)));
        lemma_parse_children(ts, src, r + tk.len(), i2, rest, name, open, (fuel - 1) as nat);
        assert(seq![n] + rest =~= ns);
    }
}

/// Parsing the tokens of printed top-level nodes up to the end of input.
proof fn lemma_parse_top(
    ts: Seq<TokenView>,
    src: Seq<char>,
    p: int,
    i: int,
    ns: Seq<NodeView>,
    fuel: nat,
)
    requires
        good_nodes(ns),
        chars_at(src, i, render_nodes_spec(ns)),
        toks_at(ts, p, toks_nodes(src, i, ns)),
        p + toks_nodes(src, i, ns).len() < ts.len(),
        ts[p + toks_nodes(src, i, ns).len()].kind is Eof,
        byte_len(src) <= usize::MAX,
        fuel >= 2 * (ts.len() - p) + 2,
    ensures
        parse_nodes_spec(ts, src, p, fuel) == Ok::<Seq<NodeView>, ParseErrorView>(ns),
    decreases ns.len(),
{
    if ns.len() == 0 {
        assert(ns =~= Seq::<NodeView>::empty());
    } else {
        let n = ns[0];
        let rest = ns.subrange(1, ns.len() as int);
        assert(rest =~= ns.drop_first());
        lemma_render_nodes_front(ns);
        lemma_chars_at_split(src, i, render_node_spec(n), render_nodes_spec(rest));
        let i2 = i + render_node_spec(n).len();
        let tk = toks_node(src, i, n);
        lemma_toks_at_split(ts, p, tk, toks_nodes(src, i2, rest));
        lemma_toks_node_head(src, i, n);
        lemma_toks_at_index(ts, p, tk, 0);
        lemma_parse_node(ts, src, p, i, n, (fuel - 1) as nat);
        lemma_parse_top(ts, src, p + tk.len(), i2, rest, (fuel - 1) as nat);
        assert(seq![n] + rest =~= ns);
    }
}

/// Printing a well-formed tree and then lexing and parsing the text gives
/// the tree back. Well-formed: element and attribute names are identifiers,
/// code holds no `}` and no white space at its ends, each text is a single
/// text run that the lexer keeps as it is, and no two texts are siblings
/// side by side. The printed text must fit the byte offsets of a span.
pub proof fn lemma_round_trip(d: Seq<NodeView>)
    requires
        good_nodes(d),
        byte_len(render_nodes_spec(d)) <= usize::MAX,
    ensures
        ({
            let text = render_nodes_spec(d);
            lex_spec(text) matches Ok(ts) && parse_spec(ts, text) == Ok::<
                Seq<NodeView>,
                ParseErrorView,
            >(d)
        }),
{
    let text = render_nodes_spec(d);
    assert(text.subrange(0, text.len() as int) =~= text);
    lemma_lex_nodes(text, 0, d, Seq::empty());
    let tn = toks_nodes(text, 0, d);
    let eof = tok(TokenKindView::Eof, text, text.len() as int, text.len() as int);
    assert(lex_from(text, text.len() as int, false) == Ok::<
        Seq<TokenView>,
        crate::lexer::LexError,
    >(seq![eof]));
    assert(Seq::<TokenView>::empty() + tn =~= tn);
    if let Ok(ts0) = lex_from(text, 0, false) {
        assert(Seq::<TokenView>::empty() + ts0 =~= ts0);
    }
    let ts = tn + seq![eof];
    assert(lex_spec(text) == Ok::<Seq<TokenView>, crate::lexer::LexError>(ts));
    assert(ts.subrange(0, tn.len() as int) =~= tn);
    lemma_parse_top(ts, text, 0, 0, d, fuel_for(ts, 0));
}

} // verus!

//! The envelope around the markup: `component Name(params) { ... return
//! <markup>; }`, taken apart by scanning characters with balanced delimiters.

use vstd::prelude::*;
use vstd::string::StringExecFns;
use crate::lexer::{find_char, lemma_find_char_bounds};
use crate::{CompileError, CompileErrorView};
use crate::text::{
    string_of, trim_bounds, trim_end_bound, trim_end_ws, trim_start_bound, trim_start_ws, trim_ws,
};

verus! {

broadcast use {vstd::seq::group_seq_axioms, vstd::std_specs::vec::group_vec_axioms};

/// The keyword that starts a declaration.
pub open spec fn component_keyword() -> Seq<char> {
    seq!['c', 'o', 'm', 'p', 'o', 'n', 'e', 'n', 't']
}

/// The keyword in front of the markup.
pub open spec fn return_keyword() -> Seq<char> {
    seq!['r', 'e', 't', 'u', 'r', 'n']
}

/// Scanning `t` from `i` with nesting depth `depth`: the index where the
/// depth of `open`/`close` falls back to zero, if it does.
pub open spec fn close_from(t: Seq<char>, i: int, depth: nat, open: char, close: char) -> Option<
    int,
>
    decreases t.len() - i,
{
    if !(0 <= i < t.len()) {
        None
    } else if t[i] == open {
        close_from(t, i + 1, depth + 1, open, close)
    } else if t[i] == close {
        if depth <= 1 {
            Some(i)
        } else {
            close_from(t, i + 1, (depth - 1) as nat, open, close)
        }
    } else {
        close_from(t, i + 1, depth, open, close)
    }
}

/// A closing delimiter found by the scan lies ahead of `i` in `t`.
pub proof fn lemma_close_from_bounds(t: Seq<char>, i: int, depth: nat, open: char, close: char)
    ensures
        close_from(t, i, depth, open, close) matches Some(k) ==> 0 <= i <= k < t.len() && t[k]
            == close,
    decreases t.len() - i,
{
    if 0 <= i < t.len() {
        if t[i] == open {
            lemma_close_from_bounds(t, i + 1, depth + 1, open, close);
        } else if t[i] == close {
            if depth > 1 {
                lemma_close_from_bounds(t, i + 1, (depth - 1) as nat, open, close);
            }
        } else {
            lemma_close_from_bounds(t, i + 1, depth, open, close);
        }
    }
}

/// Index of the delimiter that closes the one `t` starts with.
pub open spec fn balanced_close(t: Seq<char>, open: char, close: char) -> Option<int> {
    close_from(t, 0, 0, open, close)
}

/// First index at or after `i` where `pat` occurs in `t`, or the length.
pub open spec fn find_seq(t: Seq<char>, pat: Seq<char>, i: int) -> int
    decreases t.len() + 1 - i,
{
    if !(0 <= i && i + pat.len() <= t.len()) {
        t.len() as int
    } else if t.subrange(i, i + pat.len()) == pat {
        i
    } else {
        find_seq(t, pat, i + 1)
    }
}

/// A match found by `find_seq` fits in `t`.
pub proof fn lemma_find_seq_bounds(t: Seq<char>, pat: Seq<char>, i: int)
    requires
        0 <= i,
    ensures
        find_seq(t, pat, i) < t.len() ==> i <= find_seq(t, pat, i) && find_seq(t, pat, i)
            + pat.len() <= t.len(),
        find_seq(t, pat, i) <= t.len(),
    decreases t.len() + 1 - i,
{
    if i + pat.len() <= t.len() && t.subrange(i, i + pat.len()) != pat {
        lemma_find_seq_bounds(t, pat, i + 1);
    }
}

/// The parameter names in a parameter list: split on `,`, each piece cut at
/// its first `:` and trimmed, empty names dropped.
pub open spec fn params_spec(t: Seq<char>) -> Seq<Seq<char>>
    decreases t.len(),
{
    let j = find_char(t, 0, ',');
    let piece = t.take(j);
    let name = trim_ws(piece.take(find_char(piece, 0, ':')));
    let rest = if j < t.len() {
        proof {
            lemma_find_char_bounds(t, 0, ',');
        }
        params_spec(t.skip(j + 1))
    } else {
        Seq::empty()
    };
    if name.len() == 0 {
        rest
    } else {
        seq![name] + rest
    }
}

/// Name, parameter names and body of a declaration.
pub struct EnvelopeView {
    pub name: Seq<char>,
    pub params: Seq<Seq<char>>,
    pub body: Seq<char>,
}

/// Takes a declaration apart, or says what is wrong with it.
pub open spec fn envelope_spec(src: Seq<char>) -> Result<EnvelopeView, Seq<char>> {
    let t = trim_ws(src);
    if !(t.len() >= 9 && t.take(9) == component_keyword()) {
        Err("expected `component` keyword"@)
    } else {
        let rest = trim_start_ws(t.skip(9));
        let ps = find_char(rest, 0, '(');
        if ps >= rest.len() {
            Err("missing parameter list"@)
        } else {
            let name = trim_ws(rest.take(ps));
            if name.len() == 0 {
                Err("missing component name"@)
            } else {
                match balanced_close(rest.skip(ps), '(', ')') {
                    None => Err("unclosed `(` in parameter list"@),
                    Some(c) => {
                        let params = params_spec(rest.subrange(ps + 1, ps + c));
                        let after = trim_start_ws(rest.skip(ps + c + 1));
                        if !(after.len() > 0 && after[0] == '{') {
                            Err("expected `{`"@)
                        } else {
                            match balanced_close(after, '{', '}') {
                                None => Err("unclosed `{` in component body"@),
                                Some(d) => Ok(
                                    EnvelopeView { name, params, body: after.subrange(1, d) },
                                ),
                            }
                        }
                    },
                }
            }
        }
    }
}

/// The markup of a body: what follows the first `return`, trimmed, without
/// one trailing `;` and without one pair of parentheses that wraps it whole.
pub open spec fn markup_spec(body: Seq<char>) -> Result<Seq<char>, Seq<char>> {
    let k = find_seq(body, return_keyword(), 0);
    if k >= body.len() {
        Err("missing `return` in component body"@)
    } else {
        let m0 = trim_ws(body.skip(k + 6));
        let m1 = if m0.len() > 0 && m0.last() == ';' {
            trim_end_ws(m0.drop_last())
        } else {
            m0
        };
        let m2 = if m1.len() >= 2 && m1[0] == '(' && balanced_close(m1, '(', ')') == Some(
            m1.len() - 1,
        ) {
            trim_ws(m1.subrange(1, m1.len() - 1))
        } else {
            m1
        };
        if m2.len() == 0 {
            Err("empty return body"@)
        } else {
            Ok(m2)
        }
    }
}

/// The parameter names separated by `, `.
pub open spec fn join_params(ps: Seq<Seq<char>>) -> Seq<char>
    decreases ps.len(),
{
    if ps.len() == 0 {
        Seq::empty()
    } else if ps.len() == 1 {
        ps[0]
    } else {
        join_params(ps.drop_last()) + ", "@ + ps.last()
    }
}

/// The function that the compiler emits around the generated markup.
pub open spec fn render_component_spec(
    name: Seq<char>,
    params: Seq<Seq<char>>,
    tsx: Seq<char>,
) -> Seq<char> {
    let binding = if params.len() == 0 {
        "()"@
    } else {
        "({ "@ + join_params(params) + " })"@
    };
    "export function "@ + name + binding + " {\n"@ + "  return "@ + tsx + ";\n}\n"@
}

/// The views of a sequence of strings.
pub open spec fn strings_view(v: Seq<String>) -> Seq<Seq<char>> {
    v.map_values(|x: String| x@)
}

/// First index in `s[lo..hi]` that holds `c`, or `hi`.
fn find_in(s: &Vec<char>, lo: usize, hi: usize, c: char) -> (r: usize)
    requires
        lo <= hi <= s@.len(),
    ensures
        lo <= r <= hi,
        r == lo + find_char(s@.subrange(lo as int, hi as int), 0, c),
{
    let ghost t = s@.subrange(lo as int, hi as int);
    let mut i = lo;
    while i < hi && s[i] != c
        invariant
            lo <= i <= hi <= s@.len(),
            t == s@.subrange(lo as int, hi as int),
            find_char(t, i - lo, c) == find_char(t, 0, c),
        decreases hi - i,
    {
        i = i + 1;
    }
    i
}

/// Where the delimiter that opens `s[lo..hi]` is closed, if it is.
fn balanced_close_in(s: &Vec<char>, lo: usize, hi: usize, open: char, close: char) -> (r: Option<
    usize,
>)
    requires
        lo <= hi <= s@.len(),
    ensures
        match balanced_close(s@.subrange(lo as int, hi as int), open, close) {
            Some(k) => r == Some((lo + k) as usize) && lo + k < hi,
            None => r is None,
        },
{
    let ghost t = s@.subrange(lo as int, hi as int);
    let mut depth: usize = 0;
    let mut i = lo;
    while i < hi
        invariant
            lo <= i <= hi <= s@.len(),
            t == s@.subrange(lo as int, hi as int),
            depth <= i - lo,
            close_from(t, i - lo, depth as nat, open, close) == close_from(t, 0, 0, open, close),
        decreases hi - i,
    {
        let ch = s[i];
        if ch == open {
            depth = depth + 1;
        } else if ch == close {
            if depth <= 1 {
                return Some(i);
            }
            depth = depth - 1;
        }
        i = i + 1;
    }
    None
}

/// Whether `pat` occurs in `s` at `i`.
fn matches_at(s: &Vec<char>, i: usize, pat: &Vec<char>) -> (r: bool)
    requires
        i + pat@.len() <= s@.len(),
    ensures
        r == (s@.subrange(i as int, i + pat@.len()) == pat@),
{
    let n = s.len();
    let mut k: usize = 0;
    while k < pat.len()
        invariant
            n == s@.len(),
            k <= pat@.len(),
            i + pat@.len() <= s@.len(),
            forall|m: int| 0 <= m < k ==> s@[i + m] == pat@[m],
        decreases pat@.len() - k,
    {
        if s[i + k] != pat[k] {
            assert(s@.subrange(i as int, i + pat@.len())[k as int] != pat@[k as int]);
            return false;
        }
        k = k + 1;
    }
    assert(s@.subrange(i as int, i + pat@.len()) =~= pat@);
    true
}

/// First index in `s[lo..hi]` where `pat` occurs, or `hi`.
fn find_seq_in(s: &Vec<char>, lo: usize, hi: usize, pat: &Vec<char>) -> (r: usize)
    requires
        lo <= hi <= s@.len(),
    ensures
        r == lo + find_seq(s@.subrange(lo as int, hi as int), pat@, 0),
{
    let ghost t = s@.subrange(lo as int, hi as int);
    if pat.len() == 0 {
        assert(t.subrange(0, 0) =~= pat@);
        return lo;
    }
    let mut i = lo;
    while i <= hi && hi - i >= pat.len()
        invariant
            lo <= i,
            hi <= s@.len(),
            i <= hi + 1,
            pat@.len() > 0,
            t == s@.subrange(lo as int, hi as int),
            find_seq(t, pat@, i - lo) == find_seq(t, pat@, 0),
        decreases hi + 1 - i,
    {
        assert(t.subrange(i - lo, i - lo + pat@.len()) =~= s@.subrange(
            i as int,
            i + pat@.len(),
        ));
        if matches_at(s, i, pat) {
            return i;
        }
        i = i + 1;
    }
    hi
}

/// The parameter names in `s[lo..hi]`.
fn parse_params(s: &Vec<char>, lo: usize, hi: usize) -> (r: Vec<String>)
    requires
        lo <= hi <= s@.len(),
    ensures
        strings_view(r@) == params_spec(s@.subrange(lo as int, hi as int)),
{
    let mut out: Vec<String> = Vec::new();
    let mut start = lo;
    loop
        invariant
            lo <= start <= hi <= s@.len(),
            params_spec(s@.subrange(lo as int, hi as int)) == strings_view(out@) + params_spec(
                s@.subrange(start as int, hi as int),
            ),
        decreases hi - start,
    {
        let ghost t = s@.subrange(start as int, hi as int);
        let ghost before = strings_view(out@);
        let j = find_in(s, start, hi, ',');
        let colon = find_in(s, start, j, ':');
        let (a, b) = trim_bounds(s, start, colon);
        proof {
            let piece = t.take(j - start);
            assert(piece =~= s@.subrange(start as int, j as int));
            assert(piece.take(colon - start) =~= s@.subrange(start as int, colon as int));
            if j < hi {
                assert(t.skip(j + 1 - start) =~= s@.subrange(j + 1, hi as int));
            }
        }
        if a < b {
            let name = string_of(s, a, b);
            out.push(name);
            proof {
                assert(strings_view(out@) =~= before.push(name@));
            }
        } else {
            assert(strings_view(out@) =~= before);
        }
        if j >= hi {
            proof {
                assert(strings_view(out@) + Seq::<Seq<char>>::empty() =~= strings_view(out@));
                if a < b {
                    assert(before + (seq![s@.subrange(a as int, b as int)] + Seq::<
                        Seq<char>,
                    >::empty()) =~= strings_view(out@));
                } else {
                    assert(before + Seq::<Seq<char>>::empty() =~= before);
                }
                assert(s@.subrange(hi as int, hi as int) =~= Seq::<char>::empty());
            }
            return out;
        }
        proof {
            let rest = params_spec(s@.subrange(j + 1, hi as int));
            if a < b {
                assert(before + (seq![s@.subrange(a as int, b as int)] + rest) =~= strings_view(
                    out@,
                ) + rest);
            }
        }
        start = j + 1;
    }
}

/// Name, parameters and the bounds of the body in the source characters.
pub(crate) struct Component {
    pub(crate) name: String,
    pub(crate) params: Vec<String>,
    pub(crate) body_lo: usize,
    pub(crate) body_hi: usize,
}

fn component_error(message: &str) -> (r: CompileError)
    ensures
        r@ == CompileErrorView::Component(message@),
{
    CompileError::Component(String::from_str(message))
}

/// The index of the `)` that closes the `(` at `lo`.
fn extract_parens(s: &Vec<char>, lo: usize, hi: usize) -> (r: Result<usize, CompileError>)
    requires
        lo <= hi <= s@.len(),
    ensures
        ({
            let t = s@.subrange(lo as int, hi as int);
            if !(t.len() > 0 && t[0] == '(') {
                r matches Err(e) && e@ == CompileErrorView::Component("expected `(`"@)
            } else {
                match balanced_close(t, '(', ')') {
                    Some(k) => r == Ok::<usize, CompileError>((lo + k) as usize) && lo + k < hi,
                    None => r matches Err(e) && e@ == CompileErrorView::Component(
                        "unclosed `(` in parameter list"@,
                    ),
                }
            }
        }),
{
    if lo >= hi || s[lo] != '(' {
        return Err(component_error("expected `(`"));
    }
    match balanced_close_in(s, lo, hi, '(', ')') {
        Some(k) => Ok(k),
        None => Err(component_error("unclosed `(` in parameter list")),
    }
}

/// The bounds of the block that starts at `lo`, braces excluded.
fn extract_block(s: &Vec<char>, lo: usize, hi: usize) -> (r: Result<(usize, usize), CompileError>)
    requires
        lo <= hi <= s@.len(),
    ensures
        ({
            let t = s@.subrange(lo as int, hi as int);
            if !(t.len() > 0 && t[0] == '{') {
                r matches Err(e) && e@ == CompileErrorView::Component("expected `{`"@)
            } else {
                match balanced_close(t, '{', '}') {
                    Some(d) => r == Ok::<(usize, usize), CompileError>(
                        ((lo + 1) as usize, (lo + d) as usize),
                    ) && 1 <= d && lo + d < hi,
                    None => r matches Err(e) && e@ == CompileErrorView::Component(
                        "unclosed `{` in component body"@,
                    ),
                }
            }
        }),
{
    if lo >= hi || s[lo] != '{' {
        return Err(component_error("expected `{`"));
    }
    match balanced_close_in(s, lo, hi, '{', '}') {
        Some(d) => {
            let ghost t = s@.subrange(lo as int, hi as int);
            assert(close_from(t, 0, 0, '{', '}') == close_from(t, 1, 1, '{', '}'));
            proof {
                lemma_close_from_bounds(t, 1, 1, '{', '}');
            }
            Ok((lo + 1, d))
        },
        None => Err(component_error("unclosed `{` in component body")),
    }
}

/// Takes the declaration in `s` apart; see `envelope_spec`.
#[verifier::rlimit(60)]
pub(crate) fn parse_component(s: &Vec<char>) -> (r: Result<Component, CompileError>)
    ensures
        match envelope_spec(s@) {
            Ok(env) => r matches Ok(c) && c.name@ == env.name && strings_view(c.params@)
                == env.params && 1 <= c.body_lo <= c.body_hi <= s@.len() && s@.subrange(
                c.body_lo as int,
                c.body_hi as int,
            ) == env.body,
            Err(m) => r matches Err(e) && e@ == CompileErrorView::Component(m),
        },
{
    let ghost src = s@;
    let (t0, t1) = trim_bounds(s, 0, s.len());
    assert(s@.subrange(0, s@.len() as int) =~= s@);
    let ghost t = s@.subrange(t0 as int, t1 as int);
    let keyword = vec!['c', 'o', 'm', 'p', 'o', 'n', 'e', 'n', 't'];
    assert(keyword@ =~= component_keyword());
    if t1 - t0 < 9 || !matches_at(s, t0, &keyword) {
        proof {
            if t.len() >= 9 {
                assert(t.take(9) =~= s@.subrange(t0 as int, t0 + 9));
            }
        }
        return Err(component_error("expected `component` keyword"));
    }
    proof {
        assert(t.take(9) =~= s@.subrange(t0 as int, t0 + 9));
        assert(t.skip(9) =~= s@.subrange(t0 + 9, t1 as int));
    }
    let rest_lo = trim_start_bound(s, t0 + 9, t1);
    let ghost rest = s@.subrange(rest_lo as int, t1 as int);
    let ps = find_in(s, rest_lo, t1, '(');
    if ps >= t1 {
        return Err(component_error("missing parameter list"));
    }
    proof {
        lemma_find_char_bounds(rest, 0, '(');
        assert(rest.take(ps - rest_lo) =~= s@.subrange(rest_lo as int, ps as int));
        assert(rest.skip(ps - rest_lo) =~= s@.subrange(ps as int, t1 as int));
    }
    let (n0, n1) = trim_bounds(s, rest_lo, ps);
    if n0 >= n1 {
        return Err(component_error("missing component name"));
    }
    let name = string_of(s, n0, n1);
    let close = match extract_parens(s, ps, t1) {
        Ok(c) => c,
        Err(e) => {
            return Err(e);
        },
    };
    let ghost c = close - ps;
    proof {
        lemma_close_from_bounds(s@.subrange(ps as int, t1 as int), 0, 0, '(', ')');
        assert(rest.subrange(ps - rest_lo + 1, ps - rest_lo + c) =~= s@.subrange(
            ps + 1,
            close as int,
        ));
        assert(rest.skip(ps - rest_lo + c + 1) =~= s@.subrange(close + 1, t1 as int));
    }
    let params = parse_params(s, ps + 1, close);
    let after_lo = trim_start_bound(s, close + 1, t1);
    let (body_lo, body_hi) = match extract_block(s, after_lo, t1) {
        Ok(b) => b,
        Err(e) => {
            return Err(e);
        },
    };
    proof {
        let after = s@.subrange(after_lo as int, t1 as int);
        assert(after.subrange(1, body_hi - after_lo) =~= s@.subrange(
            body_lo as int,
            body_hi as int,
        ));
    }
    Ok(Component { name, params, body_lo, body_hi })
}

/// The bounds of the markup in the body `s[lo..hi]`; see `markup_spec`.
pub(crate) fn extract_markup(s: &Vec<char>, lo: usize, hi: usize) -> (r: Result<(usize, usize), CompileError>)
    requires
        lo <= hi <= s@.len(),
    ensures
        match markup_spec(s@.subrange(lo as int, hi as int)) {
            Ok(m) => r matches Ok((a, b)) && lo <= a <= b <= hi && s@.subrange(a as int, b as int)
                == m,
            Err(msg) => r matches Err(e) && e@ == CompileErrorView::Component(msg),
        },
{
    let ghost body = s@.subrange(lo as int, hi as int);
    let keyword = vec!['r', 'e', 't', 'u', 'r', 'n'];
    assert(keyword@ =~= return_keyword());
    let k = find_seq_in(s, lo, hi, &keyword);
    if k >= hi {
        return Err(component_error("missing `return` in component body"));
    }
    proof {
        lemma_find_seq_bounds(body, return_keyword(), 0);
        assert(body.skip(k - lo + 6) =~= s@.subrange(k + 6, hi as int));
    }
    let (a0, b0) = trim_bounds(s, k + 6, hi);
    let ghost m0 = s@.subrange(a0 as int, b0 as int);
    assert(m0 == trim_ws(body.skip(k - lo + 6)));
    let mut a = a0;
    let mut b = b0;
    if a < b && s[b - 1] == ';' {
        assert(m0.drop_last() =~= s@.subrange(a as int, b - 1));
        b = trim_end_bound(s, a, b - 1);
    }
    let ghost m1 = s@.subrange(a as int, b as int);
    assert(m1 == if m0.len() > 0 && m0.last() == ';' {
        trim_end_ws(m0.drop_last())
    } else {
        m0
    });
    let ghost m2 = if m1.len() >= 2 && m1[0] == '(' && balanced_close(m1, '(', ')') == Some(
        m1.len() - 1,
    ) {
        trim_ws(m1.subrange(1, m1.len() - 1))
    } else {
        m1
    };
    if b - a >= 2 && s[a] == '(' {
        let closing = balanced_close_in(s, a, b, '(', ')');
        let wraps = match closing {
            Some(c) => c == b - 1,
            None => false,
        };
        if wraps {
            proof {
                lemma_close_from_bounds(m1, 0, 0, '(', ')');
            }
            assert(m1.subrange(1, m1.len() - 1) =~= s@.subrange(a + 1, b - 1));
            let (a2, b2) = trim_bounds(s, a + 1, b - 1);
            a = a2;
            b = b2;
        } else {
            proof {
                lemma_close_from_bounds(m1, 0, 0, '(', ')');
            }
        }
    } else {
        assert(!(m1.len() >= 2 && m1[0] == '('));
    }
    assert(s@.subrange(a as int, b as int) == m2);
    if a >= b {
        return Err(component_error("empty return body"));
    }
    Ok((a, b))
}

/// The emitted function; see `render_component_spec`.
pub(crate) fn render_component(name: &str, params: &Vec<String>, tsx: &str) -> (r: String)
    ensures
        r@ == render_component_spec(name@, strings_view(params@), tsx@),
{
    let mut binding = String::new();
    if params.len() == 0 {
        binding.append("()");
    } else {
        binding.append("({ ");
        let mut i: usize = 0;
        let mut joined = String::new();
        while i < params.len()
            invariant
                i <= params@.len(),
                params@.len() > 0,
                joined@ == join_params(strings_view(params@.subrange(0, i as int))),
            decreases params@.len() - i,
        {
            let ghost pre = strings_view(params@.subrange(0, i as int));
            if i > 0 {
                joined.append(", ");
            }
            joined.append(params[i].as_str());
            proof {
                let next = strings_view(params@.subrange(0, i + 1));
                assert(next.drop_last() =~= pre);
                if i == 0 {
                    assert(pre =~= Seq::<Seq<char>>::empty());
                    assert(joined@ =~= next[0]);
                }
            }
            i = i + 1;
        }
        assert(params@.subrange(0, params@.len() as int) =~= params@);
        binding.append(joined.as_str());
        binding.append(" })");
    }
    let mut output = String::new();
    output.append("export function ");
    output.append(name);
    output.append(binding.as_str());
    output.append(" {\n");
    output.append("  return ");
    output.append(tsx);
    output.append(";\n}\n");
    proof {
        let ps = strings_view(params@);
        if ps.len() == 0 {
            assert(output@ =~= render_component_spec(name@, ps, tsx@));
        } else {
            assert(output@ =~= render_component_spec(name@, ps, tsx@));
        }
    }
    output
}

} // verus!

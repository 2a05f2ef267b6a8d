//! Character-level helpers: UTF-8 widths, character classes and building
//! strings one character at a time.

use vstd::prelude::*;
use vstd::std_specs::iter::IteratorSpec;
use vstd::utf8::{char_is_scalar, encode_scalar, encode_utf8};

verus! {

/// Number of bytes that the UTF-8 encoding of `c` takes.
pub open spec fn char_width(c: char) -> nat {
    let u = c as u32;
    if u <= 0x7F {
        1
    } else if u <= 0x7FF {
        2
    } else if u <= 0xFFFF {
        3
    } else {
        4
    }
}

/// Number of bytes that the UTF-8 encoding of `t` takes.
pub open spec fn byte_len(t: Seq<char>) -> nat
    decreases t.len(),
{
    if t.len() == 0 {
        0
    } else {
        byte_len(t.drop_last()) + char_width(t.last())
    }
}

/// Byte offset of the character at index `i` of `s`.
pub open spec fn offset_at(s: Seq<char>, i: int) -> nat {
    byte_len(s.take(i))
}

/// Unicode `White_Space` characters.
pub open spec fn is_white_space(c: char) -> bool {
    ||| ('\t' <= c && c <= '\r')
    ||| c == ' '
    ||| c == '\u{85}'
    ||| c == '\u{A0}'
    ||| c == '\u{1680}'
    ||| ('\u{2000}' <= c && c <= '\u{200A}')
    ||| c == '\u{2028}'
    ||| c == '\u{2029}'
    ||| c == '\u{202F}'
    ||| c == '\u{205F}'
    ||| c == '\u{3000}'
}

/// ASCII letters.
pub open spec fn is_ascii_letter(c: char) -> bool {
    ('a' <= c && c <= 'z') || ('A' <= c && c <= 'Z')
}

/// ASCII digits.
pub open spec fn is_ascii_digit(c: char) -> bool {
    '0' <= c && c <= '9'
}

/// First character of an identifier: an ASCII letter or `_`.
pub open spec fn is_ident_start(c: char) -> bool {
    is_ascii_letter(c) || c == '_'
}

/// Later characters of an identifier: ASCII letters, digits, `_` and `-`.
pub open spec fn is_ident_continue(c: char) -> bool {
    is_ascii_letter(c) || is_ascii_digit(c) || c == '_' || c == '-'
}

/// `t` without its leading white space.
pub open spec fn trim_start_ws(t: Seq<char>) -> Seq<char>
    decreases t.len(),
{
    if t.len() > 0 && is_white_space(t[0]) {
        trim_start_ws(t.drop_first())
    } else {
        t
    }
}

/// `t` without its trailing white space.
pub open spec fn trim_end_ws(t: Seq<char>) -> Seq<char>
    decreases t.len(),
{
    if t.len() > 0 && is_white_space(t.last()) {
        trim_end_ws(t.drop_last())
    } else {
        t
    }
}

/// `t` without leading and trailing white space.
pub open spec fn trim_ws(t: Seq<char>) -> Seq<char> {
    trim_end_ws(trim_start_ws(t))
}

/// Number of bytes in the UTF-8 encoding of `c`.
pub fn width_of(c: char) -> (r: usize)
    ensures
        r == char_width(c),
{
    let u = c as u32;
    if u <= 0x7F {
        1
    } else if u <= 0x7FF {
        2
    } else if u <= 0xFFFF {
        3
    } else {
        4
    }
}

/// Whether `c` is a Unicode white space character.
pub fn is_space(c: char) -> (r: bool)
    ensures
        r == is_white_space(c),
{
    ('\t' <= c && c <= '\r') || c == ' ' || c == '\u{85}' || c == '\u{A0}' || c == '\u{1680}'
        || ('\u{2000}' <= c && c <= '\u{200A}') || c == '\u{2028}' || c == '\u{2029}' || c
        == '\u{202F}' || c == '\u{205F}' || c == '\u{3000}'
}

/// Whether `c` can start an identifier.
pub fn ident_start(c: char) -> (r: bool)
    ensures
        r == is_ident_start(c),
{
    ('a' <= c && c <= 'z') || ('A' <= c && c <= 'Z') || c == '_'
}

/// Whether `c` can continue an identifier.
pub fn ident_continue(c: char) -> (r: bool)
    ensures
        r == is_ident_continue(c),
{
    ('a' <= c && c <= 'z') || ('A' <= c && c <= 'Z') || ('0' <= c && c <= '9') || c == '_' || c
        == '-'
}

proof fn lemma_encode_concat(a: Seq<char>, b: Seq<char>)
    ensures
        encode_utf8(a + b) == encode_utf8(a) + encode_utf8(b),
    decreases a.len(),
{
    if a.len() > 0 {
        assert((a + b).drop_first() =~= a.drop_first() + b);
        lemma_encode_concat(a.drop_first(), b);
        assert(encode_utf8(a + b) =~= encode_utf8(a) + encode_utf8(b));
    } else {
        assert(a + b =~= b);
        assert(encode_utf8(a) + encode_utf8(b) =~= encode_utf8(b));
    }
}

proof fn lemma_width_is_encoding_len(c: char)
    ensures
        encode_scalar(c as u32).len() == char_width(c),
{
    char_is_scalar(c);
}

/// `byte_len` is the length of the UTF-8 encoding.
pub proof fn lemma_byte_len_is_utf8_len(t: Seq<char>)
    ensures
        byte_len(t) == encode_utf8(t).len(),
    decreases t.len(),
{
    if t.len() > 0 {
        let a = t.drop_last();
        let c = t.last();
        lemma_byte_len_is_utf8_len(a);
        assert(t =~= a + seq![c]);
        lemma_encode_concat(a, seq![c]);
        assert(seq![c].drop_first() =~= Seq::<char>::empty());
        assert(encode_utf8(seq![c]) =~= encode_scalar(c as u32) + encode_utf8(
            Seq::<char>::empty(),
        ));
        lemma_width_is_encoding_len(c);
    }
}

/// Byte lengths add up over concatenation.
pub proof fn lemma_byte_len_concat(a: Seq<char>, b: Seq<char>)
    ensures
        byte_len(a + b) == byte_len(a) + byte_len(b),
    decreases b.len(),
{
    if b.len() == 0 {
        assert(a + b =~= a);
    } else {
        assert((a + b).drop_last() =~= a + b.drop_last());
        lemma_byte_len_concat(a, b.drop_last());
    }
}

/// Offsets grow by the width of each character passed.
pub proof fn lemma_offset_step(s: Seq<char>, i: int)
    requires
        0 <= i < s.len(),
    ensures
        offset_at(s, i + 1) == offset_at(s, i) + char_width(s[i]),
{
    assert(s.take(i + 1).drop_last() =~= s.take(i));
}

/// Offsets grow strictly with the index and are bounded by the whole length.
pub proof fn lemma_offset_mono(s: Seq<char>, i: int, j: int)
    requires
        0 <= i <= j <= s.len(),
    ensures
        offset_at(s, i) + (j - i) <= offset_at(s, j) <= byte_len(s),
    decreases j - i,
{
    if i < j {
        lemma_offset_mono(s, i, j - 1);
        lemma_offset_step(s, j - 1);
    }
    lemma_byte_len_concat(s.take(j), s.skip(j));
    assert(s.take(j) + s.skip(j) =~= s);
}

/// Relies on `String::push`: the character is appended at the end.
#[verifier::external_body]
pub(crate) fn push_char(s: &mut String, c: char)
    ensures
        final(s)@ == old(s)@.push(c),
{
    s.push(c);
}

/// A fresh string holding `t[lo..hi]`.
pub fn string_of(t: &Vec<char>, lo: usize, hi: usize) -> (r: String)
    requires
        lo <= hi <= t@.len(),
    ensures
        r@ == t@.subrange(lo as int, hi as int),
{
    let mut r = String::new();
    let mut i = lo;
    while i < hi
        invariant
            lo <= i <= hi <= t@.len(),
            r@ == t@.subrange(lo as int, i as int),
        decreases hi - i,
    {
        push_char(&mut r, t[i]);
        assert(t@.subrange(lo as int, i + 1) =~= t@.subrange(lo as int, i as int).push(t@[i as int]));
        i = i + 1;
    }
    r
}

/// Where `s[lo..hi]` starts once leading white space is skipped.
pub fn trim_start_bound(s: &Vec<char>, lo: usize, hi: usize) -> (a: usize)
    requires
        lo <= hi <= s@.len(),
    ensures
        lo <= a <= hi,
        s@.subrange(a as int, hi as int) == trim_start_ws(s@.subrange(lo as int, hi as int)),
{
    let mut a = lo;
    while a < hi && is_space(s[a])
        invariant
            lo <= a <= hi <= s@.len(),
            trim_start_ws(s@.subrange(lo as int, hi as int)) == trim_start_ws(
                s@.subrange(a as int, hi as int),
            ),
        decreases hi - a,
    {
        assert(s@.subrange(a as int, hi as int).drop_first() =~= s@.subrange(a + 1, hi as int));
        a = a + 1;
    }
    a
}

/// Where `s[lo..hi]` ends once trailing white space is dropped.
pub fn trim_end_bound(s: &Vec<char>, lo: usize, hi: usize) -> (b: usize)
    requires
        lo <= hi <= s@.len(),
    ensures
        lo <= b <= hi,
        s@.subrange(lo as int, b as int) == trim_end_ws(s@.subrange(lo as int, hi as int)),
{
    let mut b = hi;
    while lo < b && is_space(s[b - 1])
        invariant
            lo <= b <= hi <= s@.len(),
            trim_end_ws(s@.subrange(lo as int, hi as int)) == trim_end_ws(
                s@.subrange(lo as int, b as int),
            ),
        decreases b - lo,
    {
        assert(s@.subrange(lo as int, b as int).drop_last() =~= s@.subrange(lo as int, b - 1));
        b = b - 1;
    }
    b
}

/// The bounds of `s[lo..hi]` with leading and trailing white space removed.
pub fn trim_bounds(s: &Vec<char>, lo: usize, hi: usize) -> (r: (usize, usize))
    requires
        lo <= hi <= s@.len(),
    ensures
        lo <= r.0 <= r.1 <= hi,
        s@.subrange(r.0 as int, r.1 as int) == trim_ws(s@.subrange(lo as int, hi as int)),
{
    let a = trim_start_bound(s, lo, hi);
    let b = trim_end_bound(s, a, hi);
    (a, b)
}

/// The byte length of a slice is the difference of the offsets at its ends.
pub proof fn lemma_byte_len_subrange(s: Seq<char>, lo: int, hi: int)
    requires
        0 <= lo <= hi <= s.len(),
    ensures
        byte_len(s.subrange(lo, hi)) == offset_at(s, hi) - offset_at(s, lo),
        byte_len(s.subrange(lo, hi)) + (s.len() - (hi - lo)) <= byte_len(s),
{
    assert(s.take(hi) =~= s.take(lo) + s.subrange(lo, hi));
    lemma_byte_len_concat(s.take(lo), s.subrange(lo, hi));
    lemma_offset_mono(s, 0, lo);
    lemma_offset_mono(s, hi, s.len() as int);
    lemma_offset_mono(s, lo, hi);
    assert(s.take(0) =~= Seq::<char>::empty());
    assert(s.take(s.len() as int) =~= s);
}

/// The characters of `s`, in order.
pub fn chars_of(s: &str) -> (r: Vec<char>)
    ensures
        r@ == s@,
{
    broadcast use vstd::string::group_string_axioms;

    let mut r: Vec<char> = Vec::new();
    let mut it = s.chars();
    loop
        invariant
            r@ + it.remaining() == s@,
            it.decrease() is Some,
        ensures
            r@ == s@,
        decreases it.decrease()->0,
    {
        match it.next() {
            Some(c) => {
                r.push(c);
            },
            None => {
                assert(r@ =~= s@);
                break;
            },
        }
    }
    r
}

} // verus!

//! The coordinates string "(x, y, w, h)": rendering a rectangle into it and
//! parsing it back.
//!
//! Parsing mirrors how the annotator reads the string: strip '(' and ')'
//! from both ends, split on the exact separator ", ", parse each piece as an
//! `i32` keeping the pieces that parse, and accept exactly four numbers.

use vstd::prelude::*;
use vstd::string::StringExecFns;
use crate::model::Rect;
use crate::numfmt::{
    int_seq,
    is_digit,
    parse_int_spec,
    parse_int_chars,
    append_i32,
    lemma_dec_seq,
    lemma_parse_int_round_trip,
    dec_seq,
};
use crate::text::{chars_of, sub_chars};

verus! {

/// The rendering of a rectangle as "(x, y, w, h)".
pub open spec fn coords_seq(r: Rect) -> Seq<char> {
    seq!['('] + int_seq(r.x as int) + seq![',', ' '] + int_seq(r.y as int) + seq![',', ' ']
        + int_seq(r.w as int) + seq![',', ' '] + int_seq(r.h as int) + seq![')']
}

/// Renders `r` as "(x, y, w, h)".
pub fn coords_string(r: &Rect) -> (s: String)
    ensures
        s@ == coords_seq(*r),
{
    let mut s = String::new();
    s.append("(");
    append_i32(&mut s, r.x);
    s.append(", ");
    append_i32(&mut s, r.y);
    s.append(", ");
    append_i32(&mut s, r.w);
    s.append(", ");
    append_i32(&mut s, r.h);
    s.append(")");
    proof {
        reveal_strlit("(");
        reveal_strlit(", ");
        reveal_strlit(")");
        assert(("(")@ =~= seq!['(']);
        assert((", ")@ =~= seq![',', ' ']);
        assert((")")@ =~= seq![')']);
        assert(s@ =~= coords_seq(*r));
    }
    s
}

pub open spec fn is_paren(c: char) -> bool {
    c == '(' || c == ')'
}

/// `s` with leading '(' and ')' characters removed.
pub open spec fn trim_start_parens(s: Seq<char>) -> Seq<char>
    decreases s.len(),
{
    if s.len() > 0 && is_paren(s[0]) {
        trim_start_parens(s.drop_first())
    } else {
        s
    }
}

/// `s` with trailing '(' and ')' characters removed.
pub open spec fn trim_end_parens(s: Seq<char>) -> Seq<char>
    decreases s.len(),
{
    if s.len() > 0 && is_paren(s.last()) {
        trim_end_parens(s.drop_last())
    } else {
        s
    }
}

/// `s` with '(' and ')' characters removed from both ends.
pub open spec fn trim_parens(s: Seq<char>) -> Seq<char> {
    trim_end_parens(trim_start_parens(s))
}

/// The separator ", " occurs in `s` starting at position `t`.
pub open spec fn sep_at(s: Seq<char>, t: int) -> bool {
    0 <= t && t + 1 < s.len() && s[t] == ',' && s[t + 1] == ' '
}

/// The position of the first ", " in `s`, if any.
pub open spec fn find_sep(s: Seq<char>) -> Option<int>
    decreases s.len(),
{
    if s.len() < 2 {
        None
    } else if s[0] == ',' && s[1] == ' ' {
        Some(0)
    } else {
        match find_sep(s.drop_first()) {
            Some(i) => Some(i + 1),
            None => None,
        }
    }
}

/// `find_sep` finds the first separator: where it answers, a separator
/// starts there and nowhere earlier; where it does not, there is none.
pub proof fn lemma_find_sep_bounds(s: Seq<char>)
    ensures
        match find_sep(s) {
            Some(i) => sep_at(s, i) && (forall|t: int| 0 <= t < i ==> !#[trigger] sep_at(s, t)),
            None => forall|t: int| !#[trigger] sep_at(s, t),
        },
    decreases s.len(),
{
    if s.len() < 2 {
    } else if s[0] == ',' && s[1] == ' ' {
    } else {
        lemma_find_sep_bounds(s.drop_first());
        assert forall|t: int| 1 <= t && t + 1 < s.len() implies sep_at(s, t) == sep_at(
            s.drop_first(),
            t - 1,
        ) by {
            assert(s.drop_first()[t - 1] == s[t]);
            assert(s.drop_first()[t] == s[t + 1]);
        }
        match find_sep(s.drop_first()) {
            Some(j) => {
                assert(sep_at(s, j + 1));
                assert forall|t: int| 0 <= t < j + 1 implies !#[trigger] sep_at(s, t) by {
                    if t != 0 {
                        assert(!sep_at(s.drop_first(), t - 1));
                    }
                }
            },
            None => {
                assert forall|t: int| !#[trigger] sep_at(s, t) by {
                    if 1 <= t && t + 1 < s.len() {
                        assert(!sep_at(s.drop_first(), t - 1));
                    }
                }
            },
        }
    }
}

/// If a separator starts at `p` and nowhere earlier, `find_sep` answers `p`.
pub proof fn lemma_find_sep_at(s: Seq<char>, p: int)
    requires
        sep_at(s, p),
        forall|t: int| 0 <= t < p ==> !#[trigger] sep_at(s, t),
    ensures
        find_sep(s) == Some(p),
{
    lemma_find_sep_bounds(s);
    match find_sep(s) {
        Some(i) => {
            if i < p {
                assert(!sep_at(s, i));
            } else if i > p {
                assert(!sep_at(s, p));
            }
        },
        None => {
            assert(!sep_at(s, p));
        },
    }
}

/// If no separator occurs anywhere in `s`, `find_sep` answers nothing.
pub proof fn lemma_find_sep_none(s: Seq<char>)
    requires
        forall|t: int| !#[trigger] sep_at(s, t),
    ensures
        find_sep(s) == None::<int>,
{
    lemma_find_sep_bounds(s);
    match find_sep(s) {
        Some(i) => {
            assert(!sep_at(s, i));
        },
        None => {},
    }
}

/// `s` split on each occurrence of ", ", left to right.
pub open spec fn split_sep(s: Seq<char>) -> Seq<Seq<char>>
    decreases s.len(),
    via split_sep_via
{
    match find_sep(s) {
        None => seq![s],
        Some(i) => seq![s.take(i)] + split_sep(s.skip(i + 2)),
    }
}

#[via_fn]
proof fn split_sep_via(s: Seq<char>) {
    lemma_find_sep_bounds(s);
}

/// The values of the tokens that parse as an `i32`, in order.
pub open spec fn parsed_vals(toks: Seq<Seq<char>>) -> Seq<i32>
    decreases toks.len(),
{
    if toks.len() == 0 {
        Seq::empty()
    } else {
        (match parse_int_spec(toks[0]) {
            Some(a) => seq![a],
            None => Seq::empty(),
        }) + parsed_vals(toks.drop_first())
    }
}

/// The numbers a coordinates-like string holds once parens are stripped and
/// the string is split on ", ": the tokens that parse, in order.
pub open spec fn coord_vals(s: Seq<char>) -> Seq<i32> {
    parsed_vals(split_sep(trim_parens(s)))
}

/// What parsing a coordinates string yields: a rectangle exactly when the
/// string holds exactly four parseable numbers.
pub open spec fn parse_coords_spec(s: Seq<char>) -> Option<Rect> {
    let vals = coord_vals(s);
    if vals.len() == 4 {
        Some(Rect { x: vals[0], y: vals[1], w: vals[2], h: vals[3] })
    } else {
        None
    }
}

/// Prepending one token to a token list prepends its parsed value, if any.
pub proof fn lemma_parsed_vals_prepend(tok: Seq<char>, rest: Seq<Seq<char>>)
    ensures
        parsed_vals(seq![tok] + rest) == (match parse_int_spec(tok) {
            Some(a) => seq![a],
            None => Seq::<i32>::empty(),
        }) + parsed_vals(rest),
{
    let s = seq![tok] + rest;
    assert(s[0] == tok);
    assert(s.drop_first() =~= rest);
}

/// A string with no comma is a single token.
pub proof fn lemma_split_no_comma(a: Seq<char>)
    requires
        forall|t: int| 0 <= t < a.len() ==> (#[trigger] a[t]) != ',',
    ensures
        split_sep(a) == seq![a],
{
    assert forall|t: int| !#[trigger] sep_at(a, t) by {
        if 0 <= t && t + 1 < a.len() {
            assert(a[t] != ',');
        }
    }
    lemma_find_sep_none(a);
}

/// Splitting `a + ", " + b` where `a` has no comma yields `a` and then the
/// splitting of `b`.
pub proof fn lemma_split_prepend(a: Seq<char>, b: Seq<char>)
    requires
        forall|t: int| 0 <= t < a.len() ==> (#[trigger] a[t]) != ',',
    ensures
        split_sep(a + seq![',', ' '] + b) == seq![a] + split_sep(b),
{
    let s = a + seq![',', ' '] + b;
    let al = a.len() as int;
    assert(s[al] == ',');
    assert(s[al + 1] == ' ');
    assert(sep_at(s, al));
    assert forall|t: int| 0 <= t < al implies !#[trigger] sep_at(s, t) by {
        assert(s[t] == a[t]);
    }
    lemma_find_sep_at(s, al);
    assert(s.take(al) =~= a);
    assert(s.skip(al + 2) =~= b);
}

/// Parsing a coordinates string: strip parens, split on ", ", parse tokens
/// keeping those that parse, and accept exactly four numbers.
pub fn parse_coords(s: &str) -> (r: Option<Rect>)
    ensures
        r == parse_coords_spec(s@),
{
    let v = chars_of(s);
    let n = v.len();
    let mut lo: usize = 0;
    proof {
        assert(s@.skip(0) =~= s@);
    }
    while lo < n && (v[lo] == '(' || v[lo] == ')')
        invariant
            lo <= n,
            n == v@.len(),
            v@ == s@,
            trim_start_parens(s@) == trim_start_parens(s@.skip(lo as int)),
        decreases n - lo,
    {
        proof {
            assert(s@.skip(lo as int)[0] == s@[lo as int]);
            assert(s@.skip(lo as int).drop_first() =~= s@.skip(lo as int + 1));
        }
        lo += 1;
    }
    proof {
        if lo == n {
            assert(s@.skip(n as int) =~= Seq::<char>::empty());
        } else {
            assert(s@.skip(lo as int)[0] == s@[lo as int]);
        }
        assert(trim_start_parens(s@) == s@.skip(lo as int));
        assert(s@.subrange(lo as int, n as int) =~= s@.skip(lo as int));
    }
    let mut hi: usize = n;
    while hi > lo && (v[hi - 1] == '(' || v[hi - 1] == ')')
        invariant
            lo <= hi <= n,
            n == v@.len(),
            v@ == s@,
            trim_end_parens(s@.skip(lo as int)) == trim_end_parens(
                s@.subrange(lo as int, hi as int),
            ),
        decreases hi,
    {
        proof {
            let sub = s@.subrange(lo as int, hi as int);
            assert(sub.last() == s@[hi as int - 1]);
            assert(sub.drop_last() =~= s@.subrange(lo as int, hi as int - 1));
        }
        hi -= 1;
    }
    proof {
        let sub = s@.subrange(lo as int, hi as int);
        if hi > lo {
            assert(sub.last() == s@[hi as int - 1]);
        }
        assert(trim_parens(s@) == s@.subrange(lo as int, hi as int));
    }
    let mut vals: Vec<i32> = Vec::new();
    let mut t: usize = lo;
    let mut p: usize = lo;
    proof {
        assert(Seq::<i32>::empty() + parsed_vals(split_sep(s@.subrange(lo as int, hi as int)))
            =~= parsed_vals(split_sep(s@.subrange(lo as int, hi as int))));
    }
    while p < hi
        invariant
            lo <= t <= p <= hi <= n,
            n == v@.len(),
            v@ == s@,
            trim_parens(s@) == s@.subrange(lo as int, hi as int),
            coord_vals(s@) == vals@ + parsed_vals(split_sep(s@.subrange(t as int, hi as int))),
            forall|j: int|
                0 <= j < p as int - t as int ==> !#[trigger] sep_at(
                    s@.subrange(t as int, hi as int),
                    j,
                ),
        decreases hi - p,
    {
        let is_sep = p + 1 < hi && v[p] == ',' && v[p + 1] == ' ';
        if is_sep {
            let tok = sub_chars(&v, t, p);
            let ghost prev_vals = vals@;
            match parse_int_chars(&tok) {
                Some(a) => {
                    vals.push(a);
                },
                None => {},
            }
            proof {
                let sub = s@.subrange(t as int, hi as int);
                let rel = p as int - t as int;
                assert(sub[rel] == s@[p as int]);
                assert(sub[rel + 1] == s@[p as int + 1]);
                assert(sep_at(sub, rel));
                lemma_find_sep_at(sub, rel);
                assert(sub.take(rel) =~= s@.subrange(t as int, p as int));
                assert(sub.skip(rel + 2) =~= s@.subrange(p as int + 2, hi as int));
                let rest = split_sep(s@.subrange(p as int + 2, hi as int));
                assert(split_sep(sub) == seq![s@.subrange(t as int, p as int)] + rest);
                lemma_parsed_vals_prepend(s@.subrange(t as int, p as int), rest);
                assert(vals@ =~= prev_vals + (match parse_int_spec(
                    s@.subrange(t as int, p as int),
                ) {
                    Some(a) => seq![a],
                    None => Seq::<i32>::empty(),
                }));
                assert(prev_vals + parsed_vals(split_sep(sub)) =~= vals@ + parsed_vals(rest));
            }
            t = p + 2;
            p = p + 2;
        } else {
            proof {
                let sub = s@.subrange(t as int, hi as int);
                let rel = p as int - t as int;
                assert(sub[rel] == s@[p as int]);
                if rel + 1 < sub.len() {
                    assert(sub[rel + 1] == s@[p as int + 1]);
                }
                assert(!sep_at(sub, rel));
            }
            p += 1;
        }
    }
    let tok = sub_chars(&v, t, hi);
    let ghost prev_vals = vals@;
    match parse_int_chars(&tok) {
        Some(a) => {
            vals.push(a);
        },
        None => {},
    }
    proof {
        let sub = s@.subrange(t as int, hi as int);
        assert forall|j: int| !#[trigger] sep_at(sub, j) by {
            if 0 <= j && j + 1 < sub.len() {
                assert(!sep_at(sub, j));
            }
        }
        lemma_find_sep_none(sub);
        assert(split_sep(sub) == seq![sub]);
        lemma_parsed_vals_prepend(sub, Seq::<Seq<char>>::empty());
        assert(seq![sub] =~= seq![sub] + Seq::<Seq<char>>::empty());
        assert(parsed_vals(Seq::<Seq<char>>::empty()) =~= Seq::<i32>::empty());
        assert(vals@ =~= prev_vals + (match parse_int_spec(sub) {
            Some(a) => seq![a],
            None => Seq::<i32>::empty(),
        }));
        assert(coord_vals(s@) == vals@);
    }
    if vals.len() == 4 {
        Some(Rect { x: vals[0], y: vals[1], w: vals[2], h: vals[3] })
    } else {
        None
    }
}

/// Rendering a rectangle as "(x, y, w, h)" and parsing the rendering gives
/// the same rectangle back.
pub proof fn lemma_parse_coords_round_trip(r: Rect)
    ensures
        parse_coords_spec(coords_seq(r)) == Some(r),
{
    let ix = int_seq(r.x as int);
    let iy = int_seq(r.y as int);
    let iw = int_seq(r.w as int);
    let ih = int_seq(r.h as int);
    let sep = seq![',', ' '];
    lemma_int_seq_chars(r.x as int);
    lemma_int_seq_chars(r.y as int);
    lemma_int_seq_chars(r.w as int);
    lemma_int_seq_chars(r.h as int);
    let t3 = iw + sep + ih;
    let t2 = iy + sep + t3;
    let t1 = ix + sep + t2;
    let c = coords_seq(r);
    assert(c[0] == '(');
    assert(c.drop_first() =~= t1 + seq![')']);
    assert((t1 + seq![')'])[0] == ix[0]);
    assert(trim_start_parens(c) == trim_start_parens(t1 + seq![')']));
    assert(!is_paren(ix[0]));
    assert(trim_start_parens(t1 + seq![')']) == t1 + seq![')']);
    assert((t1 + seq![')']).last() == ')');
    assert((t1 + seq![')']).drop_last() =~= t1);
    assert(t1.last() == ih.last());
    assert(!is_paren(t1.last()));
    assert(trim_end_parens(t1) == t1);
    assert(trim_end_parens(t1 + seq![')']) == t1);
    assert(trim_parens(c) == t1);
    assert forall|t: int| 0 <= t < ix.len() implies (#[trigger] ix[t]) != ',' by {
        assert(ix[t] == '-' || is_digit(ix[t]));
    }
    assert forall|t: int| 0 <= t < iy.len() implies (#[trigger] iy[t]) != ',' by {
        assert(iy[t] == '-' || is_digit(iy[t]));
    }
    assert forall|t: int| 0 <= t < iw.len() implies (#[trigger] iw[t]) != ',' by {
        assert(iw[t] == '-' || is_digit(iw[t]));
    }
    assert forall|t: int| 0 <= t < ih.len() implies (#[trigger] ih[t]) != ',' by {
        assert(ih[t] == '-' || is_digit(ih[t]));
    }
    lemma_split_prepend(ix, t2);
    lemma_split_prepend(iy, t3);
    lemma_split_prepend(iw, ih);
    lemma_split_no_comma(ih);
    let toks = split_sep(t1);
    assert(toks =~= seq![ix, iy, iw, ih]);
    lemma_parse_int_round_trip(r.x);
    lemma_parse_int_round_trip(r.y);
    lemma_parse_int_round_trip(r.w);
    lemma_parse_int_round_trip(r.h);
    assert(seq![ix, iy, iw, ih] =~= seq![ix] + seq![iy, iw, ih]);
    assert(seq![iy, iw, ih] =~= seq![iy] + seq![iw, ih]);
    assert(seq![iw, ih] =~= seq![iw] + seq![ih]);
    assert(seq![ih] =~= seq![ih] + Seq::<Seq<char>>::empty());
    lemma_parsed_vals_prepend(ix, seq![iy, iw, ih]);
    lemma_parsed_vals_prepend(iy, seq![iw, ih]);
    lemma_parsed_vals_prepend(iw, seq![ih]);
    lemma_parsed_vals_prepend(ih, Seq::<Seq<char>>::empty());
    assert(parsed_vals(Seq::<Seq<char>>::empty()) =~= Seq::<i32>::empty());
    let vals = coord_vals(c);
    assert(vals =~= seq![r.x, r.y, r.w, r.h]);
    assert(parse_coords_spec(c) == Some(Rect { x: r.x, y: r.y, w: r.w, h: r.h }));
    assert(Rect { x: r.x, y: r.y, w: r.w, h: r.h } == r);
}

/// Every character of an integer rendering is a digit or a leading '-';
/// in particular the rendering is nonempty and ends in a digit.
pub proof fn lemma_int_seq_chars(n: int)
    ensures
        int_seq(n).len() >= 1,
        is_digit(int_seq(n).last()),
        forall|i: int|
            0 <= i < int_seq(n).len() ==> (#[trigger] int_seq(n)[i]) == '-' || is_digit(
                int_seq(n)[i],
            ),
{
    if n < 0 {
        lemma_dec_seq((-n) as nat);
        let d = dec_seq((-n) as nat);
        let s = seq!['-'] + d;
        assert(s.last() == d.last());
        assert(is_digit(d[d.len() - 1]));
        assert forall|i: int| 0 <= i < s.len() implies (#[trigger] s[i]) == '-' || is_digit(
            s[i],
        ) by {
            if i >= 1 {
                assert(s[i] == d[i - 1]);
            }
        }
    } else {
        lemma_dec_seq(n as nat);
        let d = dec_seq(n as nat);
        assert(is_digit(d[d.len() - 1]));
    }
}

} // verus!

//! Decimal rendering and parsing of integers.
//!
//! `dec_seq` / `int_seq` give the canonical decimal rendering of a number as a
//! character sequence; `parse_int_spec` says which character sequences are
//! integer literals and what value they denote. The executable functions
//! render into a `String` and parse from a character vector, each proved
//! against those specs.

use vstd::prelude::*;
use vstd::string::StringExecFns;

verus! {

pub open spec fn is_digit(c: char) -> bool {
    48 <= c as u32 <= 57
}

pub open spec fn digit_val(c: char) -> nat
    recommends
        is_digit(c),
{
    (c as u32 - 48) as nat
}

pub open spec fn digit_char(d: nat) -> char
    recommends
        d < 10,
{
    if d == 0 {
        '0'
    } else if d == 1 {
        '1'
    } else if d == 2 {
        '2'
    } else if d == 3 {
        '3'
    } else if d == 4 {
        '4'
    } else if d == 5 {
        '5'
    } else if d == 6 {
        '6'
    } else if d == 7 {
        '7'
    } else if d == 8 {
        '8'
    } else {
        '9'
    }
}

/// The value of a sequence of decimal digits, most significant first.
pub open spec fn seq_val(s: Seq<char>) -> nat
    recommends
        all_digits(s),
    decreases s.len(),
{
    if s.len() == 0 {
        0
    } else {
        seq_val(s.drop_last()) * 10 + digit_val(s.last())
    }
}

/// The canonical decimal rendering of a natural number (no sign, no leading
/// zeros except for zero itself).
pub open spec fn dec_seq(n: nat) -> Seq<char>
    decreases n,
{
    if n < 10 {
        seq![digit_char(n)]
    } else {
        dec_seq(n / 10).push(digit_char(n % 10))
    }
}

/// The canonical decimal rendering of an integer: a leading '-' for negative
/// numbers, then the magnitude's digits.
pub open spec fn int_seq(n: int) -> Seq<char> {
    if n < 0 {
        seq!['-'] + dec_seq((-n) as nat)
    } else {
        dec_seq(n as nat)
    }
}

pub open spec fn all_digits(s: Seq<char>) -> bool {
    forall|i: int| 0 <= i < s.len() ==> is_digit(#[trigger] s[i])
}

/// A decimal integer literal: an optional sign followed by one or more digits.
pub open spec fn is_int_literal(s: Seq<char>) -> bool {
    if s.len() == 0 {
        false
    } else if s[0] == '+' || s[0] == '-' {
        s.len() >= 2 && all_digits(s.skip(1))
    } else {
        all_digits(s)
    }
}

pub open spec fn literal_mag(s: Seq<char>) -> nat
    recommends
        is_int_literal(s),
{
    if s.len() > 0 && (s[0] == '+' || s[0] == '-') {
        seq_val(s.skip(1))
    } else {
        seq_val(s)
    }
}

pub open spec fn literal_val(s: Seq<char>) -> int
    recommends
        is_int_literal(s),
{
    if s.len() > 0 && s[0] == '-' {
        -(literal_mag(s) as int)
    } else {
        literal_mag(s) as int
    }
}

/// What parsing a token yields: `Some` exactly on integer literals whose
/// value fits in an `i32`, `None` on everything else.
pub open spec fn parse_int_spec(s: Seq<char>) -> Option<i32> {
    if is_int_literal(s) && i32::MIN <= literal_val(s) <= i32::MAX {
        Some(literal_val(s) as i32)
    } else {
        None
    }
}

/// The decimal rendering of `n` is a nonempty digit string denoting `n`.
pub proof fn lemma_dec_seq(n: nat)
    ensures
        dec_seq(n).len() >= 1,
        all_digits(dec_seq(n)),
        seq_val(dec_seq(n)) == n,
    decreases n,
{
    if n < 10 {
        let s = seq![digit_char(n)];
        assert(s.last() == digit_char(n));
        assert(s.drop_last() =~= Seq::<char>::empty());
        assert(seq_val(Seq::<char>::empty()) == 0);
        assert(seq_val(s) == digit_val(digit_char(n)));
    } else {
        lemma_dec_seq(n / 10);
        let p = dec_seq(n / 10);
        let c = digit_char(n % 10);
        assert(p.push(c).drop_last() =~= p);
        assert(p.push(c).last() == c);
        assert(digit_val(c) == n % 10);
        assert(n / 10 * 10 + n % 10 == n) by (nonlinear_arith);
        assert forall|i: int| 0 <= i < p.push(c).len() implies is_digit(#[trigger] p.push(c)[i]) by {
            if i < p.len() {
                assert(p.push(c)[i] == p[i]);
            }
        }
    }
}

pub(crate) fn digit_str(d: u64) -> (r: &'static str)
    requires
        d < 10,
    ensures
        r@ == seq![digit_char(d as nat)],
{
    let r: &'static str = if d == 0 {
        "0"
    } else if d == 1 {
        "1"
    } else if d == 2 {
        "2"
    } else if d == 3 {
        "3"
    } else if d == 4 {
        "4"
    } else if d == 5 {
        "5"
    } else if d == 6 {
        "6"
    } else if d == 7 {
        "7"
    } else if d == 8 {
        "8"
    } else {
        "9"
    };
    proof {
        reveal_strlit("0");
        reveal_strlit("1");
        reveal_strlit("2");
        reveal_strlit("3");
        reveal_strlit("4");
        reveal_strlit("5");
        reveal_strlit("6");
        reveal_strlit("7");
        reveal_strlit("8");
        reveal_strlit("9");
        assert(r@ =~= seq![digit_char(d as nat)]);
    }
    r
}

/// Appends the decimal rendering of `n` to `s`.
pub fn append_u64(s: &mut String, n: u64)
    ensures
        final(s)@ == old(s)@ + dec_seq(n as nat),
    decreases n,
{
    if n < 10 {
        let ds = digit_str(n);
        s.append(ds);
        proof {
            assert(s@ =~= old(s)@ + dec_seq(n as nat));
        }
    } else {
        append_u64(s, n / 10);
        let ds = digit_str(n % 10);
        s.append(ds);
        proof {
            assert((n / 10) as nat == n as nat / 10);
            assert((n % 10) as nat == n as nat % 10);
            assert(s@ =~= old(s)@ + dec_seq(n as nat));
        }
    }
}

/// Appends the decimal rendering of `n`, with a leading '-' if negative.
pub fn append_i32(s: &mut String, n: i32)
    ensures
        final(s)@ == old(s)@ + int_seq(n as int),
{
    if n < 0 {
        s.append("-");
        let m: u64 = (-(n as i64)) as u64;
        proof {
            reveal_strlit("-");
            assert(("-")@ =~= seq!['-']);
            assert(m as nat == (-(n as int)) as nat);
        }
        append_u64(s, m);
        proof {
            assert(s@ =~= old(s)@ + int_seq(n as int));
        }
    } else {
        append_u64(s, n as u64);
        proof {
            assert((n as u64) as nat == n as nat);
            assert(s@ =~= old(s)@ + int_seq(n as int));
        }
    }
}

/// Parses a whole character vector as a decimal `i32`, exactly as
/// `parse_int_spec` describes: an optional sign, one or more digits, and a
/// value within `i32` range; anything else yields `None`.
pub fn parse_int_chars(v: &Vec<char>) -> (r: Option<i32>)
    ensures
        r == parse_int_spec(v@),
{
    let n = v.len();
    if n == 0 {
        return None;
    }
    let c0: char = v[0];
    let neg = c0 == '-';
    let signed = neg || c0 == '+';
    let start: usize = if signed {
        1
    } else {
        0
    };
    if start == n {
        // a sign with no digits after it
        return None;
    }
    let mut i: usize = start;
    let mut mag: u64 = 0;
    let mut big = false;
    while i < n
        invariant
            v@.len() == n,
            1 <= n,
            start <= i <= n,
            start < n,
            signed == (v@[0] == '+' || v@[0] == '-'),
            neg == (v@[0] == '-'),
            start as int == (if signed {
                1int
            } else {
                0int
            }),
            all_digits(v@.subrange(start as int, i as int)),
            !big ==> mag as nat == seq_val(v@.subrange(start as int, i as int)) && mag
                <= 0x8000_0000u64,
            big ==> seq_val(v@.subrange(start as int, i as int)) > 0x8000_0000,
        decreases n - i,
    {
        let c = v[i];
        let cv = c as u32;
        if cv < 48 || cv > 57 {
            proof {
                assert(!is_digit(v@[i as int]));
                if signed {
                    assert(v@.skip(1)[i as int - 1] == v@[i as int]);
                    assert(!all_digits(v@.skip(1)));
                } else {
                    assert(!all_digits(v@));
                }
                assert(!is_int_literal(v@));
            }
            return None;
        }
        let d: u32 = cv - 48;
        proof {
            let px = v@.subrange(start as int, i as int);
            let px1 = v@.subrange(start as int, i as int + 1);
            assert(px1 =~= px.push(v@[i as int]));
            assert(px1.drop_last() =~= px);
            assert(px1.last() == v@[i as int]);
            assert(digit_val(v@[i as int]) == d);
            assert(seq_val(px1) == seq_val(px) * 10 + d);
        }
        if !big {
            let new_mag: u64 = mag * 10 + d as u64;
            mag = new_mag;
            if new_mag > 0x8000_0000u64 {
                big = true;
            }
        } else {
            proof {
                let sv = seq_val(v@.subrange(start as int, i as int));
                let dv = digit_val(v@[i as int]);
                assert(sv * 10 + dv > 0x8000_0000) by (nonlinear_arith)
                    requires
                        sv > 0x8000_0000,
                        dv >= 0,
                ;
            }
        }
        i += 1;
    }
    proof {
        if signed {
            assert(v@.subrange(1, n as int) =~= v@.skip(1));
        } else {
            assert(v@.subrange(0, n as int) =~= v@);
        }
        assert(is_int_literal(v@));
        assert(literal_mag(v@) == seq_val(v@.subrange(start as int, n as int)));
    }
    if big {
        // magnitude above 2^31: out of range for either sign
        return None;
    }
    if neg {
        let r: i32 = (-(mag as i64)) as i32;
        proof {
            assert(literal_val(v@) == -(mag as int));
            assert(i32::MIN <= literal_val(v@) <= i32::MAX);
            assert(r == literal_val(v@) as i32);
        }
        Some(r)
    } else {
        if mag > i32::MAX as u64 {
            // 2^31 with no minus sign: just out of range
            return None;
        }
        proof {
            assert(literal_val(v@) == mag as int);
        }
        Some(mag as i32)
    }
}

/// Parses a string as a decimal `i32`.
pub fn parse_int(s: &str) -> (r: Option<i32>)
    ensures
        r == parse_int_spec(s@),
{
    let v = crate::text::chars_of(s);
    parse_int_chars(&v)
}

/// Rendering an `i32` and parsing the rendering gives the number back.
pub proof fn lemma_parse_int_round_trip(n: i32)
    ensures
        parse_int_spec(int_seq(n as int)) == Some(n),
{
    let s = int_seq(n as int);
    if n >= 0 {
        lemma_dec_seq(n as nat);
        assert(is_digit(s[0]));
        assert(s[0] != '+' && s[0] != '-');
        assert(is_int_literal(s));
        assert(literal_val(s) == n);
    } else {
        lemma_dec_seq((-(n as int)) as nat);
        let d = dec_seq((-(n as int)) as nat);
        assert(s[0] == '-');
        assert(s.skip(1) =~= d);
        assert(s.len() >= 2);
        assert(is_int_literal(s));
        assert(literal_mag(s) == -(n as int));
        assert(literal_val(s) == n);
    }
}

} // verus!

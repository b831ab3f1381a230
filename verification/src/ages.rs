//! Parsing the age estimator's raw output: whitespace-separated tokens,
//! each parsed as a decimal integer, with unparseable tokens dropped.

use vstd::prelude::*;
use crate::numfmt::{parse_int_spec, parse_int_chars};
use crate::text::chars_of;

verus! {

/// Whitespace as `char::is_whitespace` accepts it: the characters with the
/// Unicode White_Space property — the ASCII set (tab, line feed, vertical
/// tab, form feed, carriage return, space) together with next line, no-break
/// space, ogham space mark, the en-quad..hair-space range, line and
/// paragraph separators, narrow no-break space, medium mathematical space,
/// and ideographic space.
pub open spec fn is_space(c: char) -> bool {
    ||| 9 <= c as u32 <= 13
    ||| c as u32 == 32
    ||| c as u32 == 0x85
    ||| c as u32 == 0xA0
    ||| c as u32 == 0x1680
    ||| 0x2000 <= c as u32 <= 0x200A
    ||| c as u32 == 0x2028
    ||| c as u32 == 0x2029
    ||| c as u32 == 0x202F
    ||| c as u32 == 0x205F
    ||| c as u32 == 0x3000
}

/// What one finished token contributes: its value if it parses as an `i32`,
/// nothing otherwise; an empty token contributes nothing.
pub open spec fn flush_token(cur: Seq<char>) -> Seq<i32> {
    if cur.len() == 0 {
        Seq::empty()
    } else {
        match parse_int_spec(cur) {
            Some(v) => seq![v],
            None => Seq::empty(),
        }
    }
}

/// Left-to-right scan of the remaining input `s` with the token read so far
/// in `cur`: whitespace ends the current token, anything else extends it.
pub open spec fn ages_acc(s: Seq<char>, cur: Seq<char>) -> Seq<i32>
    decreases s.len(),
{
    if s.len() == 0 {
        flush_token(cur)
    } else if is_space(s[0]) {
        flush_token(cur) + ages_acc(s.drop_first(), Seq::empty())
    } else {
        ages_acc(s.drop_first(), cur.push(s[0]))
    }
}

/// The ages denoted by the estimator's output: split on whitespace, parse
/// each token, keep the tokens that parse, in order.
pub open spec fn parsed_ages(s: Seq<char>) -> Seq<i32> {
    ages_acc(s, Seq::empty())
}

/// Parses the estimator's output as whitespace-separated integers,
/// silently dropping every token that does not parse.
pub fn parse_ages(s: &str) -> (r: Vec<i32>)
    ensures
        r@ == parsed_ages(s@),
{
    let v = chars_of(s);
    let n = v.len();
    let mut r: Vec<i32> = Vec::new();
    let mut cur: Vec<char> = Vec::new();
    let mut i: usize = 0;
    proof {
        assert(s@.skip(0) =~= s@);
        assert(Seq::<i32>::empty() + ages_acc(s@, Seq::<char>::empty()) =~= ages_acc(
            s@,
            Seq::<char>::empty(),
        ));
    }
    while i < n
        invariant
            i <= n,
            n == v@.len(),
            v@ == s@,
            parsed_ages(s@) == r@ + ages_acc(s@.skip(i as int), cur@),
        decreases n - i,
    {
        let c = v[i];
        let u = c as u32;
        let sp = (9 <= u && u <= 13) || u == 32 || u == 0x85 || u == 0xA0 || u == 0x1680 || (0x2000
            <= u && u <= 0x200A) || u == 0x2028 || u == 0x2029 || u == 0x202F || u == 0x205F || u
            == 0x3000;
        proof {
            assert(sp == is_space(s@[i as int]));
            assert(s@.skip(i as int)[0] == s@[i as int]);
            assert(s@.skip(i as int).drop_first() =~= s@.skip(i as int + 1));
        }
        if sp {
            let ghost prev_r = r@;
            let ghost prev_cur = cur@;
            if cur.len() > 0 {
                match parse_int_chars(&cur) {
                    Some(a) => {
                        r.push(a);
                    },
                    None => {},
                }
            }
            cur = Vec::new();
            proof {
                assert(r@ =~= prev_r + flush_token(prev_cur));
                assert(prev_r + (flush_token(prev_cur) + ages_acc(
                    s@.skip(i as int + 1),
                    Seq::empty(),
                )) =~= (prev_r + flush_token(prev_cur)) + ages_acc(
                    s@.skip(i as int + 1),
                    Seq::empty(),
                ));
            }
        } else {
            cur.push(c);
        }
        i += 1;
    }
    proof {
        assert(s@.skip(n as int) =~= Seq::<char>::empty());
    }
    let ghost prev_r = r@;
    let ghost prev_cur = cur@;
    if cur.len() > 0 {
        match parse_int_chars(&cur) {
            Some(a) => {
                r.push(a);
            },
            None => {},
        }
    }
    proof {
        assert(r@ =~= prev_r + flush_token(prev_cur));
    }
    r
}

} // verus!

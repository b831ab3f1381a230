//! The tagger: pairs ages with rectangles positionally (truncating at the
//! shorter sequence), sorts the pairs stably by age ascending, and tags them
//! 1, 2, 3, ... in that order.

use vstd::prelude::*;
use crate::model::{Rect, TaggedFace};
use crate::numfmt::{int_seq, append_u64, append_i32, dec_seq};
use crate::coords::{coords_seq, coords_string};

verus! {

/// Positional pairing of ages with rectangles, truncated at the shorter.
pub open spec fn zipped(ages: Seq<i32>, rects: Seq<Rect>) -> Seq<(i32, Rect)> {
    Seq::new(
        if ages.len() <= rects.len() {
            ages.len()
        } else {
            rects.len()
        },
        |i: int| (ages[i], rects[i]),
    )
}

/// Where a pair lands in an age-sorted list: after every pair of equal or
/// lower age, before the first of strictly higher age.
pub open spec fn insert_sorted(x: (i32, Rect), s: Seq<(i32, Rect)>) -> Seq<(i32, Rect)>
    decreases s.len(),
{
    if s.len() == 0 {
        seq![x]
    } else if s[0].0 <= x.0 {
        seq![s[0]] + insert_sorted(x, s.drop_first())
    } else {
        seq![x] + s
    }
}

/// Stable insertion sort by age, ascending.
pub open spec fn sort_by_age(s: Seq<(i32, Rect)>) -> Seq<(i32, Rect)>
    decreases s.len(),
{
    if s.len() == 0 {
        Seq::empty()
    } else {
        insert_sorted(s.last(), sort_by_age(s.drop_last()))
    }
}

/// The sorted, still untagged pairing that the tagger's output follows.
pub open spec fn tagged_pairs(ages: Seq<i32>, rects: Seq<Rect>) -> Seq<(i32, Rect)> {
    sort_by_age(zipped(ages, rects))
}

pub open spec fn sorted_by_age(s: Seq<(i32, Rect)>) -> bool {
    forall|i: int, j: int| 0 <= i <= j < s.len() ==> (#[trigger] s[i]).0 <= (#[trigger] s[j]).0
}

/// The pairs of `s` whose age is exactly `k`, in order.
pub open spec fn with_age(s: Seq<(i32, Rect)>, k: i32) -> Seq<(i32, Rect)>
    decreases s.len(),
{
    if s.len() == 0 {
        Seq::empty()
    } else if s[0].0 == k {
        seq![s[0]] + with_age(s.drop_first(), k)
    } else {
        with_age(s.drop_first(), k)
    }
}

proof fn lemma_with_age_nil(k: i32)
    ensures
        with_age(Seq::<(i32, Rect)>::empty(), k) == Seq::<(i32, Rect)>::empty(),
{
}

/// Appending a pair appends it to its age's selection and no other.
pub proof fn lemma_with_age_push(s: Seq<(i32, Rect)>, x: (i32, Rect), k: i32)
    ensures
        x.0 == k ==> with_age(s.push(x), k) == with_age(s, k).push(x),
        x.0 != k ==> with_age(s.push(x), k) == with_age(s, k),
    decreases s.len(),
{
    if s.len() == 0 {
        lemma_with_age_nil(k);
        assert(s.push(x)[0] == x);
        assert(s.push(x).drop_first() =~= Seq::<(i32, Rect)>::empty());
        if x.0 == k {
            assert(with_age(s.push(x), k) =~= with_age(s, k).push(x));
        }
    } else {
        lemma_with_age_push(s.drop_first(), x, k);
        assert(s.push(x)[0] == s[0]);
        assert(s.push(x).drop_first() =~= s.drop_first().push(x));
        if x.0 == k {
            if s[0].0 == k {
                assert(seq![s[0]] + with_age(s.drop_first(), k).push(x) =~= (seq![s[0]]
                    + with_age(s.drop_first(), k)).push(x));
            }
            assert(with_age(s.push(x), k) =~= with_age(s, k).push(x));
        }
    }
}

/// If no pair of `s` has age `k`, the selection for `k` is empty.
pub proof fn lemma_with_age_empty(s: Seq<(i32, Rect)>, k: i32)
    requires
        forall|i: int| 0 <= i < s.len() ==> (#[trigger] s[i]).0 != k,
    ensures
        with_age(s, k) == Seq::<(i32, Rect)>::empty(),
    decreases s.len(),
{
    if s.len() > 0 {
        assert forall|i: int| 0 <= i < s.drop_first().len() implies (#[trigger] s.drop_first()[
            i
        ]).0 != k by {
            assert(s.drop_first()[i] == s[i + 1]);
        }
        lemma_with_age_empty(s.drop_first(), k);
    }
}

/// Inserting into a sorted list keeps it sorted, adds one pair, and keeps
/// every other pair.
pub proof fn lemma_insert_sorted_props(x: (i32, Rect), s: Seq<(i32, Rect)>)
    requires
        sorted_by_age(s),
    ensures
        insert_sorted(x, s).len() == s.len() + 1,
        sorted_by_age(insert_sorted(x, s)),
        forall|i: int|
            0 <= i < insert_sorted(x, s).len() ==> (#[trigger] insert_sorted(x, s)[i]) == x
                || s.contains(insert_sorted(x, s)[i]),
    decreases s.len(),
{
    let r = insert_sorted(x, s);
    if s.len() == 0 {
    } else if s[0].0 <= x.0 {
        assert forall|i: int, j: int|
            0 <= i <= j < s.drop_first().len() implies (#[trigger] s.drop_first()[i]).0
            <= (#[trigger] s.drop_first()[j]).0 by {
            assert(s.drop_first()[i] == s[i + 1]);
            assert(s.drop_first()[j] == s[j + 1]);
        }
        lemma_insert_sorted_props(x, s.drop_first());
        let rr = insert_sorted(x, s.drop_first());
        assert forall|i: int, j: int| 0 <= i <= j < r.len() implies (#[trigger] r[i]).0
            <= (#[trigger] r[j]).0 by {
            if i == 0 {
                if j > 0 {
                    assert(r[j] == rr[j - 1]);
                    if rr[j - 1] == x {
                    } else {
                        assert(s.drop_first().contains(rr[j - 1]));
                        let w = choose|w: int|
                            0 <= w < s.drop_first().len() && s.drop_first()[w] == rr[j - 1];
                        assert(s.drop_first()[w] == s[w + 1]);
                        assert(s[0].0 <= s[w + 1].0);
                    }
                }
            } else {
                assert(r[i] == rr[i - 1]);
                assert(r[j] == rr[j - 1]);
            }
        }
        assert forall|i: int| 0 <= i < r.len() implies (#[trigger] r[i]) == x || s.contains(
            r[i],
        ) by {
            if i == 0 {
                assert(r[0] == s[0]);
                assert(s.contains(s[0]));
            } else {
                assert(r[i] == rr[i - 1]);
                if rr[i - 1] != x {
                    assert(s.drop_first().contains(rr[i - 1]));
                    let w = choose|w: int|
                        0 <= w < s.drop_first().len() && s.drop_first()[w] == rr[i - 1];
                    assert(s.drop_first()[w] == s[w + 1]);
                }
            }
        }
    } else {
        assert forall|i: int| 0 <= i < r.len() implies (#[trigger] r[i]) == x || s.contains(
            r[i],
        ) by {
            if i > 0 {
                assert(r[i] == s[i - 1]);
                assert(s.contains(s[i - 1]));
            }
        }
    }
}

/// Inserting a pair adds it at the end of its age's selection and leaves
/// every other selection alone.
pub proof fn lemma_insert_sorted_with_age(x: (i32, Rect), s: Seq<(i32, Rect)>, k: i32)
    requires
        sorted_by_age(s),
    ensures
        x.0 == k ==> with_age(insert_sorted(x, s), k) == with_age(s, k).push(x),
        x.0 != k ==> with_age(insert_sorted(x, s), k) == with_age(s, k),
    decreases s.len(),
{
    let r = insert_sorted(x, s);
    if s.len() == 0 {
        lemma_with_age_nil(k);
        assert(r == seq![x]);
        assert(r[0] == x);
        assert(r.drop_first() =~= Seq::<(i32, Rect)>::empty());
        if x.0 == k {
            assert(with_age(r, k) =~= with_age(s, k).push(x));
        }
    } else if s[0].0 <= x.0 {
        assert forall|i: int, j: int|
            0 <= i <= j < s.drop_first().len() implies (#[trigger] s.drop_first()[i]).0
            <= (#[trigger] s.drop_first()[j]).0 by {
            assert(s.drop_first()[i] == s[i + 1]);
            assert(s.drop_first()[j] == s[j + 1]);
        }
        lemma_insert_sorted_with_age(x, s.drop_first(), k);
        let rr = insert_sorted(x, s.drop_first());
        assert(r == seq![s[0]] + rr);
        assert(r[0] == s[0]);
        assert(r.drop_first() =~= rr);
        if x.0 == k {
            if s[0].0 == k {
                assert(seq![s[0]] + with_age(s.drop_first(), k).push(x) =~= (seq![s[0]]
                    + with_age(s.drop_first(), k)).push(x));
            }
            assert(with_age(r, k) =~= with_age(s, k).push(x));
        } else {
            assert(with_age(r, k) =~= with_age(s, k));
        }
    } else {
        // x goes in front; no pair of s can have age k when x does, since
        // every age in s is above x's
        assert(r == seq![x] + s);
        assert(r[0] == x);
        assert(r.drop_first() =~= s);
        if x.0 == k {
            assert forall|i: int| 0 <= i < s.len() implies (#[trigger] s[i]).0 != k by {
                assert(s[0].0 <= s[i].0);
            }
            lemma_with_age_empty(s, k);
            assert(with_age(r, k) =~= with_age(s, k).push(x));
        } else {
            assert(with_age(r, k) =~= with_age(s, k));
        }
    }
}

/// Sorting keeps the length and every pair, and orders ages ascending.
pub proof fn lemma_sort_by_age_props(s: Seq<(i32, Rect)>)
    ensures
        sort_by_age(s).len() == s.len(),
        sorted_by_age(sort_by_age(s)),
        forall|i: int|
            0 <= i < sort_by_age(s).len() ==> s.contains(#[trigger] sort_by_age(s)[i]),
    decreases s.len(),
{
    if s.len() > 0 {
        lemma_sort_by_age_props(s.drop_last());
        lemma_insert_sorted_props(s.last(), sort_by_age(s.drop_last()));
        let r = sort_by_age(s);
        assert forall|i: int| 0 <= i < r.len() implies s.contains(#[trigger] r[i]) by {
            if r[i] == s.last() {
                assert(s[s.len() - 1] == s.last());
            } else {
                assert(sort_by_age(s.drop_last()).contains(r[i]));
                let w = choose|w: int|
                    0 <= w < sort_by_age(s.drop_last()).len() && sort_by_age(s.drop_last())[w]
                        == r[i];
                assert(s.drop_last().contains(r[i]));
                let u = choose|u: int| 0 <= u < s.drop_last().len() && s.drop_last()[u] == r[i];
                assert(s[u] == r[i]);
            }
        }
    }
}

/// Stability and permutation in one statement: for every age `k`, sorting
/// keeps exactly the pairs of age `k`, in their original order.
pub proof fn lemma_sort_by_age_stable(s: Seq<(i32, Rect)>, k: i32)
    ensures
        with_age(sort_by_age(s), k) == with_age(s, k),
    decreases s.len(),
{
    if s.len() > 0 {
        lemma_sort_by_age_stable(s.drop_last(), k);
        lemma_sort_by_age_props(s.drop_last());
        lemma_insert_sorted_with_age(s.last(), sort_by_age(s.drop_last()), k);
        lemma_with_age_push(s.drop_last(), s.last(), k);
        assert(s.drop_last().push(s.last()) =~= s);
    }
}

/// Ages are non-decreasing in tag order: the tagger's output follows
/// `tagged_pairs`, which is sorted by age.
pub proof fn lemma_tagged_ages_sorted(ages: Seq<i32>, rects: Seq<Rect>)
    ensures
        sorted_by_age(tagged_pairs(ages, rects)),
        tagged_pairs(ages, rects).len() == zipped(ages, rects).len(),
{
    lemma_sort_by_age_props(zipped(ages, rects));
}

fn insert_pair(v: &mut Vec<(i32, Rect)>, x: (i32, Rect))
    requires
        sorted_by_age(old(v)@),
    ensures
        final(v)@ == insert_sorted(x, old(v)@),
{
    let n = v.len();
    let mut j: usize = 0;
    while j < n && v[j].0 <= x.0
        invariant
            j <= n,
            n == v@.len(),
            forall|t: int| 0 <= t < j ==> (#[trigger] v@[t]).0 <= x.0,
        decreases n - j,
    {
        j += 1;
    }
    v.insert(j, x);
    proof {
        lemma_insert_at(old(v)@, x, j as int);
    }
}

/// Inserting at the first position whose age is higher lands exactly where
/// `insert_sorted` says.
proof fn lemma_insert_at(s: Seq<(i32, Rect)>, x: (i32, Rect), j: int)
    requires
        sorted_by_age(s),
        0 <= j <= s.len(),
        forall|t: int| 0 <= t < j ==> (#[trigger] s[t]).0 <= x.0,
        j < s.len() ==> s[j].0 > x.0,
    ensures
        s.insert(j, x) == insert_sorted(x, s),
    decreases s.len(),
{
    if j == 0 {
        if s.len() == 0 {
            assert(s.insert(0, x) =~= seq![x]);
        } else {
            assert(s[0].0 > x.0);
            assert(s.insert(0, x) =~= seq![x] + s);
        }
    } else {
        assert(s[0].0 <= x.0);
        assert forall|i2: int, j2: int|
            0 <= i2 <= j2 < s.drop_first().len() implies (#[trigger] s.drop_first()[i2]).0
            <= (#[trigger] s.drop_first()[j2]).0 by {
            assert(s.drop_first()[i2] == s[i2 + 1]);
            assert(s.drop_first()[j2] == s[j2 + 1]);
        }
        assert forall|t: int| 0 <= t < j - 1 implies (#[trigger] s.drop_first()[t]).0 <= x.0 by {
            assert(s.drop_first()[t] == s[t + 1]);
        }
        if j - 1 < s.drop_first().len() {
            assert(s.drop_first()[j - 1] == s[j]);
        }
        lemma_insert_at(s.drop_first(), x, j - 1);
        assert(s.insert(j, x) =~= seq![s[0]] + s.drop_first().insert(j - 1, x));
    }
}

/// Sorts age/rectangle pairs stably by age, ascending.
pub fn sort_pairs(pairs: &Vec<(i32, Rect)>) -> (r: Vec<(i32, Rect)>)
    ensures
        r@ == sort_by_age(pairs@),
{
    let n = pairs.len();
    let mut r: Vec<(i32, Rect)> = Vec::new();
    let mut i: usize = 0;
    while i < n
        invariant
            i <= n,
            n == pairs@.len(),
            r@ == sort_by_age(pairs@.take(i as int)),
        decreases n - i,
    {
        let x = pairs[i];
        proof {
            lemma_sort_by_age_props(pairs@.take(i as int));
            assert(pairs@.take(i as int + 1).drop_last() =~= pairs@.take(i as int));
            assert(pairs@.take(i as int + 1).last() == pairs@[i as int]);
        }
        insert_pair(&mut r, x);
        i += 1;
    }
    proof {
        assert(pairs@.take(n as int) =~= pairs@);
    }
    r
}

/// The tagger's output, described in full: one face per zipped pair, where
/// the i-th face carries tag i+1 and the age and coordinates renderings of
/// the i-th age-sorted pair.
pub open spec fn is_tagged_output(faces: Seq<TaggedFace>, ages: Seq<i32>, rects: Seq<Rect>) -> bool {
    &&& faces.len() == zipped(ages, rects).len()
    &&& forall|i: int|
        0 <= i < faces.len() ==> (#[trigger] faces[i]).tag@ == int_seq(i + 1) && faces[i].age@
            == int_seq(tagged_pairs(ages, rects)[i].0 as int) && faces[i].coordinates@
            == coords_seq(tagged_pairs(ages, rects)[i].1)
}

/// The tagger: pairs `ages[i]` with `rects[i]` for each `i` both sequences
/// reach (silently truncating the longer one), sorts the pairs by age
/// ascending with ties in pairing order, and renders each pair as a tagged
/// face whose tag is its 1-based position in that order.
pub fn tag_faces(ages: &Vec<i32>, rects: &Vec<Rect>) -> (r: Vec<TaggedFace>)
    ensures
        is_tagged_output(r@, ages@, rects@),
        ages@.len() <= rects@.len() ==> r@.len() == ages@.len(),
        rects@.len() <= ages@.len() ==> r@.len() == rects@.len(),
{
    let m: usize = if ages.len() <= rects.len() {
        ages.len()
    } else {
        rects.len()
    };
    let mut pairs: Vec<(i32, Rect)> = Vec::new();
    let mut i: usize = 0;
    proof {
        assert(pairs@ =~= zipped(ages@, rects@).take(0));
    }
    while i < m
        invariant
            i <= m,
            m == zipped(ages@, rects@).len(),
            m <= ages@.len() && m <= rects@.len(),
            pairs@ == zipped(ages@, rects@).take(i as int),
        decreases m - i,
    {
        let a = ages[i];
        let rc = rects[i];
        pairs.push((a, rc));
        proof {
            assert(zipped(ages@, rects@).take(i as int + 1) =~= zipped(ages@, rects@).take(
                i as int,
            ).push(zipped(ages@, rects@)[i as int]));
        }
        i += 1;
    }
    proof {
        assert(zipped(ages@, rects@).take(m as int) =~= zipped(ages@, rects@));
    }
    let sorted = sort_pairs(&pairs);
    proof {
        lemma_sort_by_age_props(zipped(ages@, rects@));
    }
    let mut out: Vec<TaggedFace> = Vec::new();
    let mut j: usize = 0;
    while j < sorted.len()
        invariant
            j <= sorted@.len(),
            sorted@ == tagged_pairs(ages@, rects@),
            out@.len() == j,
            forall|t: int|
                0 <= t < j ==> (#[trigger] out@[t]).tag@ == int_seq(t + 1) && out@[t].age@
                    == int_seq(sorted@[t].0 as int) && out@[t].coordinates@ == coords_seq(
                    sorted@[t].1,
                ),
        decreases sorted@.len() - j,
    {
        let pair = sorted[j];
        let mut tag_s = String::new();
        append_u64(&mut tag_s, (j as u64) + 1);
        let mut age_s = String::new();
        append_i32(&mut age_s, pair.0);
        let coords = coords_string(&pair.1);
        proof {
            assert(tag_s@ =~= dec_seq((j + 1) as nat));
            assert(int_seq(j as int + 1) == dec_seq((j + 1) as nat));
            assert(age_s@ =~= int_seq(pair.0 as int));
        }
        out.push(TaggedFace { tag: tag_s, age: age_s, coordinates: coords });
        j += 1;
    }
    out
}

} // verus!

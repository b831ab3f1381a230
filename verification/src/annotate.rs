//! The annotator's decision: which rectangles to draw. Each face's
//! coordinates string is re-parsed; a face whose string does not parse as
//! exactly four integers is silently skipped.

use vstd::prelude::*;
use crate::model::{Rect, TaggedFace};
use crate::coords::{parse_coords_spec, parse_coords, coords_seq, lemma_parse_coords_round_trip};

verus! {

/// The rectangles the annotator draws: one per face whose coordinates
/// string parses, in face order.
pub open spec fn draw_list(faces: Seq<TaggedFace>) -> Seq<Rect>
    decreases faces.len(),
{
    if faces.len() == 0 {
        Seq::empty()
    } else {
        (match parse_coords_spec(faces[0].coordinates@) {
            Some(r) => seq![r],
            None => Seq::empty(),
        }) + draw_list(faces.drop_first())
    }
}

/// Re-parses each face's coordinates string and keeps the rectangles of
/// the faces that parse, in order.
pub fn rects_to_draw(faces: &Vec<TaggedFace>) -> (r: Vec<Rect>)
    ensures
        r@ == draw_list(faces@),
{
    let n = faces.len();
    let mut out: Vec<Rect> = Vec::new();
    let mut i: usize = 0;
    proof {
        assert(faces@.skip(0) =~= faces@);
        assert(Seq::<Rect>::empty() + draw_list(faces@) =~= draw_list(faces@));
    }
    while i < n
        invariant
            i <= n,
            n == faces@.len(),
            draw_list(faces@) == out@ + draw_list(faces@.skip(i as int)),
        decreases n - i,
    {
        let f = &faces[i];
        let ghost prev = out@;
        match parse_coords(f.coordinates.as_str()) {
            Some(rc) => {
                out.push(rc);
            },
            None => {},
        }
        proof {
            let rest = faces@.skip(i as int);
            assert(rest[0] == faces@[i as int]);
            assert(rest.drop_first() =~= faces@.skip(i as int + 1));
            let head = (match parse_coords_spec(faces@[i as int].coordinates@) {
                Some(r) => seq![r],
                None => Seq::<Rect>::empty(),
            });
            assert(out@ =~= prev + head);
            assert(prev + (head + draw_list(faces@.skip(i as int + 1))) =~= (prev + head)
                + draw_list(faces@.skip(i as int + 1)));
        }
        i += 1;
    }
    proof {
        assert(faces@.skip(n as int) =~= Seq::<TaggedFace>::empty());
        assert(out@ + Seq::<Rect>::empty() =~= out@);
    }
    out
}

/// Round trip through the document: faces whose coordinates strings were
/// rendered from rectangles draw exactly those rectangles, in order.
pub proof fn lemma_draw_list_round_trip(faces: Seq<TaggedFace>, pairs: Seq<(i32, Rect)>)
    requires
        faces.len() == pairs.len(),
        forall|i: int|
            0 <= i < faces.len() ==> (#[trigger] faces[i]).coordinates@ == coords_seq(
                pairs[i].1,
            ),
    ensures
        draw_list(faces) == pairs.map_values(|p: (i32, Rect)| p.1),
    decreases faces.len(),
{
    if faces.len() == 0 {
        assert(pairs.map_values(|p: (i32, Rect)| p.1) =~= Seq::<Rect>::empty());
    } else {
        lemma_parse_coords_round_trip(pairs[0].1);
        assert forall|i: int|
            0 <= i < faces.drop_first().len() implies (#[trigger] faces.drop_first()[
            i
        ]).coordinates@ == coords_seq(pairs.drop_first()[i].1) by {
            assert(faces.drop_first()[i] == faces[i + 1]);
            assert(pairs.drop_first()[i] == pairs[i + 1]);
        }
        lemma_draw_list_round_trip(faces.drop_first(), pairs.drop_first());
        assert(pairs.map_values(|p: (i32, Rect)| p.1) =~= seq![pairs[0].1]
            + pairs.drop_first().map_values(|p: (i32, Rect)| p.1));
        assert(draw_list(faces) =~= pairs.map_values(|p: (i32, Rect)| p.1));
    }
}

} // verus!

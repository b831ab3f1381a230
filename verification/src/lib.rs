//! A small face-tagging pipeline: pairs detected face rectangles with age
//! estimates, sorts them stably by age, tags them with 1-based ranks,
//! renders the result as a JSON document, and decides which rectangles an
//! annotator should draw.
//!
//! Face detection, age estimation and image I/O live outside this crate;
//! the library works on the plain values they produce and hand back.

pub mod ages;
pub mod annotate;
pub mod coords;
pub mod json;
pub mod model;
pub mod numfmt;
pub mod tagger;
pub mod text;

use vstd::prelude::*;
use crate::model::{Rect, TaggedFace};
use crate::ages::{parse_ages, parsed_ages};
use crate::tagger::{tag_faces, is_tagged_output, tagged_pairs, lemma_tagged_ages_sorted};
use crate::json::{face_data_json, faces_json, lemma_faces_json_determined};
use crate::annotate::{rects_to_draw, draw_list, lemma_draw_list_round_trip};

verus! {

/// One full in-memory run over what the detector and the estimator handed
/// back: parses the estimator's raw output as ages, tags the faces, renders
/// the JSON document, and lists the rectangles the annotator should draw.
pub fn run_pipeline(rects: &Vec<Rect>, age_output: &str) -> (out: (
    Vec<TaggedFace>,
    String,
    Vec<Rect>,
))
    ensures
        is_tagged_output(out.0@, parsed_ages(age_output@), rects@),
        parsed_ages(age_output@).len() <= rects@.len() ==> out.0@.len() == parsed_ages(
            age_output@,
        ).len(),
        rects@.len() <= parsed_ages(age_output@).len() ==> out.0@.len() == rects@.len(),
        out.1@ == faces_json(out.0@),
        out.2@ == draw_list(out.0@),
{
    let ages = parse_ages(age_output);
    let faces = tag_faces(&ages, rects);
    let json = face_data_json(&faces);
    let draw = rects_to_draw(&faces);
    (faces, json, draw)
}

/// Running the pipeline twice over the same detector rectangles and parsed
/// ages gives byte-identical JSON and the same rectangles to draw: both
/// depend only on the tagged output, which the inputs determine.
pub proof fn lemma_pipeline_idempotent(
    f1: Seq<TaggedFace>,
    f2: Seq<TaggedFace>,
    ages: Seq<i32>,
    rects: Seq<Rect>,
)
    requires
        is_tagged_output(f1, ages, rects),
        is_tagged_output(f2, ages, rects),
    ensures
        faces_json(f1) == faces_json(f2),
        draw_list(f1) == draw_list(f2),
{
    lemma_tagged_ages_sorted(ages, rects);
    lemma_faces_json_determined(f1, f2);
    lemma_draw_list_round_trip(f1, tagged_pairs(ages, rects));
    lemma_draw_list_round_trip(f2, tagged_pairs(ages, rects));
}

} // verus!

use face_tagger::annotate::rects_to_draw;
use face_tagger::json::face_data_json;
use face_tagger::model::{Rect, TaggedFace};
use face_tagger::run_pipeline;
use face_tagger::tagger::tag_faces;

fn rect(x: i32, y: i32, w: i32, h: i32) -> Rect {
    Rect { x, y, w, h }
}

#[test]
fn two_faces_sorted_by_age() {
    let rects = vec![rect(10, 10, 50, 50), rect(100, 100, 60, 60)];
    let (faces, _json, draw) = run_pipeline(&rects, "34 22");
    assert_eq!(faces.len(), 2);
    assert_eq!(faces[0].tag, "1");
    assert_eq!(faces[0].age, "22");
    assert_eq!(faces[0].coordinates, "(100, 100, 60, 60)");
    assert_eq!(faces[1].tag, "2");
    assert_eq!(faces[1].age, "34");
    assert_eq!(faces[1].coordinates, "(10, 10, 50, 50)");
    assert_eq!(draw, vec![rect(100, 100, 60, 60), rect(10, 10, 50, 50)]);
}

#[test]
fn fewer_ages_than_rectangles() {
    let rects = vec![rect(10, 10, 50, 50), rect(100, 100, 60, 60)];
    let (faces, _json, _draw) = run_pipeline(&rects, "25");
    assert_eq!(faces.len(), 1);
    assert_eq!(faces[0].tag, "1");
    assert_eq!(faces[0].age, "25");
    assert_eq!(faces[0].coordinates, "(10, 10, 50, 50)");
}

#[test]
fn fewer_rectangles_than_ages() {
    let rects = vec![rect(1, 2, 3, 4)];
    let (faces, _json, _draw) = run_pipeline(&rects, "9 8 7");
    assert_eq!(faces.len(), 1);
    assert_eq!(faces[0].age, "9");
}

#[test]
fn empty_estimator_output() {
    let rects = vec![rect(10, 10, 50, 50), rect(100, 100, 60, 60)];
    let (faces, json, draw) = run_pipeline(&rects, "");
    assert_eq!(faces.len(), 0);
    assert_eq!(json, "[]");
    assert_eq!(draw, Vec::<Rect>::new());
}

#[test]
fn json_document_exact() {
    let rects = vec![rect(10, 10, 50, 50), rect(100, 100, 60, 60)];
    let (_faces, json, _draw) = run_pipeline(&rects, "34 22");
    assert_eq!(
        json,
        "[{\"Tag\":\"1\",\"Alter\":\"22\",\"Koordinaten\":\"(100, 100, 60, 60)\"},\
         {\"Tag\":\"2\",\"Alter\":\"34\",\"Koordinaten\":\"(10, 10, 50, 50)\"}]"
    );
}

#[test]
fn json_parses_back_with_serde() {
    let rects = vec![rect(10, 10, 50, 50), rect(100, 100, 60, 60)];
    let (_faces, json, _draw) = run_pipeline(&rects, "34 22");
    let v: serde_json::Value = serde_json::from_str(&json).unwrap();
    let arr = v.as_array().unwrap();
    assert_eq!(arr.len(), 2);
    assert_eq!(arr[0]["Tag"], "1");
    assert_eq!(arr[0]["Alter"], "22");
    assert_eq!(arr[0]["Koordinaten"], "(100, 100, 60, 60)");
    assert_eq!(arr[1]["Tag"], "2");
    assert_eq!(arr[1]["Alter"], "34");
    assert_eq!(arr[1]["Koordinaten"], "(10, 10, 50, 50)");
}

#[test]
fn json_escapes_special_characters() {
    let faces = vec![TaggedFace {
        tag: "1".to_string(),
        age: "a\"b\\c".to_string(),
        coordinates: "line\nbreak\u{1}".to_string(),
    }];
    let json = face_data_json(&faces);
    let v: serde_json::Value = serde_json::from_str(&json).unwrap();
    assert_eq!(v[0]["Alter"], "a\"b\\c");
    assert_eq!(v[0]["Koordinaten"], "line\nbreak\u{1}");
}

#[test]
fn ties_keep_pairing_order() {
    let rects = vec![rect(1, 0, 0, 0), rect(2, 0, 0, 0), rect(3, 0, 0, 0)];
    let ages = vec![5, 5, 5];
    let faces = tag_faces(&ages, &rects);
    assert_eq!(faces.len(), 3);
    assert_eq!(faces[0].coordinates, "(1, 0, 0, 0)");
    assert_eq!(faces[1].coordinates, "(2, 0, 0, 0)");
    assert_eq!(faces[2].coordinates, "(3, 0, 0, 0)");
}

#[test]
fn stable_sort_with_mixed_ages() {
    let rects = vec![
        rect(0, 0, 0, 0),
        rect(1, 1, 1, 1),
        rect(2, 2, 2, 2),
        rect(3, 3, 3, 3),
    ];
    let ages = vec![3, 1, 3, 1];
    let faces = tag_faces(&ages, &rects);
    assert_eq!(faces.len(), 4);
    assert_eq!(faces[0].age, "1");
    assert_eq!(faces[0].coordinates, "(1, 1, 1, 1)");
    assert_eq!(faces[1].age, "1");
    assert_eq!(faces[1].coordinates, "(3, 3, 3, 3)");
    assert_eq!(faces[2].age, "3");
    assert_eq!(faces[2].coordinates, "(0, 0, 0, 0)");
    assert_eq!(faces[3].age, "3");
    assert_eq!(faces[3].coordinates, "(2, 2, 2, 2)");
}

#[test]
fn ages_nondecreasing_in_tag_order() {
    let rects: Vec<Rect> = (0..6).map(|i| rect(i, i, 10, 10)).collect();
    let (faces, _json, _draw) = run_pipeline(&rects, "40 12 33 12 99 1");
    let ages: Vec<i32> = faces.iter().map(|f| f.age.parse().unwrap()).collect();
    for i in 1..ages.len() {
        assert!(ages[i - 1] <= ages[i]);
    }
    let tags: Vec<String> = faces.iter().map(|f| f.tag.clone()).collect();
    assert_eq!(tags, vec!["1", "2", "3", "4", "5", "6"]);
}

#[test]
fn malformed_coordinates_skip_drawing_only() {
    let good = TaggedFace {
        tag: "1".to_string(),
        age: "20".to_string(),
        coordinates: "(10, 10, 50, 50)".to_string(),
    };
    let bad = TaggedFace {
        tag: "2".to_string(),
        age: "30".to_string(),
        coordinates: "(10, 10, 50)".to_string(),
    };
    let faces = vec![good, bad];
    let draw = rects_to_draw(&faces);
    assert_eq!(draw, vec![rect(10, 10, 50, 50)]);
    let json = face_data_json(&faces);
    assert!(json.contains("\"Koordinaten\":\"(10, 10, 50)\""));
    let v: serde_json::Value = serde_json::from_str(&json).unwrap();
    assert_eq!(v.as_array().unwrap().len(), 2);
}

#[test]
fn pipeline_is_deterministic() {
    let rects = vec![rect(10, 10, 50, 50), rect(100, 100, 60, 60)];
    let (f1, j1, d1) = run_pipeline(&rects, "34 22");
    let (f2, j2, d2) = run_pipeline(&rects, "34 22");
    assert_eq!(j1, j2);
    assert_eq!(d1, d2);
    assert_eq!(f1.len(), f2.len());
    for (a, b) in f1.iter().zip(f2.iter()) {
        assert_eq!(a.tag, b.tag);
        assert_eq!(a.age, b.age);
        assert_eq!(a.coordinates, b.coordinates);
    }
}

#[test]
fn drawn_rectangles_match_json_coordinates() {
    let rects = vec![rect(5, 6, 7, 8), rect(-1, -2, 3, 4)];
    let (faces, _json, draw) = run_pipeline(&rects, "50 40");
    assert_eq!(draw.len(), faces.len());
    for (f, r) in faces.iter().zip(draw.iter()) {
        assert_eq!(f.coordinates, format!("({}, {}, {}, {})", r.x, r.y, r.w, r.h));
    }
}

#[test]
fn negative_ages_sort_first() {
    let rects = vec![rect(0, 0, 1, 1), rect(1, 1, 1, 1)];
    let (faces, _json, _draw) = run_pipeline(&rects, "5 -3");
    assert_eq!(faces[0].age, "-3");
    assert_eq!(faces[1].age, "5");
}

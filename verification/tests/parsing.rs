use face_tagger::coords::{coords_string, parse_coords};
use face_tagger::model::Rect;
use face_tagger::ages::parse_ages;
use face_tagger::numfmt::parse_int;

#[test]
fn parse_int_plain() {
    assert_eq!(parse_int("0"), Some(0));
    assert_eq!(parse_int("34"), Some(34));
    assert_eq!(parse_int("007"), Some(7));
    assert_eq!(parse_int("-0"), Some(0));
    assert_eq!(parse_int("+5"), Some(5));
    assert_eq!(parse_int("-17"), Some(-17));
}

#[test]
fn parse_int_rejects_junk() {
    assert_eq!(parse_int(""), None);
    assert_eq!(parse_int("-"), None);
    assert_eq!(parse_int("+"), None);
    assert_eq!(parse_int("12a"), None);
    assert_eq!(parse_int("a12"), None);
    assert_eq!(parse_int("1 2"), None);
    assert_eq!(parse_int("1.5"), None);
    assert_eq!(parse_int("--3"), None);
}

#[test]
fn parse_int_range() {
    assert_eq!(parse_int("2147483647"), Some(i32::MAX));
    assert_eq!(parse_int("-2147483648"), Some(i32::MIN));
    assert_eq!(parse_int("2147483648"), None);
    assert_eq!(parse_int("-2147483649"), None);
    assert_eq!(parse_int("99999999999999999999"), None);
}

#[test]
fn parse_ages_splits_on_whitespace() {
    assert_eq!(parse_ages("34 22"), vec![34, 22]);
    assert_eq!(parse_ages("  7\t8\n9  "), vec![7, 8, 9]);
    assert_eq!(parse_ages("42"), vec![42]);
}

#[test]
fn parse_ages_splits_on_unicode_whitespace() {
    assert_eq!(parse_ages("34\u{a0}22"), vec![34, 22]);
    assert_eq!(parse_ages("1\u{2003}2\u{3000}3"), vec![1, 2, 3]);
    assert_eq!(parse_ages("\u{85}7\u{202f}8\u{2028}"), vec![7, 8]);
    assert_eq!(parse_ages("5\u{1680}\u{205f}6"), vec![5, 6]);
}

#[test]
fn parse_ages_drops_unparseable_tokens() {
    assert_eq!(parse_ages("34 x 22"), vec![34, 22]);
    assert_eq!(parse_ages("age: 34"), vec![34]);
    assert_eq!(parse_ages("9999999999 5"), vec![5]);
    assert_eq!(parse_ages("abc def"), Vec::<i32>::new());
}

#[test]
fn parse_ages_empty_output() {
    assert_eq!(parse_ages(""), Vec::<i32>::new());
    assert_eq!(parse_ages("   \n\t "), Vec::<i32>::new());
}

#[test]
fn coords_render_exact() {
    let r = Rect { x: 10, y: 20, w: 50, h: 60 };
    assert_eq!(coords_string(&r), "(10, 20, 50, 60)");
    let neg = Rect { x: -5, y: -10, w: 0, h: 7 };
    assert_eq!(coords_string(&neg), "(-5, -10, 0, 7)");
}

#[test]
fn coords_round_trip() {
    let cases = [
        Rect { x: 10, y: 10, w: 50, h: 50 },
        Rect { x: -3, y: 0, w: 300, h: 1 },
        Rect { x: i32::MAX, y: i32::MIN, w: 0, h: -1 },
    ];
    for r in cases {
        assert_eq!(parse_coords(&coords_string(&r)), Some(r));
    }
}

#[test]
fn coords_malformed_strings() {
    assert_eq!(parse_coords("(10, 10, 50)"), None);
    assert_eq!(parse_coords("(10, 10, 50, 50, 50)"), None);
    assert_eq!(parse_coords(""), None);
    assert_eq!(parse_coords("(a, b, c, d)"), None);
    assert_eq!(parse_coords("(1,2,3,4)"), None);
}

#[test]
fn coords_tolerated_shapes() {
    // parens are only trimmed, so missing or doubled ones still parse
    assert_eq!(
        parse_coords("10, 20, 30, 40"),
        Some(Rect { x: 10, y: 20, w: 30, h: 40 })
    );
    assert_eq!(
        parse_coords("((1, 2, 3, 4))"),
        Some(Rect { x: 1, y: 2, w: 3, h: 4 })
    );
}

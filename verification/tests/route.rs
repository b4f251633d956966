use update_tracker::route::{match_path, Captured, Error, Segment};

fn literal(text: &str) -> Segment {
    Segment::Literal(text.to_string())
}

fn unsigned(max: i64) -> Segment {
    Segment::Number { signed: false, min: 0, max }
}

fn u8_segment() -> Segment {
    unsigned(255)
}

fn u32_segment() -> Segment {
    unsigned(4_294_967_295)
}

fn i8_segment() -> Segment {
    Segment::Number { signed: true, min: -128, max: 127 }
}

fn text(t: &str) -> Captured {
    Captured::Text(t.to_string())
}

fn extract(pattern: Vec<Segment>, path: &str) -> Vec<Captured> {
    match_path(&pattern, path).unwrap()
}

fn bails(pattern: Vec<Segment>, path: &str) -> bool {
    matches!(match_path(&pattern, path), Err(Error::NotFound("Route")))
}

#[test]
fn test_paths() {
    let path = "/foo";

    assert_eq!(extract(vec![literal("foo")], path), vec![]);
    assert_eq!(extract(vec![Segment::Capture], path), vec![text("foo")]);
    assert_eq!(extract(vec![Segment::Capture], path), vec![Captured::Text(String::from("foo"))]);
    assert!(bails(vec![literal("bar")], path));
    assert!(bails(vec![u32_segment()], path));
    assert!(bails(vec![], path));
    assert!(bails(vec![literal("foo"), literal("bar")], path));
    assert!(bails(vec![literal("foo"), Segment::Capture], path));
    assert!(bails(vec![literal("foo"), Segment::Capture], path));
    assert!(bails(vec![Segment::Capture, literal("bar")], path));
    assert!(bails(vec![Segment::Capture, literal("bar")], path));
    assert!(bails(vec![literal("bar"), literal("foo")], path));

    let path = "/foo/bar";

    assert!(bails(vec![literal("foo")], path));
    assert_eq!(extract(vec![Segment::Capture], path), vec![text("foo/bar")]);
    assert_eq!(extract(vec![Segment::Capture], path), vec![Captured::Text(String::from("foo/bar"))]);
    assert!(bails(vec![literal("bar")], path));
    assert!(bails(vec![u32_segment()], path));
    assert!(bails(vec![], path));
    assert_eq!(extract(vec![literal("foo"), literal("bar")], path), vec![]);
    assert_eq!(extract(vec![literal("foo"), Segment::Capture], path), vec![text("bar")]);
    assert_eq!(
        extract(vec![literal("foo"), Segment::Capture], path),
        vec![Captured::Text(String::from("bar"))]
    );
    assert_eq!(extract(vec![Segment::Capture, literal("bar")], path), vec![text("foo")]);
    assert_eq!(
        extract(vec![Segment::Capture, literal("bar")], path),
        vec![Captured::Text(String::from("foo"))]
    );
    assert!(bails(vec![literal("bar"), literal("foo")], path));

    let path = "/10/-4";

    assert_eq!(
        extract(vec![u8_segment(), i8_segment()], path),
        vec![Captured::Number(10), Captured::Number(-4)]
    );

    let path = "/";

    assert_eq!(extract(vec![], path), vec![]);
}

#[test]
fn numbers_are_held_to_their_range() {
    assert_eq!(extract(vec![u8_segment()], "/255"), vec![Captured::Number(255)]);
    assert!(bails(vec![u8_segment()], "/256"));
    assert!(bails(vec![u8_segment()], "/-1"));
    assert!(bails(vec![u8_segment()], "/-0"));
    assert_eq!(extract(vec![u8_segment()], "/+7"), vec![Captured::Number(7)]);
    assert_eq!(extract(vec![u8_segment()], "/007"), vec![Captured::Number(7)]);
    assert!(bails(vec![u8_segment()], "/"));
    assert!(bails(vec![u8_segment()], "/+"));
    assert!(bails(vec![u8_segment()], "/1a"));
    assert_eq!(extract(vec![i8_segment()], "/-128"), vec![Captured::Number(-128)]);
    assert!(bails(vec![i8_segment()], "/-129"));
    assert!(bails(vec![i8_segment()], "/128"));
    let whole = Segment::Number { signed: true, min: i64::MIN, max: i64::MAX };
    assert_eq!(
        extract(vec![whole], "/-9223372036854775808"),
        vec![Captured::Number(i64::MIN)]
    );
    let whole = Segment::Number { signed: true, min: i64::MIN, max: i64::MAX };
    assert!(bails(vec![whole], "/9223372036854775808"));
    let whole = Segment::Number { signed: true, min: i64::MIN, max: i64::MAX };
    assert!(bails(vec![whole], "/99999999999999999999999999"));
}

#[test]
fn a_literal_is_held_against_what_follows_the_slash() {
    assert!(bails(vec![literal("foo"), literal("bar")], "/foobar"));
    assert!(bails(vec![literal("foo")], "/foo/"));
    assert_eq!(extract(vec![literal("foo"), Segment::Capture], "/foo/"), vec![text("")]);
    assert!(bails(vec![literal("foo")], "foo"));
    assert!(bails(vec![], ""));
    assert!(bails(vec![], "//"));
}

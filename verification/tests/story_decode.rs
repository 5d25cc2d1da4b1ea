use top_stories::story::story_from_fields;

#[test]
fn full_payload_keeps_every_field() {
    let s = story_from_fields(
        42,
        Some("A title".to_string()),
        Some("https://example.com/a".to_string()),
        Some("Body".to_string()),
        Some("alice".to_string()),
        Some(17),
        Some(99),
        Some(1_700_000_000),
        Some(vec![4, 5, 6]),
        Some("story".to_string()),
    )
    .unwrap();
    assert_eq!(s.id, 42);
    assert_eq!(s.title, "A title");
    assert_eq!(s.url.as_deref(), Some("https://example.com/a"));
    assert_eq!(s.text.as_deref(), Some("Body"));
    assert_eq!(s.by, "alice");
    assert_eq!(s.score, 17);
    assert_eq!(s.descendants, 99);
    assert_eq!(s.time, 1_700_000_000);
    assert_eq!(s.kids, vec![4, 5, 6]);
    assert_eq!(s.kind, "story");
}

#[test]
fn absent_optional_fields_take_their_defaults() {
    let s = story_from_fields(
        7,
        Some("Bare".to_string()),
        None,
        None,
        None,
        None,
        None,
        Some(0),
        None,
        Some("job".to_string()),
    )
    .unwrap();
    assert_eq!(s.url, None);
    assert_eq!(s.text, None);
    assert_eq!(s.by, "");
    assert_eq!(s.score, 0);
    assert_eq!(s.descendants, 0);
    assert_eq!(s.kids, Vec::<i64>::new());
}

#[test]
fn missing_title_fails_the_item() {
    let r = story_from_fields(
        1,
        None,
        None,
        None,
        Some("bob".to_string()),
        Some(3),
        None,
        Some(10),
        None,
        Some("story".to_string()),
    );
    assert!(r.is_none());
}

#[test]
fn missing_time_fails_the_item() {
    let r = story_from_fields(
        1,
        Some("T".to_string()),
        None,
        None,
        None,
        None,
        None,
        None,
        None,
        Some("story".to_string()),
    );
    assert!(r.is_none());
}

#[test]
fn missing_kind_fails_the_item() {
    let r = story_from_fields(
        1,
        Some("T".to_string()),
        None,
        None,
        None,
        None,
        None,
        Some(10),
        None,
        None,
    );
    assert!(r.is_none());
}

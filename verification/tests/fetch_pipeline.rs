use top_stories::fetch::{assemble, gather, plan_fetches, reassemble, FetchError};
use top_stories::story::{story_from_fields, StoryItem};

fn record(id: i64, title: &str) -> StoryItem {
    story_from_fields(
        id,
        Some(title.to_string()),
        None,
        None,
        None,
        None,
        None,
        Some(1_600_000_000),
        None,
        Some("story".to_string()),
    )
    .unwrap()
}

#[test]
fn plan_takes_first_two_of_three() {
    assert_eq!(plan_fetches(Some(vec![1, 2, 3]), 2), Ok(vec![1, 2]));
}

#[test]
fn plan_clamps_count_to_ranking_length() {
    assert_eq!(plan_fetches(Some(vec![1, 2]), 5), Ok(vec![1, 2]));
}

#[test]
fn plan_of_zero_count_is_empty() {
    assert_eq!(plan_fetches(Some(vec![10, 20, 30]), 0), Ok(vec![]));
}

#[test]
fn plan_of_empty_ranking_is_empty() {
    assert_eq!(plan_fetches(Some(vec![]), 3), Ok(vec![]));
}

#[test]
fn ranking_failure_is_fatal() {
    assert_eq!(plan_fetches(None, 10), Err(FetchError::RankingUnavailable));
    assert_eq!(plan_fetches(None, 0), Err(FetchError::RankingUnavailable));
}

#[test]
fn middle_item_failure_drops_only_that_item() {
    let r1 = record(1, "first");
    let r3 = record(3, "third");
    let out = gather(3, vec![(0, Some(r1.clone())), (1, None), (2, Some(r3.clone()))]);
    assert_eq!(out, vec![r1, r3]);
}

#[test]
fn single_failure_keeps_remaining_in_order() {
    let a = record(11, "a");
    let b = record(12, "b");
    let d = record(14, "d");
    let out = gather(
        4,
        vec![
            (0, Some(a.clone())),
            (1, Some(b.clone())),
            (2, None),
            (3, Some(d.clone())),
        ],
    );
    assert_eq!(out.len(), 3);
    assert_eq!(out, vec![a, b, d]);
}

#[test]
fn completion_order_does_not_change_result() {
    let a = record(1, "a");
    let b = record(2, "b");
    let c = record(3, "c");
    let late_first = vec![
        (2, Some(c.clone())),
        (0, Some(a.clone())),
        (1, Some(b.clone())),
    ];
    let early_first = vec![
        (1, Some(b.clone())),
        (2, Some(c.clone())),
        (0, Some(a.clone())),
    ];
    let in_order = vec![
        (0, Some(a.clone())),
        (1, Some(b.clone())),
        (2, Some(c.clone())),
    ];
    let expected = vec![a, b, c];
    assert_eq!(gather(3, late_first), expected);
    assert_eq!(gather(3, early_first), expected);
    assert_eq!(gather(3, in_order), expected);
}

#[test]
fn completion_order_does_not_change_result_with_failure() {
    let a = record(1, "a");
    let c = record(3, "c");
    let shuffled = vec![(1, None), (2, Some(c.clone())), (0, Some(a.clone()))];
    let sorted = vec![(0, Some(a.clone())), (1, None), (2, Some(c.clone()))];
    assert_eq!(gather(3, shuffled), gather(3, sorted));
}

#[test]
fn result_never_longer_than_effective_count() {
    let ids = vec![7, 8, 9];
    let count: usize = 5;
    let plan = plan_fetches(Some(ids.clone()), count).unwrap();
    assert_eq!(plan.len(), count.min(ids.len()));
    assert_eq!(plan.len(), 3);
    let r7 = record(7, "seven");
    let out = gather(plan.len(), vec![(0, Some(r7)), (1, None), (2, None)]);
    assert!(out.len() <= count.min(ids.len()));
    assert_eq!(out.len(), 1);
}

#[test]
fn gather_of_nothing_is_empty() {
    assert_eq!(gather(0, vec![]), vec![]);
}

#[test]
fn all_failures_give_empty_result() {
    let out = gather(2, vec![(1, None), (0, None)]);
    assert_eq!(out, vec![]);
}

#[test]
fn assemble_drops_failures_and_keeps_order() {
    let a = record(21, "a");
    let b = record(22, "b");
    let out = assemble(vec![None, Some(a.clone()), None, Some(b.clone())]);
    assert_eq!(out, vec![a, b]);
}

#[test]
fn reassemble_places_each_outcome_at_its_rank() {
    let a = record(31, "a");
    let c = record(33, "c");
    let slots = reassemble(3, vec![(2, Some(c.clone())), (0, Some(a.clone())), (1, None)]);
    assert_eq!(slots, vec![Some(a), None, Some(c)]);
}

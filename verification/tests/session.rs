use synapse_core::domain::{CardContent, MemoryItem};
use synapse_core::error::SynapseError;
use synapse_core::scheduler::Sm2Scheduler;
use synapse_core::session::{due_memories, find_memory, merge_memories, review_memory, start_review_session};

fn item(id: &str, next_review: i64) -> MemoryItem {
    let mut m = MemoryItem::new_at(id.to_string(), "T", id, CardContent::basic("a"), 0);
    m.next_review = next_review;
    m
}

#[test]
fn find_memory_returns_the_first_match() {
    let items = vec![item("a", 0), item("b", 0), item("b", 1)];
    assert_eq!(find_memory(&items, "b"), Some(1));
    assert_eq!(find_memory(&items, "z"), None);
}

#[test]
fn review_memory_reviews_only_the_named_item() {
    let mut items = vec![item("a", 0), item("b", 0)];
    let updated = review_memory(&mut items, &Sm2Scheduler, "b", 5).unwrap();
    assert_eq!(updated.id, "b");
    assert_eq!(updated.repetitions, 1);
    assert_eq!(items[1].review_log.len(), 1);
    assert!(items[0].review_log.is_empty());
    match review_memory(&mut items, &Sm2Scheduler, "zz", 5) {
        Err(SynapseError::NotFound(id)) => assert_eq!(id, "zz"),
        _ => panic!("expected NotFound"),
    }
}

#[test]
fn due_memories_keep_order() {
    let items = vec![item("a", 50), item("b", 500), item("c", 10)];
    let due: Vec<String> = due_memories(&items, 100).into_iter().map(|m| m.id).collect();
    assert_eq!(due, vec!["a".to_string(), "c".to_string()]);
}

#[test]
fn review_session_is_most_overdue_first_and_capped() {
    let items = vec![item("a", 50), item("b", 500), item("c", 10), item("d", 50), item("e", 20)];
    let ids = |v: Vec<MemoryItem>| v.into_iter().map(|m| m.id).collect::<Vec<String>>();
    assert_eq!(ids(start_review_session(&items, 100, None, 20)), vec!["c", "e", "a", "d"]);
    assert_eq!(ids(start_review_session(&items, 100, Some(2), 20)), vec!["c", "e"]);
    assert_eq!(ids(start_review_session(&items, 100, None, 3)), vec!["c", "e", "a"]);
    assert!(start_review_session(&items, 0, None, 20).is_empty());
}

#[test]
fn merge_overwrites_existing_ids_and_appends_new_ones() {
    let mut memories = vec![item("a", 1), item("b", 2)];
    let imported = vec![item("b", 99), item("c", 3), item("c", 4)];
    let count = merge_memories(&mut memories, &imported);
    assert_eq!(count, 3);
    let got: Vec<(String, i64)> = memories.iter().map(|m| (m.id.clone(), m.next_review)).collect();
    assert_eq!(got, vec![("a".to_string(), 1), ("b".to_string(), 99), ("c".to_string(), 4)]);
}

use synapse_core::clock::MS_PER_DAY;
use synapse_core::domain::{CardContent, MemoryItem};
use synapse_core::scheduler::{Scheduler, Sm2Scheduler};

#[test]
fn successful_reviews_grow_interval_and_log_history() {
    let mut item = MemoryItem::new("Rust", "What is a trait?", CardContent::basic("A shared interface"));
    let scheduler = Sm2Scheduler;

    scheduler.schedule(&mut item, 5);
    assert_eq!(item.repetitions, 1);
    assert_eq!(item.interval_days, 1);

    scheduler.schedule(&mut item, 5);
    assert_eq!(item.repetitions, 2);
    assert_eq!(item.interval_days, 6);

    scheduler.schedule(&mut item, 5);
    assert_eq!(item.repetitions, 3);
    assert!(item.interval_days > 6);

    assert_eq!(item.review_log.len(), 3);
    assert_eq!(item.review_log[1].interval_before_days, 1);
    assert_eq!(item.review_log[1].interval_after_days, 6);
}

#[test]
fn failed_review_resets_repetitions_without_dropping_ease_below_floor() {
    let mut item = MemoryItem::new("Rust", "What is Send?", CardContent::basic("Safe to move across threads"));
    let scheduler = Sm2Scheduler;
    item.ease = 130;

    scheduler.schedule(&mut item, 0);

    assert_eq!(item.repetitions, 0);
    assert_eq!(item.interval_days, 1);
    assert!(item.ease >= 130);
    assert_eq!(item.lapses, 1);
    assert_eq!(item.total_lapses, 1);
}

#[test]
fn a_success_resets_consecutive_lapses_but_not_lifetime_total() {
    let mut item = MemoryItem::new("Rust", "What is a lifetime?", CardContent::basic("..."));
    let scheduler = Sm2Scheduler;

    scheduler.schedule(&mut item, 1);
    scheduler.schedule(&mut item, 1);
    assert_eq!(item.lapses, 2);
    assert_eq!(item.total_lapses, 2);

    scheduler.schedule(&mut item, 5);
    assert_eq!(item.lapses, 0);
    assert_eq!(item.total_lapses, 2);
}

fn fresh(now: i64) -> MemoryItem {
    MemoryItem::new_at("id".to_string(), "T", "p", CardContent::basic("a"), now)
}

#[test]
fn sm2_exact_values_for_a_run_of_reviews() {
    let s = Sm2Scheduler;
    let mut item = fresh(0);
    s.review_at(&mut item, 5, 1_000);
    assert_eq!((item.repetitions, item.interval_days, item.ease), (1, 1, 260));
    assert_eq!(item.next_review, 1_000 + MS_PER_DAY);
    s.review_at(&mut item, 4, 2_000);
    assert_eq!((item.repetitions, item.interval_days, item.ease), (2, 6, 260));
    s.review_at(&mut item, 3, 3_000);
    // 6 * 2.60 = 15.6 -> 16; ease 2.60 - 0.14
    assert_eq!((item.repetitions, item.interval_days, item.ease), (3, 16, 246));
    assert_eq!(item.next_review, 3_000 + 16 * MS_PER_DAY);
    let last = item.review_log[2];
    assert_eq!((last.reviewed_at, last.score, last.interval_before_days, last.interval_after_days, last.ease_after), (3_000, 3, 6, 16, 246));
}

#[test]
fn sm2_ease_deltas_per_score() {
    let s = Sm2Scheduler;
    let expected = [(0u8, 170u32), (1, 196), (2, 218), (3, 236), (4, 250), (5, 260)];
    for (score, ease) in expected.iter() {
        let mut item = fresh(0);
        s.review_at(&mut item, *score, 0);
        assert_eq!(item.ease, *ease, "score {score}");
    }
}

#[test]
fn sm2_scores_above_five_count_as_five() {
    let s = Sm2Scheduler;
    let mut item = fresh(0);
    s.review_at(&mut item, 9, 0);
    assert_eq!(item.review_log[0].score, 5);
    assert_eq!(item.ease, 260);
}

#[test]
fn sm2_interval_rounds_half_up() {
    let s = Sm2Scheduler;
    let mut item = fresh(0);
    item.repetitions = 2;
    item.interval_days = 5;
    item.ease = 240; // the interval stretches by the ease before this review
    s.review_at(&mut item, 5, 0);
    assert_eq!(item.interval_days, 12); // 5 * 2.40 = 12.0
    let mut item = fresh(0);
    item.repetitions = 2;
    item.interval_days = 5;
    item.ease = 250;
    s.review_at(&mut item, 5, 0);
    assert_eq!(item.interval_days, 13); // 12.5 rounds up
}

#[test]
fn sm2_interval_saturates_at_u32_max() {
    let s = Sm2Scheduler;
    let mut item = fresh(0);
    item.repetitions = 5;
    item.interval_days = u32::MAX;
    item.ease = 300;
    s.review_at(&mut item, 5, 0);
    assert_eq!(item.interval_days, u32::MAX);
}

#[test]
fn sm2_low_imported_ease_is_lifted_to_the_floor() {
    let s = Sm2Scheduler;
    let mut item = fresh(0);
    item.ease = 50;
    s.review_at(&mut item, 0, 0);
    assert_eq!(item.ease, 130);
}

#[test]
fn identity_content_and_links_survive_a_review() {
    let s = Sm2Scheduler;
    let mut item = fresh(42);
    item.related_ids.push("other".to_string());
    s.review_at(&mut item, 2, 100);
    assert_eq!(item.id, "id");
    assert_eq!(item.created_at, 42);
    assert_eq!(item.related_ids, vec!["other".to_string()]);
}


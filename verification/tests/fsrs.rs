use synapse_core::clock::MS_PER_DAY;
use synapse_core::domain::{CardContent, MemoryItem};
use synapse_core::scheduler::Sm2Scheduler;
use synapse_core::fsrs::{fsrs_rating, fsrs_step, record_fsrs_review, FsrsRating, FsrsStep};

fn item() -> MemoryItem {
    MemoryItem::new_at("id".to_string(), "Rust", "What is a trait?", CardContent::basic("A shared interface"), 0)
}

#[test]
fn scores_map_onto_ratings() {
    let got: Vec<FsrsRating> = (0u8..=7).map(fsrs_rating).collect();
    assert_eq!(
        got,
        vec![
            FsrsRating::Again,
            FsrsRating::Again,
            FsrsRating::Again,
            FsrsRating::Hard,
            FsrsRating::Good,
            FsrsRating::Easy,
            FsrsRating::Easy,
            FsrsRating::Easy
        ]
    );
    assert_eq!(FsrsRating::Again.grade(), 1);
    assert_eq!(FsrsRating::Easy.grade(), 4);
}

#[test]
fn first_review_uses_initial_stability_and_difficulty() {
    let mut m = item();
    assert_eq!(fsrs_step(&m, 10), FsrsStep::Initial);
    // w[2] = 2.3065, the initial stability for Good
    let stability = 2.3065f64.to_bits();
    let difficulty = 5.0f64.to_bits();
    record_fsrs_review(&mut m, 4, 10, difficulty, stability, 2);
    assert_eq!(m.stability, Some(stability));
    assert_eq!(m.difficulty, Some(difficulty));
    assert_eq!(m.repetitions, 1);
    assert_eq!(m.lapses, 0);
    assert_eq!(m.review_log.len(), 1);
    assert_eq!(m.review_log[0].stability_after, Some(stability));
    assert_eq!(m.review_log[0].ease_after, 250);
    assert_eq!(m.interval_days, 2);
    assert_eq!(m.next_review, 10 + 2 * MS_PER_DAY);
}

#[test]
fn again_rating_resets_repetitions_and_increments_lapses() {
    let mut m = item();
    record_fsrs_review(&mut m, 4, 0, 1, 2, 3);
    record_fsrs_review(&mut m, 0, 100, 1, 2, 1);
    assert_eq!(m.repetitions, 0);
    assert_eq!(m.lapses, 1);
    assert_eq!(m.total_lapses, 1);
    assert_eq!(m.review_log[1].score, 0);
    assert_eq!(m.review_log[1].interval_before_days, 3);
}

#[test]
fn fsrs_step_tells_same_day_from_later() {
    let mut m = item();
    record_fsrs_review(&mut m, 4, 1_000, 1, 2, 3);
    assert_eq!(fsrs_step(&m, 1_000 + MS_PER_DAY - 1), FsrsStep::SameDay);
    assert_eq!(fsrs_step(&m, 1_000 + MS_PER_DAY), FsrsStep::Later { elapsed_days: 1 });
    assert_eq!(fsrs_step(&m, 1_000 + 30 * MS_PER_DAY + 5), FsrsStep::Later { elapsed_days: 30 });
    // a clock that went backwards counts as the same day
    assert_eq!(fsrs_step(&m, 0), FsrsStep::SameDay);
    // an SM-2-reviewed item without FSRS state starts with the initial formulas
    let mut n = item();
    n.review_log = m.review_log.clone();
    assert_eq!(fsrs_step(&n, 1_000 + 30 * MS_PER_DAY), FsrsStep::Initial);
}

#[test]
fn switching_schedulers_keeps_each_others_state() {
    let mut m = item();
    record_fsrs_review(&mut m, 4, 0, 7, 8, 3);
    Sm2Scheduler.review_at(&mut m, 5, MS_PER_DAY);
    assert_eq!(m.difficulty, Some(7));
    assert_eq!(m.stability, Some(8));
    assert_eq!(m.ease, 260);
    record_fsrs_review(&mut m, 2, 2 * MS_PER_DAY, 9, 10, 1);
    assert_eq!(m.ease, 260);
    assert_eq!(m.difficulty, Some(9));
}

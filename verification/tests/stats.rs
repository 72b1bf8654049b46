use synapse_core::clock::{day_of_millis, now_millis, MS_PER_DAY};
use synapse_core::domain::{CardContent, MemoryItem, ReviewLogEntry};
use synapse_core::scheduler::{Scheduler, Sm2Scheduler};
use synapse_core::stats::{
    compute_stats, compute_stats_at, hardest_items, list_tracks, list_tracks_at, retention_over_time,
    review_heatmap, review_heatmap_on,
};

fn entry(reviewed_at: i64, score: u8, before: u32, after: u32) -> ReviewLogEntry {
    ReviewLogEntry {
        reviewed_at,
        score,
        interval_before_days: before,
        interval_after_days: after,
        ease_after: 250,
        difficulty_after: None,
        stability_after: None,
    }
}

#[test]
fn list_tracks_groups_and_counts_due_items() {
    let now = now_millis();
    let mut rust_due = MemoryItem::new("Rust", "What is a trait object?", CardContent::basic("..."));
    rust_due.next_review = now - MS_PER_DAY;
    let mut rust_not_due = MemoryItem::new("Rust", "What is Copy?", CardContent::basic("..."));
    rust_not_due.next_review = now + MS_PER_DAY;
    let mut bio = MemoryItem::new("Biology", "What is ATP?", CardContent::basic("..."));
    bio.next_review = now - MS_PER_DAY;

    let tracks = list_tracks(&[rust_due, rust_not_due, bio]);

    assert_eq!(tracks.len(), 2);
    assert_eq!(tracks[0].name, "Biology");
    assert_eq!(tracks[0].total, 1);
    assert_eq!(tracks[0].due, 1);
    assert_eq!(tracks[1].name, "Rust");
    assert_eq!(tracks[1].total, 2);
    assert_eq!(tracks[1].due, 1);
}

#[test]
fn empty_collection_has_zeroed_stats() {
    let stats = compute_stats(&[]);
    assert_eq!(stats.total_items, 0);
    // retention rate 0.0: nothing reviewed, nothing recalled
    assert_eq!(stats.successful_reviews, 0);
    assert_eq!(stats.total_reviews, 0);
    assert_eq!(stats.current_streak_days, 0);
    assert_eq!(stats.best_streak_days, 0);
}

#[test]
fn tracks_retention_and_leeches_across_items() {
    let scheduler = Sm2Scheduler;
    let mut good = MemoryItem::new("Rust", "What is a slice?", CardContent::basic("..."));
    scheduler.schedule(&mut good, 5);
    scheduler.schedule(&mut good, 5);

    let mut leech = MemoryItem::new("Rust", "What is variance?", CardContent::basic("..."));
    for _ in 0..8 {
        scheduler.schedule(&mut leech, 1);
    }

    let stats = compute_stats(&[good, leech]);
    assert_eq!(stats.total_items, 2);
    assert_eq!(stats.total_reviews, 10);
    assert_eq!(stats.leech_count, 1);
    // retention 0.2 of 10 reviews
    assert_eq!(stats.successful_reviews, 2);
    assert!(((stats.successful_reviews as f32 / stats.total_reviews as f32) - 0.2).abs() < 1e-6);
}

#[test]
fn streaks_count_consecutive_review_days() {
    let mut item = MemoryItem::new("Rust", "prompt", CardContent::basic("content"));
    let today = now_millis();
    item.review_log = vec![
        entry(today - 2 * MS_PER_DAY, 5, 0, 1),
        entry(today - MS_PER_DAY, 5, 1, 6),
        entry(today, 5, 6, 10),
    ];

    let stats = compute_stats(&[item]);
    assert_eq!(stats.current_streak_days, 3);
    assert_eq!(stats.best_streak_days, 3);
}

#[test]
fn streak_breaks_after_a_missed_day() {
    let mut item = MemoryItem::new("Rust", "prompt", CardContent::basic("content"));
    let today = now_millis();
    item.review_log = vec![entry(today - 5 * MS_PER_DAY, 5, 0, 1), entry(today, 5, 1, 6)];

    let stats = compute_stats(&[item]);
    assert_eq!(stats.current_streak_days, 1);
    assert_eq!(stats.best_streak_days, 1);
}

#[test]
fn heatmap_covers_every_day_in_range_including_zero_days() {
    let mut item = MemoryItem::new("Rust", "prompt", CardContent::basic("content"));
    item.review_log = vec![entry(now_millis(), 5, 0, 1)];

    let heatmap = review_heatmap(&[item], 7);
    assert_eq!(heatmap.len(), 7);
    assert_eq!(heatmap.last().unwrap().review_count, 1);
    assert_eq!(heatmap.first().unwrap().review_count, 0);
}

#[test]
fn retention_over_time_groups_by_day_and_omits_empty_days() {
    let mut item = MemoryItem::new("Rust", "prompt", CardContent::basic("content"));
    let today = now_millis();
    item.review_log = vec![entry(today, 5, 0, 1), entry(today, 1, 1, 1)];

    let curve = retention_over_time(&[item]);
    assert_eq!(curve.len(), 1);
    assert_eq!(curve[0].reviews, 2);
    // retention rate 0.5
    assert_eq!(curve[0].successes, 1);
    assert!(((curve[0].successes as f32 / curve[0].reviews as f32) - 0.5).abs() < 1e-6);
}

#[test]
fn hardest_items_sorts_by_lifetime_lapses_descending() {
    let mut low = MemoryItem::new("Rust", "easy", CardContent::basic("..."));
    low.total_lapses = 1;
    let mut high = MemoryItem::new("Rust", "hard", CardContent::basic("..."));
    high.total_lapses = 9;

    let worst = hardest_items(&[low, high], 1);
    assert_eq!(worst.len(), 1);
    assert_eq!(worst[0].prompt, "hard");
}

fn at_day(id: &str, day: i64, lapses: u32) -> MemoryItem {
    let mut m = MemoryItem::new_at(id.to_string(), "T", id, CardContent::basic("a"), 0);
    m.review_log.push(entry(day * MS_PER_DAY + 1000, 5, 0, 1));
    m.total_lapses = lapses;
    m
}

#[test]
fn best_streak_finds_the_longest_run_anywhere() {
    let items = vec![at_day("a", 10, 0), at_day("b", 11, 0), at_day("c", 12, 0), at_day("d", 20, 0), at_day("e", 21, 0), at_day("f", 11, 0)];
    let stats = compute_stats_at(&items, 21 * MS_PER_DAY + 5);
    assert_eq!(stats.best_streak_days, 3);
    assert_eq!(stats.current_streak_days, 2);
    assert!(stats.current_streak_days <= stats.best_streak_days);
    // a day later the streak still counts; two days later it is gone
    assert_eq!(compute_stats_at(&items, 22 * MS_PER_DAY).current_streak_days, 2);
    assert_eq!(compute_stats_at(&items, 23 * MS_PER_DAY).current_streak_days, 0);
}

#[test]
fn stats_count_due_items_and_sum_ease() {
    let mut a = MemoryItem::new_at("a".to_string(), "T", "a", CardContent::basic("a"), 100);
    let b = MemoryItem::new_at("b".to_string(), "T", "b", CardContent::basic("b"), 300);
    a.ease = 130;
    let stats = compute_stats_at(&[a, b], 200);
    assert_eq!(stats.due_now, 1);
    assert_eq!(stats.ease_sum, 380);
    assert_eq!(stats.total_items, 2);
}

#[test]
fn tracks_sort_alphabetically_by_code_point() {
    let names = ["b", "B", "a", "ab", "a", "Z"];
    let items: Vec<MemoryItem> = names
        .iter()
        .enumerate()
        .map(|(i, t)| MemoryItem::new_at(format!("{i}"), t, "p", CardContent::basic("x"), 10))
        .collect();
    let tracks = list_tracks_at(&items, 0);
    let got: Vec<(&str, usize, usize)> = tracks.iter().map(|t| (t.name.as_str(), t.total, t.due)).collect();
    assert_eq!(got, vec![("B", 1, 0), ("Z", 1, 0), ("a", 2, 0), ("ab", 1, 0), ("b", 1, 0)]);
    let tracks = list_tracks_at(&items, 10);
    assert!(tracks.iter().all(|t| t.due == t.total));
}

#[test]
fn heatmap_on_a_given_day_is_exact() {
    let items = vec![at_day("a", 100, 0), at_day("b", 100, 0), at_day("c", 98, 0), at_day("d", 101, 0)];
    let map = review_heatmap_on(&items, 3, 100);
    let got: Vec<(i64, usize)> = map.iter().map(|d| (d.date, d.review_count)).collect();
    assert_eq!(got, vec![(98, 1), (99, 0), (100, 2)]);
    // zero days: no entries at all
    assert!(review_heatmap_on(&items, 0, 100).is_empty());
    assert!(review_heatmap(&[], 0).is_empty());
    assert_eq!(day_of_millis(100 * MS_PER_DAY + 1000), 100);
}

#[test]
fn retention_points_are_ordered_by_day() {
    let mut items = vec![at_day("a", 5, 0), at_day("b", 3, 0)];
    items[0].review_log.push(entry(5 * MS_PER_DAY, 0, 0, 1));
    let curve = retention_over_time(&items);
    let got: Vec<(i64, usize, usize)> = curve.iter().map(|p| (p.date, p.reviews, p.successes)).collect();
    assert_eq!(got, vec![(3, 1, 1), (5, 2, 1)]);
}

#[test]
fn hardest_items_keep_order_among_equal_lapses() {
    let items = vec![at_day("a", 1, 2), at_day("b", 1, 5), at_day("c", 1, 2), at_day("d", 1, 5)];
    let worst = hardest_items(&items, 10);
    let order: Vec<&str> = worst.iter().map(|m| m.id.as_str()).collect();
    assert_eq!(order, vec!["b", "d", "a", "c"]);
    assert!(hardest_items(&items, 0).is_empty());
}

#[test]
fn track_totals_add_up_to_the_item_count() {
    let items = vec![
        MemoryItem::new_at("1".to_string(), "Rust", "a", CardContent::basic("x"), 0),
        MemoryItem::new_at("2".to_string(), "Bio", "b", CardContent::basic("x"), 0),
        MemoryItem::new_at("3".to_string(), "Rust", "c", CardContent::basic("x"), 0),
        MemoryItem::new_at("4".to_string(), "Art", "d", CardContent::basic("x"), 0),
    ];
    let tracks = list_tracks_at(&items, 0);
    assert_eq!(tracks.iter().map(|t| t.total).sum::<usize>(), items.len());
}

#[test]
fn retention_counts_add_up_to_all_reviews() {
    let mut a = MemoryItem::new_at("1".to_string(), "Rust", "a", CardContent::basic("x"), 0);
    a.review_log = vec![entry(5, 4, 0, 1), entry(MS_PER_DAY + 5, 1, 1, 1), entry(MS_PER_DAY + 9, 5, 1, 6)];
    let mut b = MemoryItem::new_at("2".to_string(), "Bio", "b", CardContent::basic("x"), 0);
    b.review_log = vec![entry(3 * MS_PER_DAY, 2, 0, 1)];
    let points = retention_over_time(&[a, b]);
    assert_eq!(points.len(), 3);
    assert_eq!(points.iter().map(|p| p.reviews).sum::<usize>(), 4);
}

#[test]
fn best_streak_is_at_most_the_review_days() {
    let mut a = MemoryItem::new_at("1".to_string(), "Rust", "a", CardContent::basic("x"), 0);
    a.review_log = vec![entry(0, 4, 0, 1), entry(5, 4, 1, 1), entry(MS_PER_DAY, 4, 1, 6), entry(5 * MS_PER_DAY, 4, 6, 9)];
    let stats = compute_stats_at(&[a], 5 * MS_PER_DAY);
    assert_eq!(stats.best_streak_days, 2);
    assert!(stats.best_streak_days <= 3);
    assert_eq!(stats.current_streak_days, 1);
}

use synapse_core::domain::{CardContent, MemoryItem};
use synapse_core::gamification::{compute_gamification, title_for_level};
use synapse_core::stats::Stats;

fn stats_with(total_reviews: usize, successful_reviews: usize, best_streak_days: u32, leech_count: usize) -> Stats {
    Stats {
        total_items: 0,
        due_now: 0,
        total_reviews,
        successful_reviews,
        current_streak_days: 0,
        best_streak_days,
        ease_sum: 0,
        leech_count,
    }
}

#[test]
fn fresh_vault_has_zero_xp_and_lowest_title() {
    // retention 0.0 over 0 reviews: no successful reviews
    let stats = stats_with(0, 0, 0, 0);
    let summary = compute_gamification(&[], &stats);
    assert_eq!(summary.xp, 0);
    assert_eq!(summary.level, 0);
    assert_eq!(summary.title, "Landlubber");
    assert!(summary.achievements.iter().all(|a| !a.unlocked));
}

#[test]
fn xp_and_achievements_grow_with_activity() {
    // 100 reviews at 95% retention: 95 successful
    let stats = stats_with(100, 95, 10, 0);
    let items: Vec<MemoryItem> = (0..10)
        .map(|i| MemoryItem::new("Rust", &format!("q{i}"), CardContent::basic("...")))
        .collect();

    let summary = compute_gamification(&items, &stats);
    assert!(summary.xp > 0);
    assert!(summary.level >= 1);

    let unlocked: Vec<&str> = summary.achievements.iter().filter(|a| a.unlocked).map(|a| a.id).collect();
    assert!(unlocked.contains(&"first_blood"));
    assert!(unlocked.contains(&"iron_will"));
    assert!(unlocked.contains(&"century_club"));
    assert!(unlocked.contains(&"sharpshooter"));
    assert!(unlocked.contains(&"leech_slayer"));
}

#[test]
fn xp_is_ten_per_review_plus_five_per_success() {
    let summary = compute_gamification(&[], &stats_with(100, 95, 0, 0));
    assert_eq!(summary.xp, 1475);
    assert_eq!(summary.level, 2);
    let summary = compute_gamification(&[], &stats_with(1, 1, 0, 0));
    assert_eq!(summary.xp, 15);
    let summary = compute_gamification(&[], &stats_with(1, 0, 0, 0));
    assert_eq!(summary.xp, 10);
}

#[test]
fn titles_follow_levels() {
    assert_eq!(title_for_level(0), "Landlubber");
    assert_eq!(title_for_level(2), "Landlubber");
    assert_eq!(title_for_level(3), "Deckhand");
    assert_eq!(title_for_level(6), "First Mate");
    assert_eq!(title_for_level(11), "Captain");
    assert_eq!(title_for_level(20), "Captain");
    assert_eq!(title_for_level(21), "Blackbeard's Own");
}

#[test]
fn sharpshooter_needs_ninety_percent_over_twenty_reviews() {
    let at = |total, ok| compute_gamification(&[], &stats_with(total, ok, 0, 0)).achievements[3].unlocked;
    assert!(at(20, 18));
    assert!(!at(20, 17));
    assert!(!at(19, 19));
}

#[test]
fn cartographer_counts_linked_memories() {
    let mut items: Vec<MemoryItem> = (0..5)
        .map(|i| MemoryItem::new_at(format!("id{i}"), "T", "p", CardContent::basic("a"), 0))
        .collect();
    for i in 0..4 {
        items[i].related_ids.push("x".to_string());
    }
    let summary = compute_gamification(&items, &stats_with(0, 0, 0, 0));
    assert_eq!(summary.achievements[5].id, "cartographer");
    assert!(!summary.achievements[5].unlocked);
    items[4].related_ids.push("x".to_string());
    let summary = compute_gamification(&items, &stats_with(0, 0, 0, 0));
    assert!(summary.achievements[5].unlocked);
    // leech slayer needs ten memories
    assert!(!summary.achievements[4].unlocked);
}

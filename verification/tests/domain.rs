use synapse_core::clock::{day_of_millis, now_millis, LATEST_MS, MS_PER_DAY};
use synapse_core::domain::{copy_items, CardContent, MemoryItem, LEECH_THRESHOLD};
use synapse_core::text::{str_eq, str_lt};

#[test]
fn new_item_is_immediately_due() {
    let item = MemoryItem::new("Rust", "What is ownership?", CardContent::basic("Exclusive access to a value"));
    assert!(item.is_due());
    assert_eq!(item.repetitions, 0);
    assert_eq!(item.ease, 250);
    assert!(item.review_log.is_empty());
}

#[test]
fn new_at_fills_every_field() {
    let item = MemoryItem::new_at("id-1".to_string(), "Bio", "What is ATP?", CardContent::cloze("{{c1::energy}}"), 1_000);
    assert_eq!(item.id, "id-1");
    assert_eq!(item.training_track, "Bio");
    assert_eq!(item.prompt, "What is ATP?");
    assert_eq!(item.next_review, 1_000);
    assert_eq!(item.created_at, 1_000);
    assert_eq!(item.interval_days, 0);
    assert_eq!(item.lapses, 0);
    assert_eq!(item.total_lapses, 0);
    assert!(item.related_ids.is_empty());
    assert!(item.difficulty.is_none() && item.stability.is_none());
    assert!(matches!(item.content, CardContent::Cloze { ref text } if text == "{{c1::energy}}"));
}

#[test]
fn due_exactly_at_next_review_and_not_before() {
    let item = MemoryItem::new_at("x".to_string(), "T", "p", CardContent::basic("a"), 5_000);
    assert!(item.is_due_at(5_000));
    assert!(item.is_due_at(5_001));
    assert!(!item.is_due_at(4_999));
}

#[test]
fn leech_threshold_is_eight_lapses_in_a_row() {
    let mut item = MemoryItem::new_at("x".to_string(), "T", "p", CardContent::basic("a"), 0);
    item.lapses = LEECH_THRESHOLD - 1;
    assert!(!item.is_leech());
    item.lapses = LEECH_THRESHOLD;
    assert!(item.is_leech());
}

#[test]
fn fresh_ids_differ() {
    let a = MemoryItem::new("T", "p", CardContent::basic("a"));
    let b = MemoryItem::new("T", "p", CardContent::basic("a"));
    assert_ne!(a.id, b.id);
    assert_eq!(a.id.len(), 36);
}

#[test]
fn duplicate_and_copy_items_keep_everything() {
    let mut item = MemoryItem::new_at("x".to_string(), "T", "p", CardContent::code("rust", "fn main() {}"), 7);
    item.related_ids.push("y".to_string());
    item.stability = Some(2.5f64.to_bits());
    let copy = item.duplicate();
    assert_eq!(copy.id, item.id);
    assert_eq!(copy.related_ids, item.related_ids);
    assert_eq!(copy.stability, item.stability);
    let all = copy_items(&[item.clone(), copy]);
    assert_eq!(all.len(), 2);
    assert_eq!(all[1].related_ids, vec!["y".to_string()]);
}

#[test]
fn card_constructors_hold_their_texts() {
    assert!(matches!(CardContent::image("assets/a.png"), CardContent::Image { ref path } if path == "assets/a.png"));
    assert!(matches!(CardContent::code("py", "x = 1"), CardContent::Code { ref language, ref code } if language == "py" && code == "x = 1"));
}

#[test]
fn clock_reads_an_instant_in_range() {
    let now = now_millis();
    assert!(now > 1_600_000_000_000 && now <= LATEST_MS);
}

#[test]
fn day_of_millis_floors_toward_negative_infinity() {
    assert_eq!(day_of_millis(0), 0);
    assert_eq!(day_of_millis(MS_PER_DAY - 1), 0);
    assert_eq!(day_of_millis(MS_PER_DAY), 1);
    assert_eq!(day_of_millis(-1), -1);
    assert_eq!(day_of_millis(-MS_PER_DAY), -1);
    assert_eq!(day_of_millis(-MS_PER_DAY - 1), -2);
    assert_eq!(day_of_millis(1_700_000_000_000), 19675);
}

#[test]
fn text_order_matches_rust_string_order() {
    let words = ["", "a", "ab", "b", "B", "é", "ä", "abc", "Rust", "Biology"];
    for x in words.iter() {
        for y in words.iter() {
            assert_eq!(str_lt(x, y), x < y, "{x} < {y}");
            assert_eq!(str_eq(x, y), x == y);
        }
    }
}

#[test]
fn new_item_is_due_from_its_creation_on() {
    let item = MemoryItem::new_at("id-2".to_string(), "Bio", "What is DNA?", CardContent::basic("A molecule"), 5_000);
    assert!(!item.is_due_at(4_999));
    assert!(item.is_due_at(5_000));
    assert!(item.is_due_at(5_000 + 365 * MS_PER_DAY));
    assert!(!item.is_leech());
}

fn is_v4_uuid_text(s: &str) -> bool {
    let c: Vec<char> = s.chars().collect();
    c.len() == 36
        && c.iter().enumerate().all(|(i, ch)| {
            if [8, 13, 18, 23].contains(&i) {
                *ch == '-'
            } else {
                ch.is_ascii_digit() || ('a'..='f').contains(ch)
            }
        })
        && c[14] == '4'
        && "89ab".contains(c[19])
}

#[test]
fn new_items_get_v4_uuid_ids() {
    let a = MemoryItem::new("Rust", "p", CardContent::basic("a"));
    let b = MemoryItem::new("Rust", "p", CardContent::basic("a"));
    assert!(is_v4_uuid_text(&a.id));
    assert!(is_v4_uuid_text(&b.id));
    assert_ne!(a.id, b.id);
}

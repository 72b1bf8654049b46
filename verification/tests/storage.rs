use synapse_core::assets::{asset_file_name, asset_relative_path, check_image_extension};
use synapse_core::backup::{backup_filename, backups_oldest_first, backups_to_rotate_out, is_json_file, newest_first, MAX_BACKUPS};
use synapse_core::domain::{CardContent, MemoryItem};
use synapse_core::error::SynapseError;
use synapse_core::settings::{default_daily_review_limit, default_fsrs_desired_retention, default_scheduler, default_theme, Settings, SettingsStore};
use synapse_core::store::JsonFileStore;
use synapse_core::window_state::{WindowState, WindowStateStore};

#[test]
fn missing_settings_file_yields_defaults() {
    let store = SettingsStore::new("settings.json".to_string());
    let settings = store.load(None);
    assert_eq!(settings, Settings::default());
}

#[test]
fn default_settings_values() {
    let s = Settings::default();
    assert_eq!(s.daily_review_limit, 20);
    assert_eq!(s.theme, "neural");
    assert_eq!(s.scheduler, "sm2");
    assert_eq!(f32::from_bits(s.fsrs_desired_retention), 0.9f32);
    assert_eq!(default_daily_review_limit(), 20);
    assert_eq!(default_theme(), "neural");
    assert_eq!(default_scheduler(), "sm2");
    assert_eq!(default_fsrs_desired_retention(), 0.9f32.to_bits());
}

#[test]
fn stored_settings_win_over_defaults() {
    let store = SettingsStore::new("settings.json".to_string());
    let custom = Settings {
        daily_review_limit: 50,
        theme: "blackbeard".to_string(),
        scheduler: "fsrs".to_string(),
        fsrs_desired_retention: 0.85f32.to_bits(),
    };
    assert_eq!(store.load(Some(custom.clone())), custom);
    assert_eq!(store.file_path(), "settings.json");
}

#[test]
fn missing_file_yields_sane_defaults() {
    let store = WindowStateStore::new("window_state.json".to_string());
    let state = store.load(None);
    assert_eq!(state, WindowState::default());
    assert!(state.width > 0 && state.height > 0);
}

#[test]
fn stored_window_state_wins_over_default() {
    let store = WindowStateStore::new("window_state.json".to_string());
    let custom = WindowState { x: Some(120), y: Some(80), width: 1280, height: 800 };
    assert_eq!(store.load(Some(custom)), custom);
    assert_eq!(WindowState::default(), WindowState { x: None, y: None, width: 1000, height: 720 });
}

#[test]
fn missing_vault_file_yields_no_items() {
    let store = JsonFileStore::new("memories.json".to_string());
    assert!(store.load(None).is_empty());
    let item = MemoryItem::new("Rust", "What is a lifetime?", CardContent::basic("A scope for borrows"));
    let loaded = store.load(Some(vec![item.clone()]));
    assert_eq!(loaded.len(), 1);
    assert_eq!(loaded[0].id, item.id);
}

#[test]
fn backup_filename_formats_the_utc_instant() {
    assert_eq!(backup_filename(0), "memories-19700101T000000.000Z.json");
    assert_eq!(backup_filename(1_725_029_869_123), "memories-20240830T145749.123Z.json");
}

#[test]
fn json_extension_follows_path_rules() {
    assert!(is_json_file("memories-1.json"));
    assert!(is_json_file("a.json"));
    assert!(is_json_file("..json"));
    assert!(!is_json_file(".json"));
    assert!(!is_json_file("a.json.tmp"));
    assert!(!is_json_file("json"));
    assert!(!is_json_file("a.JSON"));
}

#[test]
fn list_backups_is_newest_first() {
    let first = backup_filename(1_000);
    let second = backup_filename(1_005);
    let names = vec![second.clone(), "notes.txt".to_string(), first.clone()];
    let oldest = backups_oldest_first(&names);
    assert_eq!(oldest.len(), 2);
    let backups = newest_first(&oldest);
    assert_eq!(backups.len(), 2);
    assert_eq!(backups[0], second);
}

#[test]
fn rotation_keeps_only_the_newest_backups() {
    let names: Vec<String> = (0..(MAX_BACKUPS as i64 + 3)).map(|i| backup_filename(1_000 + i * 7)).collect();
    let oldest = backups_oldest_first(&names);
    let doomed = backups_to_rotate_out(&oldest);
    assert_eq!(doomed.len(), 3);
    assert_eq!(doomed, names[..3].to_vec());
    assert_eq!(oldest.len() - doomed.len(), MAX_BACKUPS);
    assert!(backups_to_rotate_out(&oldest[..MAX_BACKUPS].to_vec()).is_empty());
}

#[test]
fn empty_backup_dir_yields_empty_list() {
    let backups = newest_first(&backups_oldest_first(&Vec::new()));
    assert!(backups.is_empty());
}

#[test]
fn rejects_non_image_extensions() {
    let result = check_image_extension("exe");
    assert!(matches!(result, Err(SynapseError::InvalidOperation(_))));
    match check_image_extension("") {
        Err(SynapseError::InvalidOperation(msg)) => {
            assert_eq!(msg, "unsupported image type \".\" (allowed: png, jpg, jpeg, gif, webp, bmp, svg)")
        }
        _ => panic!("expected InvalidOperation"),
    }
}

#[test]
fn image_extensions_are_lower_cased() {
    assert_eq!(check_image_extension("PNG").unwrap(), "png");
    assert_eq!(check_image_extension("JpEg").unwrap(), "jpeg");
    assert_eq!(check_image_extension("svg").unwrap(), "svg");
}

#[test]
fn imported_assets_get_relative_paths_with_their_extension() {
    let relative = asset_relative_path(&asset_file_name("png"));
    assert!(relative.starts_with("assets/"));
    assert!(relative.ends_with(".png"));
}

#[test]
fn two_imports_of_the_same_source_get_distinct_filenames() {
    let first = asset_file_name("jpg");
    let second = asset_file_name("jpg");
    assert_ne!(first, second);
}

#[test]
fn asset_names_have_a_uuid_stem() {
    let name = asset_file_name("png");
    let stem = name.strip_suffix(".png").unwrap();
    let c: Vec<char> = stem.chars().collect();
    assert_eq!(c.len(), 36);
    assert_eq!((c[8], c[13], c[18], c[23], c[14]), ('-', '-', '-', '-', '4'));
    assert!(c.iter().all(|ch| *ch == '-' || ch.is_ascii_digit() || ('a'..='f').contains(ch)));
}

#[test]
fn the_newest_backup_survives_rotation() {
    let names: Vec<String> = (0..(MAX_BACKUPS + 3)).map(|i| format!("memories-{i:02}.json")).collect();
    let oldest_first = backups_oldest_first(&names);
    let removed = backups_to_rotate_out(&oldest_first);
    assert_eq!(removed.len(), 3);
    let kept: Vec<&String> = oldest_first.iter().filter(|n| !removed.contains(n)).collect();
    assert_eq!(kept.len(), MAX_BACKUPS);
    assert!(kept.contains(&&format!("memories-{:02}.json", MAX_BACKUPS + 2)));
    assert!(removed.iter().all(|r| kept.iter().all(|k| r < *k)));
}

#[test]
fn backup_names_sort_in_creation_order() {
    let day: i64 = 86_400_000;
    let instants: Vec<i64> = vec![
        0,
        1,
        999,
        1_000,
        59_999,
        3_599_999,
        day - 1,
        day,
        59 * day,                 // 1970-03-01
        365 * day - 1,            // last millisecond of 1970
        365 * day,                // 1971-01-01
        951_782_400_000,          // 2000-02-29
        951_868_800_000,          // 2000-03-01
        1_700_000_000_123,
        253_402_300_799_999,      // last millisecond of 9999
    ];
    let names: Vec<String> = instants.iter().map(|t| backup_filename(*t)).collect();
    assert_eq!(names[11], "memories-20000229T000000.000Z.json");
    assert_eq!(names[14], "memories-99991231T235959.999Z.json");
    for w in names.windows(2) {
        assert!(w[0] < w[1], "{} !< {}", w[0], w[1]);
    }
}

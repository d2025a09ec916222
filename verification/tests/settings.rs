//! Settings, usage records and the first window.

use deskfence::display::{auto_category, Registry};
use deskfence::lang::{lang, Lang, Language};
use deskfence::model::{default_categories, CategoryDef};
use deskfence::settings::{
    align_mode, auto_align_on, categorize, category_table, category_tombstone_at, chrome_always_on,
    clear_category_tombstone, default_auto_category, default_desktop_state, default_render_mode,
    default_z_guard, desktop_state, grid_align_on, lang_setting_value, load_settings,
    migrated_align_mode, precise_mode_on, render_mode, set_align_mode_stored,
    set_auto_category_stored, set_category_mode, set_category_table, set_category_tombstone,
    set_desktop_state_stored, set_lang_stored, set_render_mode_stored, set_show_chrome_stored,
    z_guard_setting, CategoryCache, Settings, SettingsCache, SettingsFile,
};
use deskfence::text_map::TextMap;
use deskfence::usage::{
    epoch_ms, load_usage, prune_usage, record_open, record_open_at, usage_of, UsageEntry,
    UsageStore,
};
use deskfence::welcome::{
    apply_choices, diff_choices, dismissed, should_show, stack_parts, welcome_action, Part,
    WelcomeAction, WelcomeEvent, IDC_OK,
};

fn settings() -> Settings {
    Settings::default()
}

fn names(t: &Vec<CategoryDef>) -> Vec<String> {
    t.iter().map(|c| c.name.clone()).collect()
}

#[test]
fn settings_default_auto_align_on() {
    let s = Settings::default();
    assert_eq!(s.align_mode, "auto");
}

#[test]
fn partial_settings_update_preserves_other_fields() {
    let mut s = Settings::default();
    s.deleted_category_at.insert("文档".into(), 1_726_400_000_000);
    let mut cur = load_settings(SettingsFile::Text { raw: String::new(), parsed: Some(s) });
    let mut cache = SettingsCache::new();
    set_align_mode_stored(&mut cache, &mut cur, "grid");
    let reread = load_settings(SettingsFile::Text { raw: String::new(), parsed: Some(cur) });
    assert_eq!(reread.align_mode, "grid");
    assert_eq!(reread.deleted_category_at.get("文档"), Some(&1_726_400_000_000));
}

#[test]
fn the_first_start_has_the_built_in_settings() {
    for file in [SettingsFile::Missing, SettingsFile::Unreadable] {
        let s = load_settings(file);
        assert_eq!(s.align_mode, "auto");
        assert_eq!(s.render_mode, default_render_mode());
        assert_eq!(s.desktop_state, default_desktop_state());
        assert_eq!(s.auto_category, default_auto_category());
        assert_eq!(s.z_guard, default_z_guard());
        assert!(!s.show_chrome);
        assert!(!s.first_run_done);
        assert_eq!(s.lang, "auto");
        assert_eq!(names(&s.categories), names(&default_categories()));
        assert_eq!(s.deleted_category_at.len(), 0);
    }
}

#[test]
fn the_switch_of_the_first_versions_is_understood() {
    let read = |raw: &str| {
        load_settings(SettingsFile::Text { raw: raw.to_string(), parsed: None }).align_mode
    };
    assert_eq!(read(r#"{"auto_align":false}"#), "free");
    assert_eq!(read(r#"{"auto_align":true}"#), "auto");
    assert_eq!(read(r#"{"other":false}"#), "auto");
    assert_eq!(read("not json"), "auto");
    assert_eq!(migrated_align_mode(Some(false)), "free");
    assert_eq!(migrated_align_mode(None), "auto");
}

#[test]
fn stored_modes_are_read_back() {
    let mut cache = SettingsCache::new();
    let mut s = settings();
    assert_eq!(align_mode(&mut cache, &s), "auto");
    assert!(auto_align_on(&mut cache, &s));
    set_align_mode_stored(&mut cache, &mut s, "grid");
    assert_eq!(align_mode(&mut cache, &s), "grid");
    assert!(grid_align_on(&mut cache, &s));
    assert!(!auto_align_on(&mut cache, &s));
    assert!(precise_mode_on(&mut cache, &s));
    set_render_mode_stored(&mut cache, &mut s, "transparent");
    assert_eq!(render_mode(&mut cache, &s), "transparent");
    assert!(!precise_mode_on(&mut cache, &s));
    set_desktop_state_stored(&mut cache, &mut s, "hidden");
    assert_eq!(desktop_state(&mut cache, &s), "hidden");
    assert!(!chrome_always_on(&cache));
    set_show_chrome_stored(&mut cache, &mut s, true);
    assert!(chrome_always_on(&cache));
    assert!(s.show_chrome);
}

#[test]
fn a_mode_is_read_from_the_store_once() {
    let mut cache = SettingsCache::new();
    let mut s = settings();
    assert_eq!(align_mode(&mut cache, &s), "auto");
    s.align_mode = "free".into();
    assert_eq!(align_mode(&mut cache, &s), "auto");
    assert!(z_guard_setting(&mut cache, &s));
    s.z_guard = false;
    assert!(z_guard_setting(&mut cache, &s));
}

#[test]
fn category_mode_changes_only_when_it_differs() {
    let mut reg = Registry::new();
    let mut s = settings();
    assert!(!set_category_mode(&mut reg, &mut s, true));
    assert!(set_category_mode(&mut reg, &mut s, false));
    assert!(!s.auto_category);
    assert!(!auto_category(&reg));
    set_auto_category_stored(&mut reg, &mut s, true);
    assert!(s.auto_category);
}

#[test]
fn the_language_setting_takes_effect() {
    let mut l = Language::new();
    let mut s = settings();
    set_lang_stored(&mut l, &mut s, "en", true);
    assert_eq!(lang(&l), Lang::En);
    assert_eq!(lang_setting_value(&s), "en");
    set_lang_stored(&mut l, &mut s, "auto", true);
    assert_eq!(lang(&l), Lang::Zh);
}

#[test]
fn deleted_categories_are_noted_and_forgotten() {
    let mut s = settings();
    assert_eq!(category_tombstone_at(&s, "文档"), None);
    set_category_tombstone(&mut s, "文档", 12);
    assert_eq!(category_tombstone_at(&s, "文档"), Some(12));
    assert!(clear_category_tombstone(&mut s, "文档"));
    assert!(!clear_category_tombstone(&mut s, "文档"));
    assert_eq!(category_tombstone_at(&s, "文档"), None);
}

#[test]
fn the_table_in_effect_decides_the_category() {
    let s = settings();
    let mut cache = CategoryCache { table: None };
    assert_eq!(categorize(&mut cache, &s, "a.txt", false), "文档");
    assert_eq!(category_table(&mut cache, &s).len(), 8);
    set_category_table(&mut cache, Vec::new());
    assert_eq!(categorize(&mut cache, &s, "a.txt", false), "其他");
    assert_eq!(category_table(&mut cache, &s).len(), 0);
}

#[test]
fn openings_are_counted() {
    let mut store = UsageStore::new();
    assert_eq!(usage_of(&store, "a"), (0, 0));
    record_open_at(&mut store, "a", 5);
    record_open_at(&mut store, "a", 9);
    assert_eq!(usage_of(&store, "a"), (2, 9));
    let before = epoch_ms();
    record_open(&mut store, "b");
    let (n, at) = usage_of(&store, "b");
    assert_eq!(n, 1);
    assert!(at >= before && before > 1_600_000_000_000);
}

#[test]
fn a_count_stops_at_the_greatest_number() {
    let mut saved = TextMap::new();
    saved.insert("a".to_string(), UsageEntry { count: u32::MAX, last_ms: 1 });
    let mut store = UsageStore::new();
    load_usage(&mut store, saved);
    record_open_at(&mut store, "a", 2);
    assert_eq!(usage_of(&store, "a"), (u32::MAX, 2));
}

#[test]
fn records_of_other_files_are_dropped() {
    let mut store = UsageStore::new();
    for p in ["a", "b", "c"] {
        record_open_at(&mut store, p, 1);
    }
    assert_eq!(prune_usage(&mut store, &vec!["b".to_string()]), 2);
    assert_eq!(usage_of(&store, "a"), (0, 0));
    assert_eq!(usage_of(&store, "b"), (1, 1));
    assert_eq!(store.records().unwrap().len(), 1);
}

#[test]
fn the_first_window_is_shown_until_it_is_dismissed() {
    assert!(should_show(false, false));
    assert!(!should_show(true, false));
    assert!(!should_show(false, true));
    let mut s = settings();
    dismissed(&mut s, false);
    assert!(!s.first_run_done);
    dismissed(&mut s, true);
    assert!(s.first_run_done);
}

#[test]
fn only_changed_choices_are_applied() {
    assert_eq!(diff_choices(true, true, false, false), (None, None));
    assert_eq!(diff_choices(true, false, false, true), (Some(true), Some(false)));
    let mut cache = SettingsCache::new();
    let mut s = settings();
    let c = apply_choices(&mut cache, &mut s, true, true, true);
    assert!(c.redraw);
    assert_eq!(c.autostart, None);
    assert!(s.show_chrome);
    let again = apply_choices(&mut cache, &mut s, true, false, true);
    assert!(!again.redraw);
    assert_eq!(again.autostart, Some(false));
}

#[test]
fn the_first_window_closes_by_its_button() {
    assert!(welcome_action(WelcomeEvent::Command(IDC_OK)) == WelcomeAction::ApplyAndGo);
    assert!(welcome_action(WelcomeEvent::Command(IDC_OK + 1)) == WelcomeAction::Nothing);
    assert!(welcome_action(WelcomeEvent::Close) == WelcomeAction::Go);
    assert!(welcome_action(WelcomeEvent::Gone { stay_away: true }) == WelcomeAction::StayAway);
    assert!(welcome_action(WelcomeEvent::Gone { stay_away: false }) == WelcomeAction::Nothing);
}

#[test]
fn the_parts_of_the_first_window_are_stacked() {
    let parts = vec![Part { height: 20, space: 6 }, Part { height: 30, space: 4 }];
    let tops = stack_parts(10, &parts);
    assert_eq!(tops[0], 10);
    assert_eq!(tops[1], 36);
    let tall = vec![Part { height: 100_000, space: 0 }; 70];
    assert_eq!(stack_parts(-5, &tall)[69], 6_899_995);
}

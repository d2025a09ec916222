//! Which language is shown, and the texts of both.

use deskfence::lang::{
    fallback_suffix, lang, prefers_zh, quit_deskfence, resolve, set_effective, tray_show_all, Lang,
    Language,
};

#[test]
fn resolve_explicit_overrides_system() {
    assert_eq!(resolve("zh", false), Lang::Zh);
    assert_eq!(resolve("en", true), Lang::En);
}

#[test]
fn resolve_auto_follows_system() {
    assert_eq!(resolve("auto", true), Lang::Zh);
    assert_eq!(resolve("auto", false), Lang::En);
}

#[test]
fn resolve_unknown_setting_behaves_like_auto() {
    assert_eq!(resolve("", true), Lang::Zh);
    assert_eq!(resolve("bogus", false), Lang::En);
}

#[test]
fn bilingual_pairs_are_non_empty() {
    for l in [Lang::Zh, Lang::En] {
        assert!(!tray_show_all(l).is_empty());
        assert!(!quit_deskfence(l).is_empty());
        assert!(!fallback_suffix(l).is_empty());
    }
}

#[test]
fn a_set_language_is_read_back() {
    let mut state = Language::new();
    set_effective(&mut state, Lang::En);
    assert_eq!(lang(&state), Lang::En);
    set_effective(&mut state, Lang::Zh);
    assert_eq!(lang(&state), Lang::Zh);
}

#[test]
fn simplified_chinese_is_told_by_its_code() {
    assert!(prefers_zh("0804"));
    assert!(prefers_zh("0804x04"));
    assert!(!prefers_zh("0409"));
    assert!(!prefers_zh("0004"));
    assert!(!prefers_zh(""));
}

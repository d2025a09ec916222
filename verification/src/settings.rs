//! The user's preferences: the stored settings, the values read of them once and
//! kept, and the category table in effect.
use crate::model;
use crate::model::{CategoryDef, CategoryView};
use crate::text;
use crate::text_map::TextMap;
use vstd::prelude::*;

verus! {

/// The stored settings.
pub struct Settings {
    /// `auto` (fixed spacing), `grid` (multiples of an icon cell) or `free`.
    pub align_mode: String,
    /// `precise` or `transparent`.
    pub render_mode: String,
    /// Whether files are sorted into fences by their category.
    pub auto_category: bool,
    /// `normal`, `zen` (wallpaper only) or `native` (the system's own icons).
    pub desktop_state: String,
    /// Whether the place of the fences among the windows is defended.
    pub z_guard: bool,
    /// Whether the borders of fences are always drawn.
    pub show_chrome: bool,
    /// When the user deleted the fence of a category.
    pub deleted_category_at: TextMap<u64>,
    /// The category table.
    pub categories: Vec<CategoryDef>,
    /// `auto`, `zh` or `en`.
    pub lang: String,
    /// Whether the introduction is not to be shown again.
    pub first_run_done: bool,
}

/// The contents of `Settings`.
pub struct SettingsView {
    pub align_mode: Seq<char>,
    pub render_mode: Seq<char>,
    pub auto_category: bool,
    pub desktop_state: Seq<char>,
    pub z_guard: bool,
    pub show_chrome: bool,
    pub deleted_category_at: Map<Seq<char>, u64>,
    pub categories: Seq<CategoryView>,
    pub lang: Seq<char>,
    pub first_run_done: bool,
}

impl View for Settings {
    type V = SettingsView;

    open spec fn view(&self) -> SettingsView {
        SettingsView {
            align_mode: self.align_mode@,
            render_mode: self.render_mode@,
            auto_category: self.auto_category,
            desktop_state: self.desktop_state@,
            z_guard: self.z_guard,
            show_chrome: self.show_chrome,
            deleted_category_at: self.deleted_category_at@,
            categories: model::table_view(self.categories@),
            lang: self.lang@,
            first_run_done: self.first_run_done,
        }
    }
}

impl Settings {
    /// No category was deleted twice.
    pub open spec fn wf(&self) -> bool {
        self.deleted_category_at.wf()
    }
}

/// The settings of a first start, with a given alignment.
pub open spec fn initial_settings(align_mode: Seq<char>) -> SettingsView {
    SettingsView {
        align_mode,
        render_mode: "precise"@,
        auto_category: true,
        desktop_state: "normal"@,
        z_guard: true,
        show_chrome: false,
        deleted_category_at: Map::empty(),
        categories: model::builtin_categories(),
        lang: "auto"@,
        first_run_done: false,
    }
}

/// The desktop state of a first start.
pub fn default_desktop_state() -> (r: String)
    ensures
        r@ == "normal"@,
{
    text::own("normal")
}

/// The render mode of a first start.
pub fn default_render_mode() -> (r: String)
    ensures
        r@ == "precise"@,
{
    text::own("precise")
}

/// Categories are automatic at a first start.
pub fn default_auto_category() -> (r: bool)
    ensures
        r,
{
    true
}

/// The place of the fences is defended at a first start.
pub fn default_z_guard() -> (r: bool)
    ensures
        r,
{
    true
}

fn settings_with(align_mode: &str) -> (r: Settings)
    ensures
        r@ == initial_settings(align_mode@),
        r.wf(),
{
    Settings {
        align_mode: text::own(align_mode),
        render_mode: default_render_mode(),
        auto_category: default_auto_category(),
        desktop_state: default_desktop_state(),
        z_guard: default_z_guard(),
        show_chrome: false,
        deleted_category_at: TextMap::new(),
        categories: model::default_categories(),
        lang: text::own("auto"),
        first_run_done: false,
    }
}

impl Default for Settings {
    fn default() -> (r: Self)
        ensures
            r@ == initial_settings("auto"@),
            r.wf(),
    {
        settings_with("auto")
    }
}

// ---------------------------------------------------------------- reading the file

/// What was found where the settings are stored. `parsed` is what the text holds
/// as settings, where it does.
pub enum SettingsFile {
    Missing,
    Unreadable,
    Text { raw: String, parsed: Option<Settings> },
}

/// What `serde_json` reads as the boolean field `key` of the JSON object `raw`.
pub uninterp spec fn json_bool(raw: Seq<char>, key: Seq<char>) -> Option<bool>;

/// `serde_json::from_str` into a `serde_json::Value`, and of it `get(key)` and
/// `as_bool`: the boolean at `key` where `raw` is a JSON object that has one there.
/// The result is a function of the two texts.
#[verifier::external_body]
fn json_bool_field(raw: &str, key: &str) -> (r: Option<bool>)
    ensures
        r == json_bool(raw@, key@),
{
    serde_json::from_str::<serde_json::Value>(raw).ok()?.get(key)?.as_bool()
}

/// The alignment that the switch of the first versions stands for: off is `free`,
/// on, or no switch, is `auto`.
pub open spec fn align_of_switch(switch: Option<bool>) -> Seq<char> {
    if switch == Some(false) {
        "free"@
    } else {
        "auto"@
    }
}

/// The alignment that the switch of the first versions stands for.
pub fn migrated_align_mode(switch: Option<bool>) -> (r: &'static str)
    ensures
        r@ == align_of_switch(switch),
{
    match switch {
        Some(false) => "free",
        _ => "auto",
    }
}

/// The settings that a file yields: those it holds; where it holds none, those of a
/// first start, with the alignment of the old switch.
pub open spec fn settings_of(file: SettingsFile) -> SettingsView {
    match file {
        SettingsFile::Missing => initial_settings("auto"@),
        SettingsFile::Unreadable => initial_settings("auto"@),
        SettingsFile::Text { raw, parsed } => match parsed {
            Some(s) => s@,
            None => initial_settings(align_of_switch(json_bool(raw@, "auto_align"@))),
        },
    }
}

/// The settings that a file yields.
pub fn load_settings(file: SettingsFile) -> (r: Settings)
    requires
        file matches SettingsFile::Text { raw, parsed: Some(s) } ==> s.wf(),
    ensures
        r@ == settings_of(file),
        r.wf(),
{
    match file {
        SettingsFile::Missing => settings_with("auto"),
        SettingsFile::Unreadable => settings_with("auto"),
        SettingsFile::Text { raw, parsed } => match parsed {
            Some(s) => s,
            None => {
                let switch = json_bool_field(raw.as_str(), "auto_align");
                settings_with(migrated_align_mode(switch))
            },
        },
    }
}

// ---------------------------------------------------------------- kept values

/// Values read of the settings once. An empty text is one not read yet.
pub struct SettingsCache {
    pub align: String,
    pub render: String,
    pub desktop: String,
    pub z_guard: Option<bool>,
    pub show_chrome: bool,
}

/// The contents of a `SettingsCache`.
pub struct CacheView {
    pub align: Seq<char>,
    pub render: Seq<char>,
    pub desktop: Seq<char>,
    pub z_guard: Option<bool>,
    pub show_chrome: bool,
}

impl View for SettingsCache {
    type V = CacheView;

    open spec fn view(&self) -> CacheView {
        CacheView {
            align: self.align@,
            render: self.render@,
            desktop: self.desktop@,
            z_guard: self.z_guard,
            show_chrome: self.show_chrome,
        }
    }
}

impl SettingsCache {
    /// Nothing read yet.
    pub fn new() -> (r: Self)
        ensures
            r@ == (CacheView {
                align: Seq::empty(),
                render: Seq::empty(),
                desktop: Seq::empty(),
                z_guard: None,
                show_chrome: false,
            }),
    {
        SettingsCache {
            align: String::new(),
            render: String::new(),
            desktop: String::new(),
            z_guard: None,
            show_chrome: false,
        }
    }
}

/// The kept value, where there is one, else the stored value.
pub open spec fn kept_or(kept: Seq<char>, stored: Seq<char>) -> Seq<char> {
    if kept.len() > 0 {
        kept
    } else {
        stored
    }
}

fn kept_text(kept: &String, stored: &String) -> (r: String)
    ensures
        r@ == kept_or(kept@, stored@),
{
    if kept.as_str().is_empty() {
        stored.clone()
    } else {
        kept.clone()
    }
}

/// The alignment in effect.
pub fn align_mode(cache: &mut SettingsCache, stored: &Settings) -> (r: String)
    ensures
        r@ == kept_or(old(cache)@.align, stored@.align_mode),
        final(cache)@ == (CacheView { align: r@, ..old(cache)@ }),
{
    let m = kept_text(&cache.align, &stored.align_mode);
    cache.align = m.clone();
    m
}

/// Sets the alignment, in effect and stored.
pub fn set_align_mode_stored(cache: &mut SettingsCache, stored: &mut Settings, mode: &str)
    ensures
        final(cache)@ == (CacheView { align: mode@, ..old(cache)@ }),
        final(stored)@ == (SettingsView { align_mode: mode@, ..old(stored)@ }),
        final(stored).wf() == old(stored).wf(),
{
    cache.align = text::own(mode);
    stored.align_mode = text::own(mode);
}

/// Whether the alignment in effect is `auto`.
pub fn auto_align_on(cache: &mut SettingsCache, stored: &Settings) -> (r: bool)
    ensures
        r == (kept_or(old(cache)@.align, stored@.align_mode) == "auto"@),
        final(cache)@ == (CacheView {
            align: kept_or(old(cache)@.align, stored@.align_mode),
            ..old(cache)@
        }),
{
    text::same(align_mode(cache, stored).as_str(), "auto")
}

/// Whether the alignment in effect is `grid`.
pub fn grid_align_on(cache: &mut SettingsCache, stored: &Settings) -> (r: bool)
    ensures
        r == (kept_or(old(cache)@.align, stored@.align_mode) == "grid"@),
        final(cache)@ == (CacheView {
            align: kept_or(old(cache)@.align, stored@.align_mode),
            ..old(cache)@
        }),
{
    text::same(align_mode(cache, stored).as_str(), "grid")
}

/// The render mode in effect.
pub fn render_mode(cache: &mut SettingsCache, stored: &Settings) -> (r: String)
    ensures
        r@ == kept_or(old(cache)@.render, stored@.render_mode),
        final(cache)@ == (CacheView { render: r@, ..old(cache)@ }),
{
    let m = kept_text(&cache.render, &stored.render_mode);
    cache.render = m.clone();
    m
}

/// Sets the render mode, in effect and stored.
pub fn set_render_mode_stored(cache: &mut SettingsCache, stored: &mut Settings, mode: &str)
    ensures
        final(cache)@ == (CacheView { render: mode@, ..old(cache)@ }),
        final(stored)@ == (SettingsView { render_mode: mode@, ..old(stored)@ }),
        final(stored).wf() == old(stored).wf(),
{
    cache.render = text::own(mode);
    stored.render_mode = text::own(mode);
}

/// Whether the render mode in effect is `precise`.
pub fn precise_mode_on(cache: &mut SettingsCache, stored: &Settings) -> (r: bool)
    ensures
        r == (kept_or(old(cache)@.render, stored@.render_mode) == "precise"@),
        final(cache)@ == (CacheView {
            render: kept_or(old(cache)@.render, stored@.render_mode),
            ..old(cache)@
        }),
{
    text::same(render_mode(cache, stored).as_str(), "precise")
}

/// The desktop state in effect.
pub fn desktop_state(cache: &mut SettingsCache, stored: &Settings) -> (r: String)
    ensures
        r@ == kept_or(old(cache)@.desktop, stored@.desktop_state),
        final(cache)@ == (CacheView { desktop: r@, ..old(cache)@ }),
{
    let m = kept_text(&cache.desktop, &stored.desktop_state);
    cache.desktop = m.clone();
    m
}

/// Sets the desktop state, in effect and stored.
pub fn set_desktop_state_stored(cache: &mut SettingsCache, stored: &mut Settings, mode: &str)
    ensures
        final(cache)@ == (CacheView { desktop: mode@, ..old(cache)@ }),
        final(stored)@ == (SettingsView { desktop_state: mode@, ..old(stored)@ }),
        final(stored).wf() == old(stored).wf(),
{
    cache.desktop = text::own(mode);
    stored.desktop_state = text::own(mode);
}

/// Whether the place of the fences is defended; read once.
pub fn z_guard_setting(cache: &mut SettingsCache, stored: &Settings) -> (r: bool)
    ensures
        r == (match old(cache)@.z_guard {
            Some(v) => v,
            None => stored@.z_guard,
        }),
        final(cache)@ == (CacheView { z_guard: Some(r), ..old(cache)@ }),
{
    let v = match cache.z_guard {
        Some(v) => v,
        None => stored.z_guard,
    };
    cache.z_guard = Some(v);
    v
}

/// Whether the borders of fences are always drawn.
pub fn chrome_always_on(cache: &SettingsCache) -> (r: bool)
    ensures
        r == cache@.show_chrome,
{
    cache.show_chrome
}

/// Sets whether the borders of fences are always drawn, in effect and stored.
pub fn set_show_chrome_stored(cache: &mut SettingsCache, stored: &mut Settings, on: bool)
    ensures
        final(cache)@ == (CacheView { show_chrome: on, ..old(cache)@ }),
        final(stored)@ == (SettingsView { show_chrome: on, ..old(stored)@ }),
        final(stored).wf() == old(stored).wf(),
{
    cache.show_chrome = on;
    stored.show_chrome = on;
}

/// Stores whether categories are automatic.
pub fn set_auto_category_stored(
    reg: &mut crate::display::Registry,
    stored: &mut Settings,
    v: bool,
)
    ensures
        final(reg)@ == (crate::display::RegistryView { auto: v, ..old(reg)@ }),
        final(stored)@ == (SettingsView { auto_category: v, ..old(stored)@ }),
        final(stored).wf() == old(stored).wf(),
{
    crate::display::set_auto_category(reg, v);
    stored.auto_category = v;
}

/// Sets whether categories are automatic. False, with nothing changed, where it is so
/// already.
pub fn set_category_mode(
    reg: &mut crate::display::Registry,
    stored: &mut Settings,
    v: bool,
) -> (r: bool)
    ensures
        r == (old(reg)@.auto != v),
        final(reg)@ == (crate::display::RegistryView { auto: v, ..old(reg)@ }),
        final(stored)@ == (if r {
            SettingsView { auto_category: v, ..old(stored)@ }
        } else {
            old(stored)@
        }),
        final(stored).wf() == old(stored).wf(),
{
    if crate::display::auto_category(reg) == v {
        return false;
    }
    set_auto_category_stored(reg, stored, v);
    true
}

/// The stored language setting.
pub fn lang_setting_value(stored: &Settings) -> (r: String)
    ensures
        r@ == stored@.lang,
{
    stored.lang.clone()
}

/// Stores a language setting and puts the language it stands for into effect.
pub fn set_lang_stored(
    language: &mut crate::lang::Language,
    stored: &mut Settings,
    v: &str,
    system_zh: bool,
)
    ensures
        final(language)@ == crate::lang::resolved(v@, system_zh),
        final(stored)@ == (SettingsView { lang: v@, ..old(stored)@ }),
        final(stored).wf() == old(stored).wf(),
{
    crate::lang::set_effective(language, crate::lang::resolve(v, system_zh));
    stored.lang = text::own(v);
}

/// A mode that is stored is what is read, at once and after a restart, when nothing is
/// kept in memory.
pub proof fn law_stored_modes_are_read_back(c: CacheView, s: SettingsView, mode: Seq<char>)
    ensures
        ({
            let c2 = CacheView { align: mode, render: mode, desktop: mode, ..c };
            let s2 = SettingsView {
                align_mode: mode,
                render_mode: mode,
                desktop_state: mode,
                ..s
            };
            &&& kept_or(c2.align, s2.align_mode) == mode
            &&& kept_or(c2.render, s2.render_mode) == mode
            &&& kept_or(c2.desktop, s2.desktop_state) == mode
            &&& kept_or(Seq::empty(), s2.align_mode) == mode
            &&& kept_or(Seq::empty(), s2.render_mode) == mode
            &&& kept_or(Seq::empty(), s2.desktop_state) == mode
        }),
{
}

// ---------------------------------------------------------------- deleted categories

/// When the user deleted the fence of `cat`.
pub fn category_tombstone_at(stored: &Settings, cat: &str) -> (r: Option<u64>)
    requires
        stored.wf(),
    ensures
        r == (if stored@.deleted_category_at.contains_key(cat@) {
            Some(stored@.deleted_category_at[cat@])
        } else {
            None
        }),
{
    match stored.deleted_category_at.get(cat) {
        Some(t) => Some(*t),
        None => None,
    }
}

/// Notes that the fence of `cat` was deleted at `now`.
pub fn set_category_tombstone(stored: &mut Settings, cat: &str, now: u64)
    requires
        old(stored).wf(),
    ensures
        final(stored).wf(),
        final(stored)@ == (SettingsView {
            deleted_category_at: old(stored)@.deleted_category_at.insert(cat@, now),
            ..old(stored)@
        }),
{
    stored.deleted_category_at.insert(text::own(cat), now);
}

/// Forgets that the fence of `cat` was deleted, and returns whether it had been.
pub fn clear_category_tombstone(stored: &mut Settings, cat: &str) -> (r: bool)
    requires
        old(stored).wf(),
    ensures
        final(stored).wf(),
        final(stored)@ == (SettingsView {
            deleted_category_at: old(stored)@.deleted_category_at.remove(cat@),
            ..old(stored)@
        }),
        r == old(stored)@.deleted_category_at.contains_key(cat@),
{
    stored.deleted_category_at.remove(cat)
}

// ---------------------------------------------------------------- the table in effect

/// The category table in effect, once it has been read.
pub struct CategoryCache {
    pub table: Option<Vec<CategoryDef>>,
}

/// The category table in effect: the kept one, else the stored one.
pub open spec fn table_in_effect(cache: CategoryCache, stored: SettingsView) -> Seq<CategoryView> {
    match cache.table {
        Some(t) => model::table_view(t@),
        None => stored.categories,
    }
}

/// The category table in effect.
pub fn category_table(cache: &mut CategoryCache, stored: &Settings) -> (r: Vec<CategoryDef>)
    ensures
        model::table_view(r@) == table_in_effect(*old(cache), stored@),
        final(cache).table is Some,
        table_in_effect(*final(cache), stored@) == table_in_effect(*old(cache), stored@),
{
    let t = match cache.table.take() {
        Some(t) => t,
        None => model::copy_table(&stored.categories),
    };
    let r = model::copy_table(&t);
    cache.table = Some(t);
    r
}

/// Puts a category table into effect.
pub fn set_category_table(cache: &mut CategoryCache, t: Vec<CategoryDef>)
    ensures
        final(cache).table == Some(t),
{
    cache.table = Some(t);
}

/// The category of a name under the table in effect.
pub fn categorize(cache: &mut CategoryCache, stored: &Settings, name: &str, is_dir: bool) -> (r:
    String)
    ensures
        r@ == model::category_of(table_in_effect(*old(cache), stored@), name@, is_dir),
        table_in_effect(*final(cache), stored@) == table_in_effect(*old(cache), stored@),
{
    let t = category_table(cache, stored);
    model::categorize_with(&t, name, is_dir)
}

/// At a first start the fences line up by themselves, are drawn precisely and hold the
/// files of the built-in categories, the place of the fences is defended, and the
/// introduction is still to be shown. A switch of the first versions that is off frees the
/// fences.
pub proof fn law_first_start(raw: String)
    ensures
        ({
            let s = settings_of(SettingsFile::Missing);
            let t = settings_of(SettingsFile::Text { raw, parsed: None });
            &&& s == settings_of(SettingsFile::Unreadable)
            &&& s.align_mode == "auto"@
            &&& s.render_mode == "precise"@
            &&& s.auto_category
            &&& s.desktop_state == "normal"@
            &&& s.z_guard
            &&& !s.show_chrome
            &&& s.deleted_category_at == Map::<Seq<char>, u64>::empty()
            &&& s.categories == model::builtin_categories()
            &&& s.lang == "auto"@
            &&& !s.first_run_done
            &&& t == (SettingsView { align_mode: t.align_mode, ..s })
            &&& json_bool(raw@, "auto_align"@) == Some(false) ==> t.align_mode == "free"@
            &&& json_bool(raw@, "auto_align"@) != Some(false) ==> t.align_mode == "auto"@
        }),
{
}

/// Settings that were stored are the ones that are read.
pub proof fn law_stored_settings_are_read(raw: String, s: Settings)
    ensures
        settings_of(SettingsFile::Text { raw, parsed: Some(s) }) == s@,
{
}

/// A value that is kept in memory is in effect, and else the stored one.
pub proof fn law_kept_values_come_first(kept: Seq<char>, stored: Seq<char>)
    ensures
        kept.len() > 0 ==> kept_or(kept, stored) == kept,
        kept.len() == 0 ==> kept_or(kept, stored) == stored,
{
}

/// The category table in effect is the one that was put into effect, and before that the
/// stored one.
pub proof fn law_table_in_effect(cache: CategoryCache, t: Vec<CategoryDef>, stored: SettingsView)
    ensures
        cache.table is None ==> table_in_effect(cache, stored) == stored.categories,
        cache.table == Some(t) ==> table_in_effect(cache, stored) == model::table_view(t@),
{
}

} // verus!

//! The menus: what they hold, and what each of their commands means.
use crate::lang;
use crate::lang::Lang;
use crate::model;
use crate::model::{CategoryDef, CategoryView, Fence, FenceView};
use crate::text;
use vstd::prelude::*;

verus! {

// ---------------------------------------------------------------- commands

pub const MENU_ADD_FENCE: u32 = 0x5101;

pub const MENU_RENAME: u32 = 0x5102;

pub const MENU_TOGGLE_COLLAPSE: u32 = 0x5103;

pub const MENU_LOCK: u32 = 0x5104;

pub const MENU_DELETE_FENCE: u32 = 0x5105;

pub const MENU_REFRESH: u32 = 0x5106;

pub const MENU_HIDE_ALL: u32 = 0x5107;

pub const MENU_SHOW_ALL: u32 = 0x5108;

pub const MENU_QUIT: u32 = 0x5109;

pub const MENU_RESET_LAYOUT: u32 = 0x510A;

pub const MENU_TOGGLE_DESKTOP_ICONS: u32 = 0x510B;

pub const MENU_AUTO_ALIGN: u32 = 0x510C;

pub const MENU_UNDO: u32 = 0x510D;

pub const MENU_AUTOSTART: u32 = 0x510E;

pub const MENU_RESTORE_DESKTOP: u32 = 0x510F;

pub const MENU_SORT_FREQ: u32 = 0x5110;

pub const MENU_SORT_TIME: u32 = 0x5111;

pub const MENU_SORT_NAME: u32 = 0x5112;

pub const MENU_SORT_MANUAL: u32 = 0x5113;

pub const MENU_ALIGN_GRID: u32 = 0x5114;

pub const MENU_ALIGN_FREE: u32 = 0x5115;

pub const MENU_RENDER_TRANSPARENT: u32 = 0x5116;

pub const MENU_RENDER_PRECISE: u32 = 0x5117;

pub const MENU_AUTO_CATEGORY: u32 = 0x5118;

pub const MENU_TOGGLE_CHROME: u32 = 0x511A;

pub const MENU_CATS_BASE: u32 = 0x5120;

pub const MENU_CATS_ADD: u32 = 0x5130;

pub const MENU_CHECK_UPDATE: u32 = 0x5131;

pub const MENU_MODE_CUSTOM: u32 = 0x5133;

pub const MENU_LANG_AUTO: u32 = 0x5134;

pub const MENU_LANG_ZH: u32 = 0x5135;

pub const MENU_LANG_EN: u32 = 0x5136;

/// The first and the last number of a command of the system's own menus.
pub const CMD_FIRST: u32 = 1;

pub const CMD_LAST: u32 = 0x5FFF;

pub const DL_CMD_ADD_FENCE: u32 = 0x6001;

pub const DL_CMD_SHOW_ALL: u32 = 0x6002;

pub const DL_CMD_HIDE_ALL: u32 = 0x6003;

pub const DL_CMD_UNDO: u32 = 0x6004;

pub const DL_CMD_AUTO_ALIGN: u32 = 0x6005;

pub const DL_CMD_REFRESH: u32 = 0x6006;

pub const DL_CMD_QUIT: u32 = 0x6007;

pub const DL_ITEM_RENAME_ID: u32 = 0x6008;

pub const DL_CMD_RENDER_MODE: u32 = 0x6009;

pub const F_OPEN: u32 = 1;

pub const F_OPENWITH: u32 = 2;

pub const F_LOCATE: u32 = 3;

pub const F_RENAME: u32 = 4;

pub const F_DELETE: u32 = 5;

pub const F_PROPERTIES: u32 = 6;

pub const F_COPY: u32 = 7;

/// The category that a command of the tray menu stands for, by its place in the table.
pub open spec fn category_command(id: u32) -> Option<usize> {
    if MENU_CATS_BASE <= id < MENU_CATS_ADD {
        Some((id - MENU_CATS_BASE) as usize)
    } else {
        None
    }
}

/// The category that a command of the tray menu stands for.
pub fn cats_menu_index(id: u32) -> (r: Option<usize>)
    ensures
        r == category_command(id),
{
    if MENU_CATS_BASE <= id && id < MENU_CATS_ADD {
        Some((id - MENU_CATS_BASE) as usize)
    } else {
        None
    }
}

// ---------------------------------------------------------------- modes

/// The mode after `mode`: automatic, grid, free, and round again.
pub open spec fn align_after(mode: Seq<char>) -> Seq<char> {
    if mode == "auto"@ {
        "grid"@
    } else if mode == "grid"@ {
        "free"@
    } else {
        "auto"@
    }
}

/// The mode after `cur`.
pub fn next_align_mode(cur: &str) -> (r: &'static str)
    ensures
        r@ == align_after(cur@),
{
    if text::same(cur, "auto") {
        "grid"
    } else if text::same(cur, "grid") {
        "free"
    } else {
        "auto"
    }
}

/// The other way to draw.
pub open spec fn render_after(mode: Seq<char>) -> Seq<char> {
    if mode == "precise"@ {
        "transparent"@
    } else {
        "precise"@
    }
}

/// The other way to draw.
pub fn next_render_mode(cur: &str) -> (r: &'static str)
    ensures
        r@ == render_after(cur@),
{
    if text::same(cur, "precise") {
        "transparent"
    } else {
        "precise"
    }
}

/// The modes go round: three steps lead through all three, from whatever mode, and
/// back to a mode that is one of them.
pub proof fn law_align_modes_go_round(mode: Seq<char>)
    ensures
        ({
            let a = align_after(mode);
            let b = align_after(a);
            let c = align_after(b);
            &&& align_after(c) == a
            &&& a != b && b != c && a != c
            &&& mode == "auto"@ || mode == "grid"@ || mode == "free"@ ==> c == mode
        }),
{
    reveal_strlit("auto");
    reveal_strlit("grid");
    reveal_strlit("free");
    assert("auto"@[0] == 'a');
    assert("grid"@[0] == 'g');
    assert("free"@[0] == 'f');
}

/// The ways to draw alternate: a step always changes the way, and two steps lead back
/// to a way that is one of the two.
pub proof fn law_render_modes_alternate(mode: Seq<char>)
    ensures
        render_after(mode) != mode,
        mode == "precise"@ || mode == "transparent"@ ==> render_after(render_after(mode)) == mode,
        render_after(render_after(render_after(mode))) == render_after(mode),
{
    reveal_strlit("precise");
    reveal_strlit("transparent");
    assert("precise"@[0] == 'p');
    assert("transparent"@[0] == 't');
}

// ---------------------------------------------------------------- entries

/// An entry without a menu of its own.
pub enum MenuItem {
    Command { id: u32, label: String, checked: bool },
    Separator,
}

/// An entry of a menu.
pub enum MenuEntry {
    Item(MenuItem),
    Submenu { label: String, checked: bool, items: Vec<MenuItem> },
}

/// The contents of a `MenuItem`.
pub enum ItemView {
    Command { id: u32, label: Seq<char>, checked: bool },
    Separator,
}

/// The contents of a `MenuEntry`.
pub enum EntryView {
    Item(ItemView),
    Submenu { label: Seq<char>, checked: bool, items: Seq<ItemView> },
}

impl View for MenuItem {
    type V = ItemView;

    open spec fn view(&self) -> ItemView {
        match self {
            MenuItem::Command { id, label, checked } => ItemView::Command {
                id: *id,
                label: label@,
                checked: *checked,
            },
            MenuItem::Separator => ItemView::Separator,
        }
    }
}

/// The contents of a list of items.
pub open spec fn item_views(v: Seq<MenuItem>) -> Seq<ItemView> {
    Seq::new(v.len(), |i: int| v[i]@)
}

impl View for MenuEntry {
    type V = EntryView;

    open spec fn view(&self) -> EntryView {
        match self {
            MenuEntry::Item(i) => EntryView::Item(i@),
            MenuEntry::Submenu { label, checked, items } => EntryView::Submenu {
                label: label@,
                checked: *checked,
                items: item_views(items@),
            },
        }
    }
}

/// The contents of a menu.
pub open spec fn menu_views(v: Seq<MenuEntry>) -> Seq<EntryView> {
    Seq::new(v.len(), |i: int| v[i]@)
}

/// A command.
pub open spec fn command(id: u32, label: Seq<char>, checked: bool) -> ItemView {
    ItemView::Command { id, label, checked }
}

/// A command, as an entry.
pub open spec fn top(id: u32, label: Seq<char>, checked: bool) -> EntryView {
    EntryView::Item(command(id, label, checked))
}

/// A separator, as an entry.
pub open spec fn rule() -> EntryView {
    EntryView::Item(ItemView::Separator)
}

fn add_item(v: &mut Vec<MenuItem>, id: u32, label: &str, checked: bool)
    ensures
        item_views(final(v)@) == item_views(old(v)@).push(command(id, label@, checked)),
{
    let ghost was = v@;
    v.push(MenuItem::Command { id, label: text::own(label), checked });
    assert(item_views(v@) =~= item_views(was).push(command(id, label@, checked)));
}

fn add_item_rule(v: &mut Vec<MenuItem>)
    ensures
        item_views(final(v)@) == item_views(old(v)@).push(ItemView::Separator),
{
    let ghost was = v@;
    v.push(MenuItem::Separator);
    assert(item_views(v@) =~= item_views(was).push(ItemView::Separator));
}

fn no_items() -> (r: Vec<MenuItem>)
    ensures
        item_views(r@) == Seq::<ItemView>::empty(),
{
    let v: Vec<MenuItem> = Vec::new();
    assert(item_views(v@) =~= Seq::empty());
    v
}

fn add_top(v: &mut Vec<MenuEntry>, id: u32, label: &str, checked: bool)
    ensures
        menu_views(final(v)@) == menu_views(old(v)@).push(top(id, label@, checked)),
{
    let ghost was = v@;
    v.push(MenuEntry::Item(MenuItem::Command { id, label: text::own(label), checked }));
    assert(menu_views(v@) =~= menu_views(was).push(top(id, label@, checked)));
}

fn add_rule(v: &mut Vec<MenuEntry>)
    ensures
        menu_views(final(v)@) == menu_views(old(v)@).push(rule()),
{
    let ghost was = v@;
    v.push(MenuEntry::Item(MenuItem::Separator));
    assert(menu_views(v@) =~= menu_views(was).push(rule()));
}

fn add_submenu(v: &mut Vec<MenuEntry>, label: &str, checked: bool, items: Vec<MenuItem>)
    ensures
        menu_views(final(v)@) == menu_views(old(v)@).push(
            EntryView::Submenu { label: label@, checked, items: item_views(items@) },
        ),
{
    let ghost was = v@;
    let ghost shown = item_views(items@);
    v.push(MenuEntry::Submenu { label: text::own(label), checked, items });
    assert(menu_views(v@) =~= menu_views(was).push(
        EntryView::Submenu { label: label@, checked, items: shown },
    ));
}

fn no_entries() -> (r: Vec<MenuEntry>)
    ensures
        menu_views(r@) == Seq::<EntryView>::empty(),
{
    let v: Vec<MenuEntry> = Vec::new();
    assert(menu_views(v@) =~= Seq::empty());
    v
}

/// Whether all fences are hidden.
pub fn all_hidden(fences: &Vec<Fence>) -> (r: bool)
    ensures
        r == (forall|i: int| 0 <= i < fences@.len() ==> (#[trigger] fences@[i]).hidden),
{
    let mut i: usize = 0;
    while i < fences.len()
        invariant
            i <= fences.len(),
            forall|j: int| 0 <= j < i ==> (#[trigger] fences@[j]).hidden,
        decreases fences.len() - i,
    {
        if !fences[i].hidden {
            return false;
        }
        i = i + 1;
    }
    true
}

// ---------------------------------------------------------------- the tray menu

/// What the tray menu depends on.
#[derive(Clone, Copy)]
pub struct TrayState {
    pub all_hidden: bool,
    pub icons_hidden: bool,
    pub auto_category: bool,
    pub show_chrome: bool,
    pub autostart: bool,
}

/// The ways to line the fences up; the chosen one is checked.
pub open spec fn align_items(mode: Seq<char>, l: Lang) -> Seq<ItemView> {
    seq![
        command(MENU_AUTO_ALIGN, lang::pick(l, "自动对齐(固定间隔)"@, "Auto align (fixed spacing)"@), mode == "auto"@),
        command(MENU_ALIGN_GRID, lang::pick(l, "网格对齐(图标格倍数)"@, "Snap to icon grid"@), mode == "grid"@),
        command(MENU_ALIGN_FREE, lang::pick(l, "自由移动(不受限)"@, "Free move (unrestricted)"@), mode == "free"@),
    ]
}

fn align_choice(mode: &str, l: Lang) -> (r: Vec<MenuItem>)
    ensures
        item_views(r@) == align_items(mode@, l),
{
    let mut v = no_items();
    add_item(&mut v, MENU_AUTO_ALIGN, lang::align_auto(l), text::same(mode, "auto"));
    add_item(&mut v, MENU_ALIGN_GRID, lang::align_grid(l), text::same(mode, "grid"));
    add_item(&mut v, MENU_ALIGN_FREE, lang::align_free(l), text::same(mode, "free"));
    assert(item_views(v@) =~= align_items(mode@, l));
    v
}

/// The ways to draw.
pub open spec fn render_items(mode: Seq<char>, l: Lang) -> Seq<ItemView> {
    seq![
        command(MENU_RENDER_PRECISE, lang::pick(l, "精确(与原生逐像素一致)"@, "Precise (pixel-identical to native)"@), mode == "precise"@),
        command(MENU_RENDER_TRANSPARENT, lang::pick(l, "透明(兜底:动态壁纸不兼容时)"@, "Transparent (fallback: dynamic wallpapers)"@), mode == "transparent"@),
    ]
}

fn render_choice(mode: &str, l: Lang) -> (r: Vec<MenuItem>)
    ensures
        item_views(r@) == render_items(mode@, l),
{
    let mut v = no_items();
    add_item(&mut v, MENU_RENDER_PRECISE, lang::render_precise(l), text::same(mode, "precise"));
    add_item(&mut v, MENU_RENDER_TRANSPARENT, lang::render_transparent(l), text::same(mode, "transparent"));
    assert(item_views(v@) =~= render_items(mode@, l));
    v
}

/// The languages.
pub open spec fn lang_items(code: Seq<char>, l: Lang) -> Seq<ItemView> {
    seq![
        command(MENU_LANG_AUTO, lang::pick(l, "跟随系统"@, "System default"@), code == "auto"@),
        command(MENU_LANG_ZH, lang::pick(l, "中文"@, "中文"@), code == "zh"@),
        command(MENU_LANG_EN, lang::pick(l, "English"@, "English"@), code == "en"@),
    ]
}

fn lang_choice(code: &str, l: Lang) -> (r: Vec<MenuItem>)
    ensures
        item_views(r@) == lang_items(code@, l),
{
    let mut v = no_items();
    add_item(&mut v, MENU_LANG_AUTO, lang::lang_auto(l), text::same(code, "auto"));
    add_item(&mut v, MENU_LANG_ZH, lang::lang_zh(l), text::same(code, "zh"));
    add_item(&mut v, MENU_LANG_EN, lang::lang_en(l), text::same(code, "en"));
    assert(item_views(v@) =~= lang_items(code@, l));
    v
}

/// The orders of a fence.
pub open spec fn sort_items(mode: Seq<char>, l: Lang) -> Seq<ItemView> {
    seq![
        command(MENU_SORT_FREQ, lang::pick(l, "常用(默认)"@, "Most used (default)"@), mode == "常用"@),
        command(MENU_SORT_TIME, lang::pick(l, "时间(最近修改)"@, "Recently modified"@), mode == "时间"@),
        command(MENU_SORT_NAME, lang::pick(l, "名称"@, "Name"@), mode == "名称"@),
        command(MENU_SORT_MANUAL, lang::pick(l, "手动(拖拽自定义)"@, "Manual (drag to arrange)"@), mode == "手动"@),
    ]
}

fn sort_choice(mode: &str, l: Lang) -> (r: Vec<MenuItem>)
    ensures
        item_views(r@) == sort_items(mode@, l),
{
    let mut v = no_items();
    add_item(&mut v, MENU_SORT_FREQ, lang::sort_freq(l), text::same(mode, "常用"));
    add_item(&mut v, MENU_SORT_TIME, lang::sort_time(l), text::same(mode, "时间"));
    add_item(&mut v, MENU_SORT_NAME, lang::sort_name(l), text::same(mode, "名称"));
    add_item(&mut v, MENU_SORT_MANUAL, lang::sort_manual(l), text::same(mode, "手动"));
    assert(item_views(v@) =~= sort_items(mode@, l));
    v
}

/// The label of a category: indented, and the one for everything else is marked.
pub open spec fn category_label(name: Seq<char>, l: Lang) -> Seq<char> {
    "\u{3000}"@ + if name == model::FALLBACK_CATEGORY@ {
        name + lang::pick(l, "(兜底)"@, " (fallback)"@)
    } else {
        name
    }
}

/// The number of categories that the menu lists: at most sixteen.
pub open spec fn listed(table: Seq<CategoryView>) -> int {
    if table.len() < MENU_CATS_ADD - MENU_CATS_BASE {
        table.len() as int
    } else {
        MENU_CATS_ADD - MENU_CATS_BASE
    }
}

/// The categories, each a command.
pub open spec fn category_items(table: Seq<CategoryView>, l: Lang) -> Seq<ItemView> {
    Seq::new(
        listed(table) as nat,
        |i: int|
            command((MENU_CATS_BASE + i) as u32, category_label(table[i].name, l), false),
    )
}

/// The menu of the categories: by hand or by kind, the categories, and a new one.
pub open spec fn categories_menu(auto: bool, table: Seq<CategoryView>, l: Lang) -> Seq<ItemView> {
    seq![
        command(MENU_MODE_CUSTOM, lang::pick(l, "自定义(拖入归类)"@, "Custom (drag to assign)"@), !auto),
        ItemView::Separator,
        command(MENU_AUTO_CATEGORY, lang::pick(l, "自动分类(按类型归类)"@, "Auto sort by type"@), auto),
    ] + category_items(table, l) + seq![
        ItemView::Separator,
        command(MENU_CATS_ADD, "\u{3000}"@ + lang::pick(l, "新增分类…"@, "New category…"@), false),
    ]
}

fn label_of(name: &str, l: Lang) -> (r: String)
    ensures
        r@ == category_label(name@, l),
{
    if text::same(name, model::FALLBACK_CATEGORY) {
        let marked = text::join2(name, lang::fallback_suffix(l));
        text::join2("\u{3000}", marked.as_str())
    } else {
        text::join2("\u{3000}", name)
    }
}

fn categories_choice(auto: bool, table: &Vec<CategoryDef>, l: Lang) -> (r: Vec<MenuItem>)
    ensures
        item_views(r@) == categories_menu(auto, model::table_view(table@), l),
{
    let ghost t = model::table_view(table@);
    let mut v = no_items();
    add_item(&mut v, MENU_MODE_CUSTOM, lang::mode_custom(l), !auto);
    add_item_rule(&mut v);
    add_item(&mut v, MENU_AUTO_CATEGORY, lang::mode_auto_category(l), auto);
    let ghost head = item_views(v@);
    let limit: usize = (MENU_CATS_ADD - MENU_CATS_BASE) as usize;
    let shown: usize = if table.len() < limit {
        table.len()
    } else {
        limit
    };
    let mut i: usize = 0;
    assert(head + category_items(t, l).take(0) =~= head);
    while i < shown
        invariant
            i <= shown <= table.len(),
            shown <= MENU_CATS_ADD - MENU_CATS_BASE,
            t == model::table_view(table@),
            shown == listed(t),
            item_views(v@) == head + category_items(t, l).take(i as int),
        decreases shown - i,
    {
        let label = label_of(table[i].name.as_str(), l);
        add_item(&mut v, MENU_CATS_BASE + i as u32, label.as_str(), false);
        assert(category_items(t, l).take(i + 1) =~= category_items(t, l).take(i as int).push(
            command((MENU_CATS_BASE + i) as u32, label@, false),
        ));
        assert(item_views(v@) =~= head + category_items(t, l).take(i + 1));
        i = i + 1;
    }
    assert(category_items(t, l).take(shown as int) =~= category_items(t, l));
    add_item_rule(&mut v);
    let add = text::join2("\u{3000}", lang::add_category_item(l));
    add_item(&mut v, MENU_CATS_ADD, add.as_str(), false);
    assert(item_views(v@) =~= categories_menu(auto, t, l));
    v
}

/// The label of the command that looks for a new version.
pub open spec fn update_label(version: Seq<char>, l: Lang) -> Seq<char> {
    lang::pick(l, "检查更新"@, "Check for updates"@) + " (v"@ + version + ")"@
}

/// The tray menu. With the fences hidden and the system's icons shown it leads back
/// to the fences, else to the system's icons.
pub open spec fn tray_entries(
    s: TrayState,
    align: Seq<char>,
    render: Seq<char>,
    table: Seq<CategoryView>,
    code: Seq<char>,
    version: Seq<char>,
    l: Lang,
) -> Seq<EntryView> {
    seq![
        if s.all_hidden {
            top(MENU_SHOW_ALL, lang::pick(l, "显示全部栅栏"@, "Show all fences"@), false)
        } else {
            top(MENU_HIDE_ALL, lang::pick(l, "隐藏全部栅栏"@, "Hide all fences"@), false)
        },
        rule(),
        top(MENU_UNDO, lang::pick(l, "撤销上次布局调整"@, "Undo last layout change"@), false),
        top(MENU_RESET_LAYOUT, lang::pick(l, "恢复默认布局"@, "Restore default layout"@), false),
        rule(),
        top(
            MENU_TOGGLE_DESKTOP_ICONS,
            if s.icons_hidden {
                lang::pick(l, "显示桌面图标"@, "Show desktop icons"@)
            } else {
                lang::pick(l, "隐藏桌面图标"@, "Hide desktop icons"@)
            },
            false,
        ),
        if s.all_hidden && !s.icons_hidden {
            top(MENU_SHOW_ALL, lang::pick(l, "恢复栅栏桌面"@, "Restore fence desktop"@), false)
        } else {
            top(MENU_RESTORE_DESKTOP, lang::pick(l, "恢复原始桌面"@, "Restore original desktop"@), false)
        },
        EntryView::Submenu {
            label: lang::pick(l, "对齐方式"@, "Alignment"@),
            checked: false,
            items: align_items(align, l),
        },
        EntryView::Submenu {
            label: lang::pick(l, "渲染模式"@, "Render mode"@),
            checked: false,
            items: render_items(render, l),
        },
        EntryView::Submenu {
            label: lang::pick(l, "自动分类"@, "Auto sort"@),
            checked: s.auto_category,
            items: categories_menu(s.auto_category, table, l),
        },
        top(MENU_TOGGLE_CHROME, lang::pick(l, "显示栅栏边框线"@, "Always show fence borders"@), s.show_chrome),
        top(MENU_CHECK_UPDATE, update_label(version, l), false),
        top(MENU_AUTOSTART, lang::pick(l, "开机自启"@, "Start with Windows"@), s.autostart),
        EntryView::Submenu {
            label: lang::pick(l, "语言"@, "Language"@),
            checked: false,
            items: lang_items(code, l),
        },
        rule(),
        top(MENU_QUIT, lang::pick(l, "退出"@, "Exit"@), false),
    ]
}

/// The tray menu for the chosen modes, the categories and the language setting
/// `code`.
pub fn show_tray_menu(
    s: TrayState,
    align: &str,
    render: &str,
    table: &Vec<CategoryDef>,
    code: &str,
    version: &str,
    l: Lang,
) -> (r: Vec<MenuEntry>)
    ensures
        menu_views(r@) == tray_entries(
            s,
            align@,
            render@,
            model::table_view(table@),
            code@,
            version@,
            l,
        ),
{
    let mut v = no_entries();
    if s.all_hidden {
        add_top(&mut v, MENU_SHOW_ALL, lang::tray_show_all(l), false);
    } else {
        add_top(&mut v, MENU_HIDE_ALL, lang::tray_hide_all(l), false);
    }
    add_rule(&mut v);
    add_top(&mut v, MENU_UNDO, lang::undo_layout(l), false);
    add_top(&mut v, MENU_RESET_LAYOUT, lang::reset_layout(l), false);
    add_rule(&mut v);
    let icons = if s.icons_hidden {
        lang::show_desktop_icons(l)
    } else {
        lang::hide_desktop_icons(l)
    };
    add_top(&mut v, MENU_TOGGLE_DESKTOP_ICONS, icons, false);
    if s.all_hidden && !s.icons_hidden {
        add_top(&mut v, MENU_SHOW_ALL, lang::restore_fence_desktop(l), false);
    } else {
        add_top(&mut v, MENU_RESTORE_DESKTOP, lang::restore_native_desktop(l), false);
    }
    add_submenu(&mut v, lang::align_submenu(l), false, align_choice(align, l));
    add_submenu(&mut v, lang::render_submenu(l), false, render_choice(render, l));
    add_submenu(
        &mut v,
        lang::auto_cat_submenu(l),
        s.auto_category,
        categories_choice(s.auto_category, table, l),
    );
    add_top(&mut v, MENU_TOGGLE_CHROME, lang::toggle_chrome(l), s.show_chrome);
    let named = text::join2(lang::check_update(l), " (v");
    let numbered = text::join2(named.as_str(), version);
    let update = text::join2(numbered.as_str(), ")");
    add_top(&mut v, MENU_CHECK_UPDATE, update.as_str(), false);
    add_top(&mut v, MENU_AUTOSTART, lang::autostart(l), s.autostart);
    add_submenu(&mut v, lang::lang_submenu(l), false, lang_choice(code, l));
    add_rule(&mut v);
    add_top(&mut v, MENU_QUIT, lang::quit(l), false);
    assert(menu_views(v@) =~= tray_entries(
        s,
        align@,
        render@,
        model::table_view(table@),
        code@,
        version@,
        l,
    ));
    v
}

/// What a command of the tray menu means.
#[derive(Clone, Copy, PartialEq, Eq, Structural)]
pub enum TrayAction {
    ShowAll,
    HideAll,
    Undo,
    ResetLayout,
    ToggleDesktopIcons,
    RestoreDesktop,
    Align(Align),
    Render(Render),
    /// Files are sorted by their kind, or by hand.
    CategoryMode(bool),
    AddCategory,
    EditCategory(usize),
    ToggleChrome,
    CheckUpdate,
    ToggleAutostart,
    Language(LangSetting),
    Quit,
    Unknown,
}

/// The ways to line the fences up.
#[derive(Clone, Copy, PartialEq, Eq, Structural)]
pub enum Align {
    Auto,
    Grid,
    Free,
}

/// The ways to draw.
#[derive(Clone, Copy, PartialEq, Eq, Structural)]
pub enum Render {
    Precise,
    Transparent,
}

/// The settings of the language.
#[derive(Clone, Copy, PartialEq, Eq, Structural)]
pub enum LangSetting {
    Auto,
    Zh,
    En,
}

/// The name under which a way to line up is stored.
pub fn align_name(a: Align) -> (r: &'static str)
    ensures
        r@ == (match a {
            Align::Auto => "auto"@,
            Align::Grid => "grid"@,
            Align::Free => "free"@,
        }),
{
    match a {
        Align::Auto => "auto",
        Align::Grid => "grid",
        Align::Free => "free",
    }
}

/// The name under which a way to draw is stored.
pub fn render_name(a: Render) -> (r: &'static str)
    ensures
        r@ == (match a {
            Render::Precise => "precise"@,
            Render::Transparent => "transparent"@,
        }),
{
    match a {
        Render::Precise => "precise",
        Render::Transparent => "transparent",
    }
}

/// The name under which a setting of the language is stored.
pub fn lang_name(a: LangSetting) -> (r: &'static str)
    ensures
        r@ == (match a {
            LangSetting::Auto => "auto"@,
            LangSetting::Zh => "zh"@,
            LangSetting::En => "en"@,
        }),
{
    match a {
        LangSetting::Auto => "auto",
        LangSetting::Zh => "zh",
        LangSetting::En => "en",
    }
}

/// What a command of the tray menu means.
pub open spec fn tray_action(id: u32) -> TrayAction {
    if id == MENU_SHOW_ALL {
        TrayAction::ShowAll
    } else if id == MENU_HIDE_ALL {
        TrayAction::HideAll
    } else if id == MENU_UNDO {
        TrayAction::Undo
    } else if id == MENU_RESET_LAYOUT {
        TrayAction::ResetLayout
    } else if id == MENU_TOGGLE_DESKTOP_ICONS {
        TrayAction::ToggleDesktopIcons
    } else if id == MENU_RESTORE_DESKTOP {
        TrayAction::RestoreDesktop
    } else if id == MENU_AUTO_ALIGN {
        TrayAction::Align(Align::Auto)
    } else if id == MENU_ALIGN_GRID {
        TrayAction::Align(Align::Grid)
    } else if id == MENU_ALIGN_FREE {
        TrayAction::Align(Align::Free)
    } else if id == MENU_RENDER_TRANSPARENT {
        TrayAction::Render(Render::Transparent)
    } else if id == MENU_RENDER_PRECISE {
        TrayAction::Render(Render::Precise)
    } else if id == MENU_AUTO_CATEGORY {
        TrayAction::CategoryMode(true)
    } else if id == MENU_MODE_CUSTOM {
        TrayAction::CategoryMode(false)
    } else if id == MENU_CATS_ADD {
        TrayAction::AddCategory
    } else if id == MENU_TOGGLE_CHROME {
        TrayAction::ToggleChrome
    } else if id == MENU_CHECK_UPDATE {
        TrayAction::CheckUpdate
    } else if id == MENU_AUTOSTART {
        TrayAction::ToggleAutostart
    } else if id == MENU_LANG_AUTO {
        TrayAction::Language(LangSetting::Auto)
    } else if id == MENU_LANG_ZH {
        TrayAction::Language(LangSetting::Zh)
    } else if id == MENU_LANG_EN {
        TrayAction::Language(LangSetting::En)
    } else if id == MENU_QUIT {
        TrayAction::Quit
    } else {
        match category_command(id) {
            Some(i) => TrayAction::EditCategory(i),
            None => TrayAction::Unknown,
        }
    }
}

/// What a command of the tray menu means.
pub fn dispatch_tray_command(id: u32) -> (r: TrayAction)
    ensures
        r == tray_action(id),
{
    if id == MENU_SHOW_ALL {
        TrayAction::ShowAll
    } else if id == MENU_HIDE_ALL {
        TrayAction::HideAll
    } else if id == MENU_UNDO {
        TrayAction::Undo
    } else if id == MENU_RESET_LAYOUT {
        TrayAction::ResetLayout
    } else if id == MENU_TOGGLE_DESKTOP_ICONS {
        TrayAction::ToggleDesktopIcons
    } else if id == MENU_RESTORE_DESKTOP {
        TrayAction::RestoreDesktop
    } else if id == MENU_AUTO_ALIGN {
        TrayAction::Align(Align::Auto)
    } else if id == MENU_ALIGN_GRID {
        TrayAction::Align(Align::Grid)
    } else if id == MENU_ALIGN_FREE {
        TrayAction::Align(Align::Free)
    } else if id == MENU_RENDER_TRANSPARENT {
        TrayAction::Render(Render::Transparent)
    } else if id == MENU_RENDER_PRECISE {
        TrayAction::Render(Render::Precise)
    } else if id == MENU_AUTO_CATEGORY {
        TrayAction::CategoryMode(true)
    } else if id == MENU_MODE_CUSTOM {
        TrayAction::CategoryMode(false)
    } else if id == MENU_CATS_ADD {
        TrayAction::AddCategory
    } else if id == MENU_TOGGLE_CHROME {
        TrayAction::ToggleChrome
    } else if id == MENU_CHECK_UPDATE {
        TrayAction::CheckUpdate
    } else if id == MENU_AUTOSTART {
        TrayAction::ToggleAutostart
    } else if id == MENU_LANG_AUTO {
        TrayAction::Language(LangSetting::Auto)
    } else if id == MENU_LANG_ZH {
        TrayAction::Language(LangSetting::Zh)
    } else if id == MENU_LANG_EN {
        TrayAction::Language(LangSetting::En)
    } else if id == MENU_QUIT {
        TrayAction::Quit
    } else {
        match cats_menu_index(id) {
            Some(i) => TrayAction::EditCategory(i),
            None => TrayAction::Unknown,
        }
    }
}

/// The state of the desktop that a command is to be remembered by, where it changes
/// it: hiding the fences leaves the bare wallpaper, and showing them ends that.
pub fn desktop_state_after(a: TrayAction) -> (r: Option<&'static str>)
    ensures
        match a {
            TrayAction::ShowAll => r is Some && r->0@ == "normal"@,
            TrayAction::HideAll => r is Some && r->0@ == "zen"@,
            _ => r is None,
        },
{
    match a {
        TrayAction::ShowAll => Some("normal"),
        TrayAction::HideAll => Some("zen"),
        _ => None,
    }
}

// ---------------------------------------------------------------- a fence's menu

/// The menu of a fence.
pub open spec fn fence_entries(f: FenceView, l: Lang) -> Seq<EntryView> {
    seq![
        top(MENU_ADD_FENCE, lang::pick(l, "新建栅栏"@, "New fence"@), false),
        top(MENU_RENAME, lang::pick(l, "重命名"@, "Rename"@), false),
        top(
            MENU_TOGGLE_COLLAPSE,
            if f.collapsed {
                lang::pick(l, "展开"@, "Expand"@)
            } else {
                lang::pick(l, "折叠"@, "Collapse"@)
            },
            false,
        ),
        top(
            MENU_LOCK,
            if f.locked {
                lang::pick(l, "解除锁定位置与大小"@, "Unlock position & size"@)
            } else {
                lang::pick(l, "锁定位置与大小"@, "Lock position & size"@)
            },
            false,
        ),
        EntryView::Submenu {
            label: lang::pick(l, "排序方式"@, "Sort by"@),
            checked: false,
            items: sort_items(f.sort_mode, l),
        },
        rule(),
        top(MENU_DELETE_FENCE, lang::pick(l, "删除栅栏"@, "Delete fence"@), false),
        rule(),
        top(MENU_REFRESH, lang::pick(l, "刷新"@, "Refresh"@), false),
    ]
}

/// The menu of a fence; none where the fence is gone.
pub fn fence_menu(fences: &Vec<Fence>, fence_id: u32, l: Lang) -> (r: Option<Vec<MenuEntry>>)
    ensures
        match model::fence_at(model::fence_views(fences@), fence_id) {
            None => r is None,
            Some(i) => r is Some && menu_views(r->0@) == fence_entries(fences@[i]@, l),
        },
{
    match model::fence_position(fences, fence_id) {
        None => None,
        Some(i) => {
            let f = &fences[i];
            let mut v = no_entries();
            add_top(&mut v, MENU_ADD_FENCE, lang::new_fence(l), false);
            add_top(&mut v, MENU_RENAME, lang::rename(l), false);
            let fold = if f.collapsed {
                lang::expand(l)
            } else {
                lang::collapse(l)
            };
            add_top(&mut v, MENU_TOGGLE_COLLAPSE, fold, false);
            let lock = if f.locked {
                lang::unlock(l)
            } else {
                lang::lock(l)
            };
            add_top(&mut v, MENU_LOCK, lock, false);
            add_submenu(
                &mut v,
                lang::sort_submenu(l),
                false,
                sort_choice(f.sort_mode.as_str(), l),
            );
            add_rule(&mut v);
            add_top(&mut v, MENU_DELETE_FENCE, lang::delete_fence(l), false);
            add_rule(&mut v);
            add_top(&mut v, MENU_REFRESH, lang::refresh(l), false);
            assert(menu_views(v@) =~= fence_entries(f@, l));
            Some(v)
        },
    }
}

/// What a command of a fence's menu means.
#[derive(Clone, Copy, PartialEq, Eq, Structural)]
pub enum FenceAction {
    Sort(Sort),
    AddFence,
    Rename,
    ToggleCollapse,
    ToggleLock,
    Delete,
    Refresh,
    Nothing,
}

/// The orders of a fence.
#[derive(Clone, Copy, PartialEq, Eq, Structural)]
pub enum Sort {
    Frequency,
    Time,
    Name,
    Manual,
}

/// The name under which an order is stored.
pub fn sort_name(s: Sort) -> (r: &'static str)
    ensures
        r@ == (match s {
            Sort::Frequency => "常用"@,
            Sort::Time => "时间"@,
            Sort::Name => "名称"@,
            Sort::Manual => "手动"@,
        }),
{
    match s {
        Sort::Frequency => "常用",
        Sort::Time => "时间",
        Sort::Name => "名称",
        Sort::Manual => "手动",
    }
}

/// What a command of a fence's menu means.
pub open spec fn fence_action(id: u32) -> FenceAction {
    if id == MENU_SORT_FREQ {
        FenceAction::Sort(Sort::Frequency)
    } else if id == MENU_SORT_TIME {
        FenceAction::Sort(Sort::Time)
    } else if id == MENU_SORT_NAME {
        FenceAction::Sort(Sort::Name)
    } else if id == MENU_SORT_MANUAL {
        FenceAction::Sort(Sort::Manual)
    } else if id == MENU_ADD_FENCE {
        FenceAction::AddFence
    } else if id == MENU_RENAME {
        FenceAction::Rename
    } else if id == MENU_TOGGLE_COLLAPSE {
        FenceAction::ToggleCollapse
    } else if id == MENU_LOCK {
        FenceAction::ToggleLock
    } else if id == MENU_DELETE_FENCE {
        FenceAction::Delete
    } else if id == MENU_REFRESH {
        FenceAction::Refresh
    } else {
        FenceAction::Nothing
    }
}

/// What a command of a fence's menu means.
pub fn dispatch_fence_command(id: u32) -> (r: FenceAction)
    ensures
        r == fence_action(id),
{
    if id == MENU_SORT_FREQ {
        FenceAction::Sort(Sort::Frequency)
    } else if id == MENU_SORT_TIME {
        FenceAction::Sort(Sort::Time)
    } else if id == MENU_SORT_NAME {
        FenceAction::Sort(Sort::Name)
    } else if id == MENU_SORT_MANUAL {
        FenceAction::Sort(Sort::Manual)
    } else if id == MENU_ADD_FENCE {
        FenceAction::AddFence
    } else if id == MENU_RENAME {
        FenceAction::Rename
    } else if id == MENU_TOGGLE_COLLAPSE {
        FenceAction::ToggleCollapse
    } else if id == MENU_LOCK {
        FenceAction::ToggleLock
    } else if id == MENU_DELETE_FENCE {
        FenceAction::Delete
    } else if id == MENU_REFRESH {
        FenceAction::Refresh
    } else {
        FenceAction::Nothing
    }
}

// ---------------------------------------------------------------- the desktop's menu

/// The menu that the desktop's menu of the system gets as a submenu.
pub open spec fn desktop_items(align: Seq<char>, render: Seq<char>, l: Lang) -> Seq<ItemView> {
    seq![
        command(DL_CMD_ADD_FENCE, lang::pick(l, "新建栅栏"@, "New fence"@), false),
        command(DL_CMD_SHOW_ALL, lang::pick(l, "显示全部栅栏"@, "Show all fences"@), false),
        command(DL_CMD_HIDE_ALL, lang::pick(l, "隐藏全部栅栏"@, "Hide all fences"@), false),
        command(DL_CMD_UNDO, lang::pick(l, "撤销上次布局调整"@, "Undo last layout change"@), false),
        command(DL_CMD_REFRESH, lang::pick(l, "刷新"@, "Refresh"@), false),
        command(
            DL_CMD_AUTO_ALIGN,
            if align == "grid"@ {
                lang::pick(l, "对齐方式: 网格(图标格倍数)"@, "Alignment: snap to icon grid"@)
            } else if align == "free"@ {
                lang::pick(l, "对齐方式: 自由移动"@, "Alignment: free move"@)
            } else {
                lang::pick(l, "对齐方式: 自动(固定间隔)"@, "Alignment: auto (fixed spacing)"@)
            },
            false,
        ),
        command(
            DL_CMD_RENDER_MODE,
            if render == "precise"@ {
                lang::pick(l, "渲染模式: 精确(壁纸底,与原生一致)"@, "Render: precise (native-like)"@)
            } else {
                lang::pick(l, "渲染模式: 透明(动态壁纸兼容)"@, "Render: transparent (dynamic wallpaper)"@)
            },
            false,
        ),
        ItemView::Separator,
        command(DL_CMD_QUIT, lang::pick(l, "退出 DeskFence"@, "Exit DeskFence"@), false),
    ]
}

/// The submenu for the desktop's menu of the system.
pub fn desktop_submenu(align: &str, render: &str, l: Lang) -> (r: Vec<MenuItem>)
    ensures
        item_views(r@) == desktop_items(align@, render@, l),
{
    let mut v = no_items();
    add_item(&mut v, DL_CMD_ADD_FENCE, lang::new_fence(l), false);
    add_item(&mut v, DL_CMD_SHOW_ALL, lang::tray_show_all(l), false);
    add_item(&mut v, DL_CMD_HIDE_ALL, lang::tray_hide_all(l), false);
    add_item(&mut v, DL_CMD_UNDO, lang::undo_layout(l), false);
    add_item(&mut v, DL_CMD_REFRESH, lang::refresh(l), false);
    let mode = if text::same(align, "grid") {
        lang::desktop_align_grid(l)
    } else if text::same(align, "free") {
        lang::desktop_align_free(l)
    } else {
        lang::desktop_align_auto(l)
    };
    add_item(&mut v, DL_CMD_AUTO_ALIGN, mode, false);
    let way = if text::same(render, "precise") {
        lang::desktop_render_precise(l)
    } else {
        lang::desktop_render_transparent(l)
    };
    add_item(&mut v, DL_CMD_RENDER_MODE, way, false);
    add_item_rule(&mut v);
    add_item(&mut v, DL_CMD_QUIT, lang::quit_deskfence(l), false);
    assert(item_views(v@) =~= desktop_items(align@, render@, l));
    v
}

/// What a choice in the desktop's menu means.
#[derive(Clone, Copy, PartialEq, Eq, Structural)]
pub enum DesktopAction {
    /// One of the system's own commands, by its number among them.
    Invoke(u32),
    AddFence,
    ShowAll,
    HideAll,
    Undo,
    NextAlign,
    NextRender,
    Refresh,
    Quit,
    /// Nothing was chosen.
    Nothing,
}

/// What the choice `id` in the desktop's menu means. A fence is added after another,
/// so there must be one: `first_fence` is the id of the first, 0 where there is none.
pub open spec fn desktop_action(id: u32, first_fence: u32) -> DesktopAction {
    if CMD_FIRST <= id <= CMD_LAST {
        DesktopAction::Invoke((id - CMD_FIRST) as u32)
    } else if id == DL_CMD_ADD_FENCE {
        if first_fence == 0 {
            DesktopAction::Nothing
        } else {
            DesktopAction::AddFence
        }
    } else if id == DL_CMD_SHOW_ALL {
        DesktopAction::ShowAll
    } else if id == DL_CMD_HIDE_ALL {
        DesktopAction::HideAll
    } else if id == DL_CMD_UNDO {
        DesktopAction::Undo
    } else if id == DL_CMD_AUTO_ALIGN {
        DesktopAction::NextAlign
    } else if id == DL_CMD_RENDER_MODE {
        DesktopAction::NextRender
    } else if id == DL_CMD_REFRESH {
        DesktopAction::Refresh
    } else if id == DL_CMD_QUIT {
        DesktopAction::Quit
    } else {
        DesktopAction::Nothing
    }
}

/// What the choice `id` in the desktop's menu means.
pub fn dispatch_desktop_command(id: u32, fences: &Vec<Fence>) -> (r: DesktopAction)
    ensures
        r == desktop_action(
            id,
            if fences@.len() > 0 {
                fences@[0].id
            } else {
                0
            },
        ),
{
    let first_fence: u32 = if fences.len() > 0 {
        fences[0].id
    } else {
        0
    };
    if CMD_FIRST <= id && id <= CMD_LAST {
        DesktopAction::Invoke(id - CMD_FIRST)
    } else if id == DL_CMD_ADD_FENCE {
        if first_fence == 0 {
            DesktopAction::Nothing
        } else {
            DesktopAction::AddFence
        }
    } else if id == DL_CMD_SHOW_ALL {
        DesktopAction::ShowAll
    } else if id == DL_CMD_HIDE_ALL {
        DesktopAction::HideAll
    } else if id == DL_CMD_UNDO {
        DesktopAction::Undo
    } else if id == DL_CMD_AUTO_ALIGN {
        DesktopAction::NextAlign
    } else if id == DL_CMD_RENDER_MODE {
        DesktopAction::NextRender
    } else if id == DL_CMD_REFRESH {
        DesktopAction::Refresh
    } else if id == DL_CMD_QUIT {
        DesktopAction::Quit
    } else {
        DesktopAction::Nothing
    }
}

// ---------------------------------------------------------------- a file's menu

/// The menu of a file, where the system gives none.
pub open spec fn file_items(l: Lang) -> Seq<ItemView> {
    seq![
        command(F_OPEN, lang::pick(l, "打开"@, "Open"@), false),
        command(F_OPENWITH, lang::pick(l, "打开方式…"@, "Open with…"@), false),
        ItemView::Separator,
        command(F_COPY, lang::pick(l, "复制"@, "Copy"@), false),
        ItemView::Separator,
        command(F_LOCATE, lang::pick(l, "打开所在位置"@, "Open file location"@), false),
        command(F_RENAME, lang::pick(l, "重命名"@, "Rename"@), false),
        command(F_DELETE, lang::pick(l, "删除"@, "Delete"@), false),
        ItemView::Separator,
        command(F_PROPERTIES, lang::pick(l, "属性"@, "Properties"@), false),
    ]
}

/// The menu of a file, where the system gives none.
pub fn fallback_menu(l: Lang) -> (r: Vec<MenuItem>)
    ensures
        item_views(r@) == file_items(l),
{
    let mut v = no_items();
    add_item(&mut v, F_OPEN, lang::open(l), false);
    add_item(&mut v, F_OPENWITH, lang::open_with(l), false);
    add_item_rule(&mut v);
    add_item(&mut v, F_COPY, lang::copy(l), false);
    add_item_rule(&mut v);
    add_item(&mut v, F_LOCATE, lang::open_location(l), false);
    add_item(&mut v, F_RENAME, lang::rename(l), false);
    add_item(&mut v, F_DELETE, lang::delete(l), false);
    add_item_rule(&mut v);
    add_item(&mut v, F_PROPERTIES, lang::properties(l), false);
    assert(item_views(v@) =~= file_items(l));
    v
}

/// An entry of the system's menu of a file, as it matters here.
#[derive(Clone, Copy)]
pub struct SystemEntry {
    pub id: u32,
    /// Whether its command renames.
    pub renames: bool,
}

/// An entry lets the user rename the file.
pub open spec fn entry_renames(e: SystemEntry) -> bool {
    e.id == DL_ITEM_RENAME_ID || (CMD_FIRST <= e.id <= CMD_LAST && e.renames)
}

/// Where the system's menu of `path` gets an entry to rename: before its last two,
/// unless it is too short, has one, or is that of the recycle bin.
pub fn inject_rename_item(entries: &Vec<SystemEntry>, path: &str) -> (r: Option<usize>)
    ensures
        r == (if !model::bin_path(path@) && entries@.len() >= 3 && forall|i: int|
            0 <= i < entries@.len() ==> !entry_renames(#[trigger] entries@[i]) {
            Some((entries@.len() - 2) as usize)
        } else {
            None
        }),
{
    if model::is_recycle_bin(path) || entries.len() < 3 {
        return None;
    }
    let mut i: usize = 0;
    while i < entries.len()
        invariant
            i <= entries.len(),
            entries.len() >= 3,
            !model::bin_path(path@),
            forall|j: int| 0 <= j < i ==> !entry_renames(#[trigger] entries@[j]),
        decreases entries.len() - i,
    {
        let e = entries[i];
        if e.id == DL_ITEM_RENAME_ID || (CMD_FIRST <= e.id && e.id <= CMD_LAST && e.renames) {
            assert(entry_renames(entries@[i as int]));
            return None;
        }
        i = i + 1;
    }
    Some(entries.len() - 2)
}

/// What a choice in the system's menu of a file means.
#[derive(Clone, Copy, PartialEq, Eq, Structural)]
pub enum FileAction {
    /// The file is renamed in its fence.
    Rename,
    /// The system runs the command, by its number among its own.
    Invoke(u32),
    Nothing,
}

/// What the choice `id` in the system's menu of `path` means; `renames` tells
/// whether the system's command of that number renames.
pub fn file_action(id: u32, renames: bool, path: &str) -> (r: FileAction)
    ensures
        r == (if id == DL_ITEM_RENAME_ID {
            FileAction::Rename
        } else if CMD_FIRST <= id <= CMD_LAST {
            if renames && !model::bin_path(path@) {
                FileAction::Rename
            } else {
                FileAction::Invoke((id - CMD_FIRST) as u32)
            }
        } else {
            FileAction::Nothing
        }),
{
    if id == DL_ITEM_RENAME_ID {
        FileAction::Rename
    } else if CMD_FIRST <= id && id <= CMD_LAST {
        if renames && !model::is_recycle_bin(path) {
            FileAction::Rename
        } else {
            FileAction::Invoke(id - CMD_FIRST)
        }
    } else {
        FileAction::Nothing
    }
}

// ---------------------------------------------------------------- laws

/// The commands of an item.
pub open spec fn is_command(i: ItemView, id: u32) -> bool {
    i matches ItemView::Command { id: x, .. } && x == id
}

/// A menu offers a command, itself or in a menu of one of its entries.
pub open spec fn offers(m: Seq<EntryView>, id: u32) -> bool {
    exists|i: int| 0 <= i < m.len() && entry_offers(#[trigger] m[i], id)
}

/// An entry offers a command.
pub open spec fn entry_offers(e: EntryView, id: u32) -> bool {
    match e {
        EntryView::Item(i) => is_command(i, id),
        EntryView::Submenu { items, .. } => exists|j: int|
            0 <= j < items.len() && is_command(#[trigger] items[j], id),
    }
}

/// Every command that the tray menu offers means something.
pub proof fn law_tray_commands_are_known(
    s: TrayState,
    align: Seq<char>,
    render: Seq<char>,
    table: Seq<CategoryView>,
    code: Seq<char>,
    version: Seq<char>,
    l: Lang,
    id: u32,
)
    requires
        offers(tray_entries(s, align, render, table, code, version, l), id),
    ensures
        tray_action(id) != TrayAction::Unknown,
        tray_action(id) matches TrayAction::EditCategory(i) ==> i < table.len(),
{
    let m = tray_entries(s, align, render, table, code, version, l);
    let i = choose|i: int| 0 <= i < m.len() && entry_offers(#[trigger] m[i], id);
    match m[i] {
        EntryView::Item(_) => {},
        EntryView::Submenu { items, .. } => {
            let j = choose|j: int| 0 <= j < items.len() && is_command(#[trigger] items[j], id);
            if i == 9 {
                let n = category_items(table, l).len();
                assert(items == categories_menu(s.auto_category, table, l));
                if 3 <= j < 3 + n {
                    assert(items[j] == category_items(table, l)[j - 3]);
                } else if j >= 3 + n {
                    assert(j == 3 + n || j == 4 + n);
                }
            }
        },
    }
}

/// A category has the command from which its place is read.
pub proof fn law_category_commands_round_trip(table: Seq<CategoryView>, l: Lang, i: int)
    requires
        0 <= i < category_items(table, l).len(),
    ensures
        category_items(table, l)[i] matches ItemView::Command { id, .. } && category_command(id)
            == Some(i as usize) && tray_action(id) == TrayAction::EditCategory(i as usize),
{
}

/// A command of the system's own menus is none of the desktop's submenu, and not the
/// added one that renames a file.
pub proof fn law_command_ranges_are_apart(align: Seq<char>, render: Seq<char>, l: Lang, id: u32)
    requires
        CMD_FIRST <= id <= CMD_LAST,
    ensures
        forall|j: int|
            0 <= j < desktop_items(align, render, l).len() ==> !is_command(
                #[trigger] desktop_items(align, render, l)[j],
                id,
            ),
        id != DL_ITEM_RENAME_ID,
{
}

// ---------------------------------------------------------------- what the menus say

/// The alignments follow each other: auto, grid, free, and auto again; of the two ways to
/// draw each follows the other.
pub proof fn law_modes_follow_each_other(mode: Seq<char>)
    ensures
        align_after("auto"@) == "grid"@,
        align_after("grid"@) == "free"@,
        mode != "auto"@ && mode != "grid"@ ==> align_after(mode) == "auto"@,
        render_after("precise"@) == "transparent"@,
        mode != "precise"@ ==> render_after(mode) == "precise"@,
{
    reveal_strlit("auto");
    reveal_strlit("grid");
    assert("auto"@[0] != "grid"@[0]);
}

/// Each command of the tray does one thing, and no other number does it.
pub proof fn law_tray_commands_do_their_thing(id: u32)
    ensures
        ({
            let a = tray_action(id);
            &&& a is HideAll <==> id == 0x5107
            &&& a is ShowAll <==> id == 0x5108
            &&& a is Quit <==> id == 0x5109
            &&& a is ResetLayout <==> id == 0x510A
            &&& a is ToggleDesktopIcons <==> id == 0x510B
            &&& a == TrayAction::Align(Align::Auto) <==> id == 0x510C
            &&& a is Undo <==> id == 0x510D
            &&& a is ToggleAutostart <==> id == 0x510E
            &&& a is RestoreDesktop <==> id == 0x510F
            &&& a == TrayAction::Align(Align::Grid) <==> id == 0x5114
            &&& a == TrayAction::Align(Align::Free) <==> id == 0x5115
            &&& a == TrayAction::Render(Render::Transparent) <==> id == 0x5116
            &&& a == TrayAction::Render(Render::Precise) <==> id == 0x5117
            &&& a == TrayAction::CategoryMode(true) <==> id == 0x5118
            &&& a == TrayAction::CategoryMode(false) <==> id == 0x5133
            &&& a is ToggleChrome <==> id == 0x511A
            &&& a is EditCategory <==> 0x5120 <= id < 0x5130
            &&& a matches TrayAction::EditCategory(i) ==> i == id - 0x5120
            &&& a is AddCategory <==> id == 0x5130
            &&& a is CheckUpdate <==> id == 0x5131
            &&& a == TrayAction::Language(LangSetting::Auto) <==> id == 0x5134
            &&& a == TrayAction::Language(LangSetting::Zh) <==> id == 0x5135
            &&& a == TrayAction::Language(LangSetting::En) <==> id == 0x5136
        }),
{
}

/// Each command of a fence does one thing, and no other number does it.
pub proof fn law_fence_commands_do_their_thing(id: u32)
    ensures
        ({
            let a = fence_action(id);
            &&& a is AddFence <==> id == 0x5101
            &&& a is Rename <==> id == 0x5102
            &&& a is ToggleCollapse <==> id == 0x5103
            &&& a is ToggleLock <==> id == 0x5104
            &&& a is Delete <==> id == 0x5105
            &&& a is Refresh <==> id == 0x5106
            &&& a == FenceAction::Sort(Sort::Frequency) <==> id == 0x5110
            &&& a == FenceAction::Sort(Sort::Time) <==> id == 0x5111
            &&& a == FenceAction::Sort(Sort::Name) <==> id == 0x5112
            &&& a == FenceAction::Sort(Sort::Manual) <==> id == 0x5113
        }),
{
}

/// Each command on the desktop does one thing: those of the system are handed on, counted
/// from 0, and a fence is added only where there is one to stand beside.
pub proof fn law_desktop_commands_do_their_thing(id: u32, first_fence: u32)
    ensures
        ({
            let a = desktop_action(id, first_fence);
            &&& a is Invoke <==> 1 <= id <= 0x5FFF
            &&& a matches DesktopAction::Invoke(i) ==> i == id - 1
            &&& a is AddFence <==> id == 0x6001 && first_fence != 0
            &&& a is ShowAll <==> id == 0x6002
            &&& a is HideAll <==> id == 0x6003
            &&& a is Undo <==> id == 0x6004
            &&& a is NextAlign <==> id == 0x6005
            &&& a is Refresh <==> id == 0x6006
            &&& a is Quit <==> id == 0x6007
            &&& a is NextRender <==> id == 0x6009
        }),
{
}

/// A command of a menu, as its number, its text in both languages and its mark.
pub open spec fn reads(
    i: ItemView,
    l: Lang,
    id: u32,
    zh: Seq<char>,
    en: Seq<char>,
    checked: bool,
) -> bool {
    i matches ItemView::Command { id: x, label, checked: c } && x == id && c == checked && (if l is Zh {
        label == zh
    } else {
        label == en
    })
}

/// In a choice the mode in effect is marked, and no other.
pub proof fn law_choices_mark_what_is_in_effect(mode: Seq<char>, l: Lang)
    ensures
        ({
            let a = align_items(mode, l);
            &&& a.len() == 3
            &&& reads(a[0], l, 0x510C, "自动对齐(固定间隔)"@, "Auto align (fixed spacing)"@, mode == "auto"@)
            &&& reads(a[1], l, 0x5114, "网格对齐(图标格倍数)"@, "Snap to icon grid"@, mode == "grid"@)
            &&& reads(a[2], l, 0x5115, "自由移动(不受限)"@, "Free move (unrestricted)"@, mode == "free"@)
        }),
        ({
            let r = render_items(mode, l);
            &&& r.len() == 2
            &&& reads(r[0], l, 0x5117, "精确(与原生逐像素一致)"@, "Precise (pixel-identical to native)"@, mode == "precise"@)
            &&& reads(r[1], l, 0x5116, "透明(兜底:动态壁纸不兼容时)"@, "Transparent (fallback: dynamic wallpapers)"@, mode == "transparent"@)
        }),
        ({
            let c = lang_items(mode, l);
            &&& c.len() == 3
            &&& reads(c[0], l, 0x5134, "跟随系统"@, "System default"@, mode == "auto"@)
            &&& reads(c[1], l, 0x5135, "中文"@, "中文"@, mode == "zh"@)
            &&& reads(c[2], l, 0x5136, "English"@, "English"@, mode == "en"@)
        }),
        ({
            let s = sort_items(mode, l);
            &&& s.len() == 4
            &&& reads(s[0], l, 0x5110, "常用(默认)"@, "Most used (default)"@, mode == "常用"@)
            &&& reads(s[1], l, 0x5111, "时间(最近修改)"@, "Recently modified"@, mode == "时间"@)
            &&& reads(s[2], l, 0x5112, "名称"@, "Name"@, mode == "名称"@)
            &&& reads(s[3], l, 0x5113, "手动(拖拽自定义)"@, "Manual (drag to arrange)"@, mode == "手动"@)
        }),
{
}

/// The menu of categories lists the first sixteen of them under their names, the fallback
/// with a remark; the mode in effect is marked.
pub proof fn law_categories_are_listed(auto: bool, table: Seq<CategoryView>, l: Lang, i: int)
    ensures
        ({
            let m = categories_menu(auto, table, l);
            let n = if table.len() < 16 {
                table.len() as int
            } else {
                16
            };
            &&& m.len() == n + 5
            &&& reads(m[0], l, 0x5133, "自定义(拖入归类)"@, "Custom (drag to assign)"@, !auto)
            &&& m[1] is Separator
            &&& reads(m[2], l, 0x5118, "自动分类(按类型归类)"@, "Auto sort by type"@, auto)
            &&& 0 <= i < n ==> {
                let name = table[i].name;
                reads(
                    m[3 + i],
                    l,
                    (0x5120 + i) as u32,
                    "\u{3000}"@ + (if name == "其他"@ {
                        name + "(兜底)"@
                    } else {
                        name
                    }),
                    "\u{3000}"@ + (if name == "其他"@ {
                        name + " (fallback)"@
                    } else {
                        name
                    }),
                    false,
                )
            }
            &&& m[n + 3] is Separator
            &&& reads(
                m[n + 4],
                l,
                0x5130,
                "\u{3000}"@ + "新增分类…"@,
                "\u{3000}"@ + "New category…"@,
                false,
            )
        }),
{
    let m = categories_menu(auto, table, l);
    let c = category_items(table, l);
    let n = c.len() as int;
    assert(m.len() == n + 5);
    if 0 <= i < n {
        assert(m[3 + i] == c[i]);
    }
}

/// A command at the top of a menu, as its number, its text in both languages and its mark.
pub open spec fn reads_top(
    e: EntryView,
    l: Lang,
    id: u32,
    zh: Seq<char>,
    en: Seq<char>,
    checked: bool,
) -> bool {
    e matches EntryView::Item(i) && reads(i, l, id, zh, en, checked)
}

/// The menu of the tray: what it offers, in which order, and what its texts promise in each
/// state. All fences are shown where all are hidden, and else hidden; the icons of the
/// desktop likewise.
pub proof fn law_tray_menu_reads(
    s: TrayState,
    align: Seq<char>,
    render: Seq<char>,
    table: Seq<CategoryView>,
    code: Seq<char>,
    version: Seq<char>,
    l: Lang,
)
    ensures
        ({
            let m = tray_entries(s, align, render, table, code, version, l);
            &&& m.len() == 16
            &&& s.all_hidden ==> reads_top(m[0], l, 0x5108, "显示全部栅栏"@, "Show all fences"@, false)
            &&& !s.all_hidden ==> reads_top(m[0], l, 0x5107, "隐藏全部栅栏"@, "Hide all fences"@, false)
            &&& m[1] == EntryView::Item(ItemView::Separator)
            &&& reads_top(m[2], l, 0x510D, "撤销上次布局调整"@, "Undo last layout change"@, false)
            &&& reads_top(m[3], l, 0x510A, "恢复默认布局"@, "Restore default layout"@, false)
            &&& m[4] == EntryView::Item(ItemView::Separator)
            &&& s.icons_hidden ==> reads_top(m[5], l, 0x510B, "显示桌面图标"@, "Show desktop icons"@, false)
            &&& !s.icons_hidden ==> reads_top(m[5], l, 0x510B, "隐藏桌面图标"@, "Hide desktop icons"@, false)
            &&& s.all_hidden && !s.icons_hidden ==> reads_top(m[6], l, 0x5108, "恢复栅栏桌面"@, "Restore fence desktop"@, false)
            &&& !(s.all_hidden && !s.icons_hidden) ==> reads_top(m[6], l, 0x510F, "恢复原始桌面"@, "Restore original desktop"@, false)
            &&& m[7] is Submenu && m[7]->items == align_items(align, l) && !m[7]->checked
            &&& m[8] is Submenu && m[8]->items == render_items(render, l) && !m[8]->checked
            &&& m[9] is Submenu && m[9]->items == categories_menu(s.auto_category, table, l)
                && m[9]->checked == s.auto_category
            &&& reads_top(m[10], l, 0x511A, "显示栅栏边框线"@, "Always show fence borders"@, s.show_chrome)
            &&& reads_top(
                m[11],
                l,
                0x5131,
                "检查更新"@ + " (v"@ + version + ")"@,
                "Check for updates"@ + " (v"@ + version + ")"@,
                false,
            )
            &&& reads_top(m[12], l, 0x510E, "开机自启"@, "Start with Windows"@, s.autostart)
            &&& m[13] is Submenu && m[13]->items == lang_items(code, l) && !m[13]->checked
            &&& m[14] == EntryView::Item(ItemView::Separator)
            &&& reads_top(m[15], l, 0x5109, "退出"@, "Exit"@, false)
            &&& l is Zh ==> m[7]->label == "对齐方式"@ && m[8]->label == "渲染模式"@ && m[9]->label
                == "自动分类"@ && m[13]->label == "语言"@
            &&& l is En ==> m[7]->label == "Alignment"@ && m[8]->label == "Render mode"@
                && m[9]->label == "Auto sort"@ && m[13]->label == "Language"@
        }),
{
}

/// The menu of a fence: a collapsed fence can be expanded, an open one collapsed, a locked one
/// unlocked and a free one locked.
pub proof fn law_fence_menu_reads(f: FenceView, l: Lang)
    ensures
        ({
            let m = fence_entries(f, l);
            &&& m.len() == 9
            &&& reads_top(m[0], l, 0x5101, "新建栅栏"@, "New fence"@, false)
            &&& reads_top(m[1], l, 0x5102, "重命名"@, "Rename"@, false)
            &&& f.collapsed ==> reads_top(m[2], l, 0x5103, "展开"@, "Expand"@, false)
            &&& !f.collapsed ==> reads_top(m[2], l, 0x5103, "折叠"@, "Collapse"@, false)
            &&& f.locked ==> reads_top(m[3], l, 0x5104, "解除锁定位置与大小"@, "Unlock position & size"@, false)
            &&& !f.locked ==> reads_top(m[3], l, 0x5104, "锁定位置与大小"@, "Lock position & size"@, false)
            &&& m[4] is Submenu && m[4]->items == sort_items(f.sort_mode, l) && !m[4]->checked
            &&& l is Zh ==> m[4]->label == "排序方式"@
            &&& l is En ==> m[4]->label == "Sort by"@
            &&& m[5] == EntryView::Item(ItemView::Separator)
            &&& reads_top(m[6], l, 0x5105, "删除栅栏"@, "Delete fence"@, false)
            &&& m[7] == EntryView::Item(ItemView::Separator)
            &&& reads_top(m[8], l, 0x5106, "刷新"@, "Refresh"@, false)
        }),
{
}

/// The commands that the desktop's own menu gets: two of them tell the mode in effect.
pub proof fn law_desktop_menu_reads(align: Seq<char>, render: Seq<char>, l: Lang)
    ensures
        ({
            let m = desktop_items(align, render, l);
            &&& m.len() == 9
            &&& reads(m[0], l, 0x6001, "新建栅栏"@, "New fence"@, false)
            &&& reads(m[1], l, 0x6002, "显示全部栅栏"@, "Show all fences"@, false)
            &&& reads(m[2], l, 0x6003, "隐藏全部栅栏"@, "Hide all fences"@, false)
            &&& reads(m[3], l, 0x6004, "撤销上次布局调整"@, "Undo last layout change"@, false)
            &&& reads(m[4], l, 0x6006, "刷新"@, "Refresh"@, false)
            &&& align == "grid"@ ==> reads(m[5], l, 0x6005, "对齐方式: 网格(图标格倍数)"@, "Alignment: snap to icon grid"@, false)
            &&& align == "free"@ ==> reads(m[5], l, 0x6005, "对齐方式: 自由移动"@, "Alignment: free move"@, false)
            &&& align != "grid"@ && align != "free"@ ==> reads(m[5], l, 0x6005, "对齐方式: 自动(固定间隔)"@, "Alignment: auto (fixed spacing)"@, false)
            &&& render == "precise"@ ==> reads(m[6], l, 0x6009, "渲染模式: 精确(壁纸底,与原生一致)"@, "Render: precise (native-like)"@, false)
            &&& render != "precise"@ ==> reads(m[6], l, 0x6009, "渲染模式: 透明(动态壁纸兼容)"@, "Render: transparent (dynamic wallpaper)"@, false)
            &&& m[7] is Separator
            &&& reads(m[8], l, 0x6007, "退出 DeskFence"@, "Exit DeskFence"@, false)
        }),
{
    reveal_strlit("free");
    reveal_strlit("grid");
    assert("free"@[0] != "grid"@[0]);
}

/// The menu of a file where the system has none.
pub proof fn law_file_menu_reads(l: Lang)
    ensures
        ({
            let m = file_items(l);
            &&& m.len() == 10
            &&& reads(m[0], l, 1, "打开"@, "Open"@, false)
            &&& reads(m[1], l, 2, "打开方式…"@, "Open with…"@, false)
            &&& m[2] is Separator
            &&& reads(m[3], l, 7, "复制"@, "Copy"@, false)
            &&& m[4] is Separator
            &&& reads(m[5], l, 3, "打开所在位置"@, "Open file location"@, false)
            &&& reads(m[6], l, 4, "重命名"@, "Rename"@, false)
            &&& reads(m[7], l, 5, "删除"@, "Delete"@, false)
            &&& m[8] is Separator
            &&& reads(m[9], l, 6, "属性"@, "Properties"@, false)
        }),
{
}

/// An entry of the system's menu renames where it is the program's own, or one of the
/// system's that is known to.
pub proof fn law_renaming_entries(e: SystemEntry)
    ensures
        entry_renames(e) <==> e.id == 0x6008 || (1 <= e.id <= 0x5FFF && e.renames),
{
}

} // verus!

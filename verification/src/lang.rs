//! The words of the interface in Chinese and in English.
use crate::text;
use vstd::prelude::*;

verus! {

/// A language of the interface.
#[derive(Clone, Copy, PartialEq, Eq, Structural, Debug)]
pub enum Lang {
    Zh,
    En,
}

/// The language in effect: Chinese until another is set.
pub struct Language {
    effective: Lang,
}

impl View for Language {
    type V = Lang;

    closed spec fn view(&self) -> Lang {
        self.effective
    }
}

impl Language {
    /// Chinese.
    pub fn new() -> (r: Self)
        ensures
            r@ == Lang::Zh,
    {
        Language { effective: Lang::Zh }
    }
}

/// The language in effect.
pub fn lang(state: &Language) -> (r: Lang)
    ensures
        r == state@,
{
    state.effective
}

/// Puts a language into effect.
pub fn set_effective(state: &mut Language, l: Lang)
    ensures
        final(state)@ == l,
{
    state.effective = l;
}

/// The language of a setting: `zh` and `en` name one, and everything else follows
/// the system.
pub open spec fn resolved(setting: Seq<char>, system_zh: bool) -> Lang {
    if setting == "zh"@ {
        Lang::Zh
    } else if setting == "en"@ {
        Lang::En
    } else if system_zh {
        Lang::Zh
    } else {
        Lang::En
    }
}

/// The language of a setting.
pub fn resolve(setting: &str, system_zh: bool) -> (r: Lang)
    ensures
        r == resolved(setting@, system_zh),
{
    if text::same(setting, "zh") {
        Lang::Zh
    } else if text::same(setting, "en") {
        Lang::En
    } else if system_zh {
        Lang::Zh
    } else {
        Lang::En
    }
}

/// Whether the code of the installed language is that of simplified Chinese: it
/// starts with `08` and ends in `04`.
pub fn prefers_zh(code: &str) -> (r: bool)
    ensures
        r == (code@.len() >= 2 && code@[0] == '0' && code@[1] == '8' && text::ends_in(
            code@,
            seq!['0', '4'],
        )),
{
    let v = text::chars_of(code);
    let mut tail: Vec<char> = Vec::new();
    tail.push('0');
    tail.push('4');
    assert(tail@ =~= seq!['0', '4']);
    v.len() >= 2 && v[0] == '0' && v[1] == '8' && text::ends_with(&v, &tail)
}

/// The word of the language.
pub open spec fn pick(l: Lang, zh: Seq<char>, en: Seq<char>) -> Seq<char> {
    match l {
        Lang::Zh => zh,
        Lang::En => en,
    }
}

pub fn tray_show_all(l: Lang) -> (r: &'static str)
    ensures
        r@ == pick(l, "显示全部栅栏"@, "Show all fences"@),
{
    match l {
        Lang::Zh => "显示全部栅栏",
        Lang::En => "Show all fences",
    }
}

pub fn tray_hide_all(l: Lang) -> (r: &'static str)
    ensures
        r@ == pick(l, "隐藏全部栅栏"@, "Hide all fences"@),
{
    match l {
        Lang::Zh => "隐藏全部栅栏",
        Lang::En => "Hide all fences",
    }
}

pub fn undo_layout(l: Lang) -> (r: &'static str)
    ensures
        r@ == pick(l, "撤销上次布局调整"@, "Undo last layout change"@),
{
    match l {
        Lang::Zh => "撤销上次布局调整",
        Lang::En => "Undo last layout change",
    }
}

pub fn reset_layout(l: Lang) -> (r: &'static str)
    ensures
        r@ == pick(l, "恢复默认布局"@, "Restore default layout"@),
{
    match l {
        Lang::Zh => "恢复默认布局",
        Lang::En => "Restore default layout",
    }
}

pub fn show_desktop_icons(l: Lang) -> (r: &'static str)
    ensures
        r@ == pick(l, "显示桌面图标"@, "Show desktop icons"@),
{
    match l {
        Lang::Zh => "显示桌面图标",
        Lang::En => "Show desktop icons",
    }
}

pub fn hide_desktop_icons(l: Lang) -> (r: &'static str)
    ensures
        r@ == pick(l, "隐藏桌面图标"@, "Hide desktop icons"@),
{
    match l {
        Lang::Zh => "隐藏桌面图标",
        Lang::En => "Hide desktop icons",
    }
}

pub fn restore_fence_desktop(l: Lang) -> (r: &'static str)
    ensures
        r@ == pick(l, "恢复栅栏桌面"@, "Restore fence desktop"@),
{
    match l {
        Lang::Zh => "恢复栅栏桌面",
        Lang::En => "Restore fence desktop",
    }
}

pub fn restore_native_desktop(l: Lang) -> (r: &'static str)
    ensures
        r@ == pick(l, "恢复原始桌面"@, "Restore original desktop"@),
{
    match l {
        Lang::Zh => "恢复原始桌面",
        Lang::En => "Restore original desktop",
    }
}

pub fn align_submenu(l: Lang) -> (r: &'static str)
    ensures
        r@ == pick(l, "对齐方式"@, "Alignment"@),
{
    match l {
        Lang::Zh => "对齐方式",
        Lang::En => "Alignment",
    }
}

pub fn align_auto(l: Lang) -> (r: &'static str)
    ensures
        r@ == pick(l, "自动对齐(固定间隔)"@, "Auto align (fixed spacing)"@),
{
    match l {
        Lang::Zh => "自动对齐(固定间隔)",
        Lang::En => "Auto align (fixed spacing)",
    }
}

pub fn align_grid(l: Lang) -> (r: &'static str)
    ensures
        r@ == pick(l, "网格对齐(图标格倍数)"@, "Snap to icon grid"@),
{
    match l {
        Lang::Zh => "网格对齐(图标格倍数)",
        Lang::En => "Snap to icon grid",
    }
}

pub fn align_free(l: Lang) -> (r: &'static str)
    ensures
        r@ == pick(l, "自由移动(不受限)"@, "Free move (unrestricted)"@),
{
    match l {
        Lang::Zh => "自由移动(不受限)",
        Lang::En => "Free move (unrestricted)",
    }
}

pub fn render_submenu(l: Lang) -> (r: &'static str)
    ensures
        r@ == pick(l, "渲染模式"@, "Render mode"@),
{
    match l {
        Lang::Zh => "渲染模式",
        Lang::En => "Render mode",
    }
}

pub fn render_precise(l: Lang) -> (r: &'static str)
    ensures
        r@ == pick(l, "精确(与原生逐像素一致)"@, "Precise (pixel-identical to native)"@),
{
    match l {
        Lang::Zh => "精确(与原生逐像素一致)",
        Lang::En => "Precise (pixel-identical to native)",
    }
}

pub fn render_transparent(l: Lang) -> (r: &'static str)
    ensures
        r@ == pick(l, "透明(兜底:动态壁纸不兼容时)"@, "Transparent (fallback: dynamic wallpapers)"@),
{
    match l {
        Lang::Zh => "透明(兜底:动态壁纸不兼容时)",
        Lang::En => "Transparent (fallback: dynamic wallpapers)",
    }
}

pub fn auto_cat_submenu(l: Lang) -> (r: &'static str)
    ensures
        r@ == pick(l, "自动分类"@, "Auto sort"@),
{
    match l {
        Lang::Zh => "自动分类",
        Lang::En => "Auto sort",
    }
}

pub fn mode_custom(l: Lang) -> (r: &'static str)
    ensures
        r@ == pick(l, "自定义(拖入归类)"@, "Custom (drag to assign)"@),
{
    match l {
        Lang::Zh => "自定义(拖入归类)",
        Lang::En => "Custom (drag to assign)",
    }
}

pub fn mode_auto_category(l: Lang) -> (r: &'static str)
    ensures
        r@ == pick(l, "自动分类(按类型归类)"@, "Auto sort by type"@),
{
    match l {
        Lang::Zh => "自动分类(按类型归类)",
        Lang::En => "Auto sort by type",
    }
}

pub fn add_category_item(l: Lang) -> (r: &'static str)
    ensures
        r@ == pick(l, "新增分类…"@, "New category…"@),
{
    match l {
        Lang::Zh => "新增分类…",
        Lang::En => "New category…",
    }
}

pub fn toggle_chrome(l: Lang) -> (r: &'static str)
    ensures
        r@ == pick(l, "显示栅栏边框线"@, "Always show fence borders"@),
{
    match l {
        Lang::Zh => "显示栅栏边框线",
        Lang::En => "Always show fence borders",
    }
}

pub fn check_update(l: Lang) -> (r: &'static str)
    ensures
        r@ == pick(l, "检查更新"@, "Check for updates"@),
{
    match l {
        Lang::Zh => "检查更新",
        Lang::En => "Check for updates",
    }
}

pub fn autostart(l: Lang) -> (r: &'static str)
    ensures
        r@ == pick(l, "开机自启"@, "Start with Windows"@),
{
    match l {
        Lang::Zh => "开机自启",
        Lang::En => "Start with Windows",
    }
}

pub fn quit(l: Lang) -> (r: &'static str)
    ensures
        r@ == pick(l, "退出"@, "Exit"@),
{
    match l {
        Lang::Zh => "退出",
        Lang::En => "Exit",
    }
}

pub fn lang_submenu(l: Lang) -> (r: &'static str)
    ensures
        r@ == pick(l, "语言"@, "Language"@),
{
    match l {
        Lang::Zh => "语言",
        Lang::En => "Language",
    }
}

pub fn lang_auto(l: Lang) -> (r: &'static str)
    ensures
        r@ == pick(l, "跟随系统"@, "System default"@),
{
    match l {
        Lang::Zh => "跟随系统",
        Lang::En => "System default",
    }
}

pub fn lang_zh(l: Lang) -> (r: &'static str)
    ensures
        r@ == pick(l, "中文"@, "中文"@),
{
    match l {
        Lang::Zh => "中文",
        Lang::En => "中文",
    }
}

pub fn lang_en(l: Lang) -> (r: &'static str)
    ensures
        r@ == pick(l, "English"@, "English"@),
{
    match l {
        Lang::Zh => "English",
        Lang::En => "English",
    }
}

pub fn new_fence(l: Lang) -> (r: &'static str)
    ensures
        r@ == pick(l, "新建栅栏"@, "New fence"@),
{
    match l {
        Lang::Zh => "新建栅栏",
        Lang::En => "New fence",
    }
}

pub fn rename(l: Lang) -> (r: &'static str)
    ensures
        r@ == pick(l, "重命名"@, "Rename"@),
{
    match l {
        Lang::Zh => "重命名",
        Lang::En => "Rename",
    }
}

pub fn expand(l: Lang) -> (r: &'static str)
    ensures
        r@ == pick(l, "展开"@, "Expand"@),
{
    match l {
        Lang::Zh => "展开",
        Lang::En => "Expand",
    }
}

pub fn collapse(l: Lang) -> (r: &'static str)
    ensures
        r@ == pick(l, "折叠"@, "Collapse"@),
{
    match l {
        Lang::Zh => "折叠",
        Lang::En => "Collapse",
    }
}

pub fn unlock(l: Lang) -> (r: &'static str)
    ensures
        r@ == pick(l, "解除锁定位置与大小"@, "Unlock position & size"@),
{
    match l {
        Lang::Zh => "解除锁定位置与大小",
        Lang::En => "Unlock position & size",
    }
}

pub fn lock(l: Lang) -> (r: &'static str)
    ensures
        r@ == pick(l, "锁定位置与大小"@, "Lock position & size"@),
{
    match l {
        Lang::Zh => "锁定位置与大小",
        Lang::En => "Lock position & size",
    }
}

pub fn sort_submenu(l: Lang) -> (r: &'static str)
    ensures
        r@ == pick(l, "排序方式"@, "Sort by"@),
{
    match l {
        Lang::Zh => "排序方式",
        Lang::En => "Sort by",
    }
}

pub fn sort_freq(l: Lang) -> (r: &'static str)
    ensures
        r@ == pick(l, "常用(默认)"@, "Most used (default)"@),
{
    match l {
        Lang::Zh => "常用(默认)",
        Lang::En => "Most used (default)",
    }
}

pub fn sort_time(l: Lang) -> (r: &'static str)
    ensures
        r@ == pick(l, "时间(最近修改)"@, "Recently modified"@),
{
    match l {
        Lang::Zh => "时间(最近修改)",
        Lang::En => "Recently modified",
    }
}

pub fn sort_name(l: Lang) -> (r: &'static str)
    ensures
        r@ == pick(l, "名称"@, "Name"@),
{
    match l {
        Lang::Zh => "名称",
        Lang::En => "Name",
    }
}

pub fn sort_manual(l: Lang) -> (r: &'static str)
    ensures
        r@ == pick(l, "手动(拖拽自定义)"@, "Manual (drag to arrange)"@),
{
    match l {
        Lang::Zh => "手动(拖拽自定义)",
        Lang::En => "Manual (drag to arrange)",
    }
}

pub fn delete_fence(l: Lang) -> (r: &'static str)
    ensures
        r@ == pick(l, "删除栅栏"@, "Delete fence"@),
{
    match l {
        Lang::Zh => "删除栅栏",
        Lang::En => "Delete fence",
    }
}

pub fn refresh(l: Lang) -> (r: &'static str)
    ensures
        r@ == pick(l, "刷新"@, "Refresh"@),
{
    match l {
        Lang::Zh => "刷新",
        Lang::En => "Refresh",
    }
}

pub fn desktop_align_auto(l: Lang) -> (r: &'static str)
    ensures
        r@ == pick(l, "对齐方式: 自动(固定间隔)"@, "Alignment: auto (fixed spacing)"@),
{
    match l {
        Lang::Zh => "对齐方式: 自动(固定间隔)",
        Lang::En => "Alignment: auto (fixed spacing)",
    }
}

pub fn desktop_align_grid(l: Lang) -> (r: &'static str)
    ensures
        r@ == pick(l, "对齐方式: 网格(图标格倍数)"@, "Alignment: snap to icon grid"@),
{
    match l {
        Lang::Zh => "对齐方式: 网格(图标格倍数)",
        Lang::En => "Alignment: snap to icon grid",
    }
}

pub fn desktop_align_free(l: Lang) -> (r: &'static str)
    ensures
        r@ == pick(l, "对齐方式: 自由移动"@, "Alignment: free move"@),
{
    match l {
        Lang::Zh => "对齐方式: 自由移动",
        Lang::En => "Alignment: free move",
    }
}

pub fn desktop_render_precise(l: Lang) -> (r: &'static str)
    ensures
        r@ == pick(l, "渲染模式: 精确(壁纸底,与原生一致)"@, "Render: precise (native-like)"@),
{
    match l {
        Lang::Zh => "渲染模式: 精确(壁纸底,与原生一致)",
        Lang::En => "Render: precise (native-like)",
    }
}

pub fn desktop_render_transparent(l: Lang) -> (r: &'static str)
    ensures
        r@ == pick(l, "渲染模式: 透明(动态壁纸兼容)"@, "Render: transparent (dynamic wallpaper)"@),
{
    match l {
        Lang::Zh => "渲染模式: 透明(动态壁纸兼容)",
        Lang::En => "Render: transparent (dynamic wallpaper)",
    }
}

pub fn quit_deskfence(l: Lang) -> (r: &'static str)
    ensures
        r@ == pick(l, "退出 DeskFence"@, "Exit DeskFence"@),
{
    match l {
        Lang::Zh => "退出 DeskFence",
        Lang::En => "Exit DeskFence",
    }
}

pub fn open(l: Lang) -> (r: &'static str)
    ensures
        r@ == pick(l, "打开"@, "Open"@),
{
    match l {
        Lang::Zh => "打开",
        Lang::En => "Open",
    }
}

pub fn open_with(l: Lang) -> (r: &'static str)
    ensures
        r@ == pick(l, "打开方式…"@, "Open with…"@),
{
    match l {
        Lang::Zh => "打开方式…",
        Lang::En => "Open with…",
    }
}

pub fn copy(l: Lang) -> (r: &'static str)
    ensures
        r@ == pick(l, "复制"@, "Copy"@),
{
    match l {
        Lang::Zh => "复制",
        Lang::En => "Copy",
    }
}

pub fn open_location(l: Lang) -> (r: &'static str)
    ensures
        r@ == pick(l, "打开所在位置"@, "Open file location"@),
{
    match l {
        Lang::Zh => "打开所在位置",
        Lang::En => "Open file location",
    }
}

pub fn delete(l: Lang) -> (r: &'static str)
    ensures
        r@ == pick(l, "删除"@, "Delete"@),
{
    match l {
        Lang::Zh => "删除",
        Lang::En => "Delete",
    }
}

pub fn properties(l: Lang) -> (r: &'static str)
    ensures
        r@ == pick(l, "属性"@, "Properties"@),
{
    match l {
        Lang::Zh => "属性",
        Lang::En => "Properties",
    }
}

pub fn rename_item(l: Lang) -> (r: &'static str)
    ensures
        r@ == pick(l, "重命名(&M)"@, "Rename(&M)"@),
{
    match l {
        Lang::Zh => "重命名(&M)",
        Lang::En => "Rename(&M)",
    }
}

pub fn cats_title(l: Lang) -> (r: &'static str)
    ensures
        r@ == pick(l, "管理分类"@, "Manage categories"@),
{
    match l {
        Lang::Zh => "管理分类",
        Lang::En => "Manage categories",
    }
}

pub fn cats_add_btn(l: Lang) -> (r: &'static str)
    ensures
        r@ == pick(l, "＋ 新增分类"@, "＋ Add category"@),
{
    match l {
        Lang::Zh => "＋ 新增分类",
        Lang::En => "＋ Add category",
    }
}

pub fn dirs_marker(l: Lang) -> (r: &'static str)
    ensures
        r@ == pick(l, "(目录)"@, "(dirs)"@),
{
    match l {
        Lang::Zh => "(目录)",
        Lang::En => "(dirs)",
    }
}

pub fn new_category_base(l: Lang) -> (r: &'static str)
    ensures
        r@ == pick(l, "新分类"@, "New category"@),
{
    match l {
        Lang::Zh => "新分类",
        Lang::En => "New category",
    }
}

pub fn seed_desktop_title(l: Lang) -> (r: &'static str)
    ensures
        r@ == pick(l, "桌面整理"@, "Desktop"@),
{
    match l {
        Lang::Zh => "桌面整理",
        Lang::En => "Desktop",
    }
}

pub fn seed_new_fence_title(l: Lang) -> (r: &'static str)
    ensures
        r@ == pick(l, "新栅栏"@, "New fence"@),
{
    match l {
        Lang::Zh => "新栅栏",
        Lang::En => "New fence",
    }
}

/// What is put behind the name of the fallback category.
pub fn fallback_suffix(l: Lang) -> (r: &'static str)
    ensures
        r@ == pick(l, "(兜底)"@, " (fallback)"@),
{
    match l {
        Lang::Zh => "(兜底)",
        Lang::En => " (fallback)",
    }
}

/// A text is given in the language that is in effect: the one that was set, and where none
/// was, Chinese on a Chinese system and else English.
pub proof fn law_language_is_the_one_set(setting: Seq<char>, system_zh: bool, zh: Seq<char>, en: Seq<char>)
    ensures
        setting == "zh"@ ==> resolved(setting, system_zh) is Zh,
        setting == "en"@ ==> resolved(setting, system_zh) is En,
        setting != "zh"@ && setting != "en"@ ==> (resolved(setting, system_zh) is Zh <==> system_zh),
        pick(Lang::Zh, zh, en) == zh,
        pick(Lang::En, zh, en) == en,
{
    reveal_strlit("zh");
    reveal_strlit("en");
    assert("zh"@[0] != "en"@[0]);
}

} // verus!

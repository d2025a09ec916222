//! The menus and what their commands mean.

use deskfence::lang::Lang;
use deskfence::menu::{
    align_name, all_hidden, cats_menu_index, desktop_state_after, desktop_submenu,
    dispatch_desktop_command, dispatch_fence_command, dispatch_tray_command, fallback_menu,
    fence_menu, file_action, inject_rename_item, lang_name, next_align_mode, next_render_mode,
    render_name, show_tray_menu, sort_name, Align, DesktopAction, FenceAction, FileAction,
    LangSetting, MenuEntry, MenuItem, Render, Sort, SystemEntry, TrayAction, TrayState,
    CMD_FIRST, CMD_LAST, DL_CMD_ADD_FENCE, DL_CMD_QUIT, DL_ITEM_RENAME_ID, F_DELETE, F_OPEN,
    F_RENAME, MENU_ALIGN_GRID, MENU_AUTO_CATEGORY, MENU_CATS_ADD, MENU_CATS_BASE,
    MENU_CHECK_UPDATE, MENU_HIDE_ALL, MENU_LANG_EN, MENU_QUIT, MENU_SHOW_ALL, MENU_SORT_NAME,
    MENU_TOGGLE_COLLAPSE,
};
use deskfence::model::{default_categories, default_sort_mode, recycle_bin_item, Fence};

fn fence(id: u32, hidden: bool) -> Fence {
    Fence {
        id,
        title: "t".into(),
        category: "图片".into(),
        pinned: Vec::new(),
        item_order: Vec::new(),
        collapsed: false,
        scroll_rows: 0,
        locked: false,
        hidden,
        manual_size: false,
        sort_mode: default_sort_mode(),
    }
}

fn state() -> TrayState {
    TrayState {
        all_hidden: false,
        icons_hidden: true,
        auto_category: true,
        show_chrome: false,
        autostart: true,
    }
}

/// The commands of a menu, those of its submenus with them.
fn commands(menu: &Vec<MenuEntry>) -> Vec<(u32, String, bool)> {
    let mut out = Vec::new();
    let mut add = |i: &MenuItem| {
        if let MenuItem::Command { id, label, checked } = i {
            out.push((*id, label.clone(), *checked));
        }
    };
    for e in menu {
        match e {
            MenuEntry::Item(i) => add(i),
            MenuEntry::Submenu { items, .. } => items.iter().for_each(&mut add),
        }
    }
    out
}

#[test]
fn the_tray_menu_shows_the_chosen_modes() {
    let t = default_categories();
    let menu = show_tray_menu(state(), "grid", "precise", &t, "en", "1.2", Lang::En);
    let all = commands(&menu);
    let find = |id: u32| all.iter().find(|c| c.0 == id).unwrap();
    assert_eq!(menu.len(), 16);
    assert!(find(MENU_ALIGN_GRID).2);
    assert!(find(MENU_AUTO_CATEGORY).2);
    assert!(find(MENU_LANG_EN).2);
    assert_eq!(find(MENU_HIDE_ALL).1, "Hide all fences");
    assert_eq!(find(MENU_CHECK_UPDATE).1, "Check for updates (v1.2)");
    assert!(!all.iter().any(|c| c.0 == MENU_SHOW_ALL));
    let last = MENU_CATS_BASE + t.len() as u32 - 1;
    assert_eq!(find(last).1, "\u{3000}其他 (fallback)");
    assert_eq!(all.iter().filter(|c| cats_menu_index(c.0).is_some()).count(), 8);
}

#[test]
fn at_most_sixteen_categories_are_listed() {
    let mut t = default_categories();
    t.extend(default_categories());
    t.extend(default_categories());
    let menu = show_tray_menu(state(), "auto", "precise", &t, "auto", "1", Lang::Zh);
    assert_eq!(commands(&menu).iter().filter(|c| cats_menu_index(c.0).is_some()).count(), 16);
}

#[test]
fn every_tray_command_is_known() {
    for hidden in [false, true] {
        let s = TrayState { all_hidden: hidden, icons_hidden: !hidden, ..state() };
        let menu = show_tray_menu(s, "auto", "precise", &default_categories(), "auto", "1", Lang::Zh);
        for c in commands(&menu) {
            assert!(dispatch_tray_command(c.0) != TrayAction::Unknown, "{:x}", c.0);
        }
    }
    assert!(dispatch_tray_command(0) == TrayAction::Unknown);
}

#[test]
fn categories_are_edited_by_their_place() {
    for i in 0..16u32 {
        assert_eq!(cats_menu_index(MENU_CATS_BASE + i), Some(i as usize));
        assert!(dispatch_tray_command(MENU_CATS_BASE + i) == TrayAction::EditCategory(i as usize));
    }
    assert_eq!(cats_menu_index(MENU_CATS_ADD), None);
    assert!(dispatch_tray_command(MENU_CATS_ADD) == TrayAction::AddCategory);
}

#[test]
fn modes_go_round() {
    assert_eq!(next_align_mode("auto"), "grid");
    assert_eq!(next_align_mode("grid"), "free");
    assert_eq!(next_align_mode("free"), "auto");
    assert_eq!(next_render_mode("precise"), "transparent");
    assert_eq!(next_render_mode("transparent"), "precise");
}

#[test]
fn modes_have_names() {
    assert_eq!(align_name(Align::Auto), "auto");
    assert_eq!(align_name(Align::Grid), "grid");
    assert_eq!(align_name(Align::Free), "free");
    assert_eq!(render_name(Render::Precise), "precise");
    assert_eq!(render_name(Render::Transparent), "transparent");
    assert_eq!(lang_name(LangSetting::Auto), "auto");
    assert_eq!(lang_name(LangSetting::Zh), "zh");
    assert_eq!(lang_name(LangSetting::En), "en");
    assert_eq!(sort_name(Sort::Frequency), "常用");
    assert_eq!(sort_name(Sort::Time), "时间");
    assert_eq!(sort_name(Sort::Name), "名称");
    assert_eq!(sort_name(Sort::Manual), "手动");
}

#[test]
fn hiding_the_fences_is_remembered() {
    assert_eq!(desktop_state_after(TrayAction::HideAll), Some("zen"));
    assert_eq!(desktop_state_after(TrayAction::ShowAll), Some("normal"));
    assert_eq!(desktop_state_after(TrayAction::Quit), None);
    assert!(all_hidden(&vec![fence(1, true), fence(2, true)]));
    assert!(!all_hidden(&vec![fence(1, true), fence(2, false)]));
}

#[test]
fn the_menu_of_a_fence() {
    let mut fences = vec![fence(1, false)];
    fences[0].collapsed = true;
    fences[0].sort_mode = "名称".into();
    let all = commands(&fence_menu(&fences, 1, Lang::Zh).unwrap());
    assert!(all.iter().any(|c| c.0 == MENU_TOGGLE_COLLAPSE && c.1 == "展开"));
    assert!(all.iter().any(|c| c.0 == MENU_SORT_NAME && c.2));
    assert!(fence_menu(&fences, 9, Lang::Zh).is_none());
    for c in all {
        assert!(dispatch_fence_command(c.0) != FenceAction::Nothing);
    }
    assert!(dispatch_fence_command(MENU_SORT_NAME) == FenceAction::Sort(Sort::Name));
    assert!(dispatch_fence_command(MENU_QUIT) == FenceAction::Nothing);
}

#[test]
fn the_desktop_menu_passes_the_systems_commands_on() {
    let fences = vec![fence(1, false)];
    assert!(dispatch_desktop_command(CMD_FIRST, &fences) == DesktopAction::Invoke(0));
    assert!(dispatch_desktop_command(CMD_LAST, &fences) == DesktopAction::Invoke(CMD_LAST - CMD_FIRST));
    assert!(dispatch_desktop_command(DL_CMD_ADD_FENCE, &fences) == DesktopAction::AddFence);
    assert!(dispatch_desktop_command(DL_CMD_ADD_FENCE, &Vec::new()) == DesktopAction::Nothing);
    assert!(dispatch_desktop_command(0, &fences) == DesktopAction::Nothing);
    let items = desktop_submenu("free", "transparent", Lang::En);
    for i in &items {
        if let MenuItem::Command { id, .. } = i {
            assert!(dispatch_desktop_command(*id, &fences) != DesktopAction::Nothing);
        }
    }
    assert!(items.iter().any(|i| matches!(i, MenuItem::Command { id, .. } if *id == DL_CMD_QUIT)));
}

#[test]
fn a_file_can_be_renamed_from_the_systems_menu() {
    let entries = |last: bool| {
        vec![
            SystemEntry { id: 1, renames: false },
            SystemEntry { id: 2, renames: false },
            SystemEntry { id: 3, renames: last },
        ]
    };
    assert_eq!(inject_rename_item(&entries(false), "C:\\a"), Some(1));
    assert_eq!(inject_rename_item(&entries(true), "C:\\a"), None);
    assert_eq!(inject_rename_item(&vec![SystemEntry { id: 1, renames: false }], "C:\\a"), None);
    let bin = recycle_bin_item(&default_categories()).path;
    assert_eq!(inject_rename_item(&entries(false), &bin), None);
    assert!(file_action(5, true, &bin) == FileAction::Invoke(5 - CMD_FIRST));
    assert!(file_action(DL_ITEM_RENAME_ID, false, "C:\\a") == FileAction::Rename);
    assert!(file_action(0, false, "C:\\a") == FileAction::Nothing);
    assert!(file_action(5, false, "C:\\a") == FileAction::Invoke(5 - CMD_FIRST));
    assert!(file_action(5, true, "C:\\a") == FileAction::Rename);
}

#[test]
fn a_menu_stands_in_where_the_system_gives_none() {
    let ids: Vec<u32> = fallback_menu(Lang::Zh)
        .iter()
        .filter_map(|i| match i {
            MenuItem::Command { id, .. } => Some(*id),
            MenuItem::Separator => None,
        })
        .collect();
    assert!(ids.contains(&F_OPEN) && ids.contains(&F_RENAME) && ids.contains(&F_DELETE));
}

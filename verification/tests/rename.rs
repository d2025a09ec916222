//! Renaming fences and files.

use deskfence::desk::{new_fence, Desk};
use deskfence::model::{categorize_with, default_categories, recycle_bin_item, FileItem};
use deskfence::rename::{
    adjust_rename_edit_height, apply_file_rename, cancel_rename, collapse_for_filename,
    commit_file_rename, commit_rename, file_edit_action, file_editor_closed, file_editor_opened,
    file_rename_done, preselected, press_commits, rename_click_outside_hit, rename_path,
    repath_selection, start_file_rename, start_rename, title_edit_action, title_editor_opened,
    Commit, EditAction, EditEvent, EditorMeasure, Editors, RenameCall, UNTITLED,
};
use deskfence::selection::Selection;
use deskfence::text_map::TextMap;
use deskfence::utf16::wide;

fn file(name: &str) -> FileItem {
    FileItem {
        name: name.into(),
        path: format!(r"C:\{name}"),
        is_dir: false,
        ext: "".into(),
        category: categorize_with(&default_categories(), name, false),
        mtime_ms: 0,
    }
}

#[test]
fn a_title_is_trimmed_and_never_empty() {
    let mut fences = vec![new_fence(1, "t", "")];
    let mut ed = Editors::new();
    assert_eq!(start_rename(&ed, &fences, 1).as_deref(), Some("t"));
    title_editor_opened(&mut ed, 1);
    assert_eq!(start_rename(&ed, &fences, 1), None);
    commit_rename(&mut ed, &mut fences, 1, &wide("  新 名 "));
    assert_eq!(fences[0].title, "新 名");
    assert_eq!(ed.title, None);
    commit_rename(&mut ed, &mut fences, 1, &wide("   "));
    assert_eq!(fences[0].title, UNTITLED);
    title_editor_opened(&mut ed, 1);
    cancel_rename(&mut ed);
    assert_eq!(ed.title, None);
    assert_eq!(fences[0].title, UNTITLED);
}

#[test]
fn clicks_outside_commit() {
    let mut ed = Editors::new();
    let none = rename_click_outside_hit(&ed, false, false);
    assert!(!none.title && !none.file);
    file_editor_opened(&mut ed, "C:\\a");
    let c = rename_click_outside_hit(&ed, false, false);
    assert!(!c.title && c.file);
    assert!(!rename_click_outside_hit(&ed, false, true).file);
    title_editor_opened(&mut ed, 1);
    let both = rename_click_outside_hit(&ed, false, false);
    assert!(both.title && both.file);
    let in_title = rename_click_outside_hit(&ed, true, false);
    assert!(!in_title.title && !in_title.file);
    assert!(press_commits(&ed, true).title && !press_commits(&ed, true).file);
    file_editor_closed(&mut ed);
    assert_eq!(ed.file, None);
}

#[test]
fn the_editors_follow_their_keys() {
    assert!(title_edit_action(EditEvent::Return) == EditAction::Commit);
    assert!(title_edit_action(EditEvent::Escape) == EditAction::Cancel);
    assert!(title_edit_action(EditEvent::Deactivated) == EditAction::Cancel);
    assert!(title_edit_action(EditEvent::Key) == EditAction::Usual);
    assert!(file_edit_action(EditEvent::Return, false) == EditAction::Commit);
    assert!(file_edit_action(EditEvent::Character(0x0D), false) == EditAction::Commit);
    assert!(file_edit_action(EditEvent::Character(65), false) == EditAction::UsualThenFit);
    assert!(file_edit_action(EditEvent::Paste, true) == EditAction::InsertClean);
    assert!(file_edit_action(EditEvent::Paste, false) == EditAction::UsualThenFit);
    assert!(file_edit_action(EditEvent::Deactivated, false) == EditAction::Commit);
    assert!(file_edit_action(EditEvent::Timer, false) == EditAction::Fit);
}

#[test]
fn the_name_without_its_extension_is_preselected() {
    assert_eq!(preselected("a.txt"), 1);
    assert_eq!(preselected("a.tar.gz"), 5);
    assert_eq!(preselected("noext"), -1);
    assert_eq!(preselected(".hidden"), -1);
    assert_eq!(preselected("😀.txt"), 2);
}

#[test]
fn one_editor_at_a_time() {
    let mut ed = Editors::new();
    assert!(start_file_rename(&ed, "C:\\a"));
    assert!(!start_file_rename(&ed, &recycle_bin_item(&default_categories()).path));
    file_editor_opened(&mut ed, "C:\\a");
    assert!(!start_file_rename(&ed, "C:\\b"));
}

#[test]
fn a_typed_name_is_checked() {
    let mut ed = Editors::new();
    assert!(matches!(commit_file_rename(&mut ed, "a.txt", &wide("b.txt")), Commit::Close));
    file_editor_opened(&mut ed, "C:\\a.txt");
    assert!(matches!(commit_file_rename(&mut ed, "a.txt", &wide(" a.txt ")), Commit::Close));
    assert!(matches!(commit_file_rename(&mut ed, "a.txt", &wide("  ")), Commit::Close));
    for c in ["\\", "/", ":", "*", "?", "\"", "<", ">", "|", "\u{7}"] {
        assert!(matches!(commit_file_rename(&mut ed, "a.txt", &wide(&format!("b{c}c"))), Commit::Refuse));
    }
    match commit_file_rename(&mut ed, "a.txt", &wide(" b.txt ")) {
        Commit::Rename { name } => assert_eq!(name, "b.txt"),
        _ => panic!("no rename"),
    }
    assert!(matches!(commit_file_rename(&mut ed, "a.txt", &wide("c.txt")), Commit::Busy));
    file_rename_done(&mut ed);
    assert!(matches!(commit_file_rename(&mut ed, "a.txt", &wide("c.txt")), Commit::Rename { .. }));
}

#[test]
fn an_existing_file_is_not_overwritten() {
    assert!(rename_path("C:\\a", None, false) == RenameCall::Refused);
    assert!(rename_path("C:\\a", Some("C:\\a"), true) == RenameCall::Already);
    assert!(rename_path("C:\\a", Some("C:\\b"), true) == RenameCall::Refused);
    assert!(rename_path("C:\\a", Some("C:\\b"), false) == RenameCall::Move);
    assert!(rename_path("C:\\a", Some("C:\\A"), true) == RenameCall::Move);
}

#[test]
fn a_renamed_file_is_followed_everywhere() {
    let mut desk = Desk {
        table: default_categories(),
        files: vec![file("a.txt"), file("b.txt")],
        fences: vec![new_fence(1, "t", "文档")],
        deleted_at: TextMap::new(),
        epoch: 0,
    };
    desk.fences[0].pinned.push("C:\\a.txt".into());
    desk.fences[0].item_order.push("C:\\a.txt".into());
    desk.deleted_at.insert("图片".into(), 3);
    let mut sel = Selection {
        paths: vec!["C:\\b.txt".into(), "C:\\a.txt".into()],
        focused: Some("C:\\a.txt".into()),
        anchor: Some("C:\\b.txt".into()),
    };
    assert!(apply_file_rename(&mut desk, &mut sel, "C:\\a.txt", "C:\\a.png", "a.png"));
    assert_eq!(desk.files[0].path, "C:\\a.png");
    assert_eq!(desk.files[0].name, "a.png");
    assert_eq!(desk.files[0].category, "图片");
    assert_eq!(desk.fences[0].pinned, vec!["C:\\a.png"]);
    assert_eq!(desk.fences[0].item_order, vec!["C:\\a.png"]);
    assert!(!desk.deleted_at.contains_key("图片"));
    assert_eq!(sel.paths, vec!["C:\\b.txt", "C:\\a.png"]);
    assert_eq!(sel.focused.as_deref(), Some("C:\\a.png"));
    assert_eq!(sel.anchor.as_deref(), Some("C:\\b.txt"));
    assert!(!apply_file_rename(&mut desk, &mut sel, "C:\\b.txt", "C:\\c.txt", "c.txt"));
    repath_selection(&mut sel, "C:\\zzz", "C:\\y");
    assert_eq!(sel.paths.len(), 2);
}

#[test]
fn pasted_names_are_made_one_line() {
    assert_eq!(collapse_for_filename("a\r\nb\tc"), "a b c");
    assert_eq!(collapse_for_filename("  a \u{7} b  "), "a b");
    assert_eq!(collapse_for_filename("\n\n"), "");
    assert_eq!(collapse_for_filename("名 字"), "名 字");
}

fn measure() -> EditorMeasure {
    EditorMeasure {
        break_w: 50,
        cell_w: 90,
        left: 100,
        top: 200,
        right: 190,
        bottom: 220,
        format_h: None,
        line_h: 16,
        lines_h: 32,
        least_pad: 4,
        usual_pad: 4,
        screen_left: 0,
        screen_top: 0,
        screen_right: 1920,
        screen_bottom: 1080,
        center: None,
    }
}

#[test]
fn the_editor_grows_with_its_lines() {
    assert_eq!(adjust_rename_edit_height(&measure()), (107, 200, 76, 36));
    let wider = EditorMeasure { break_w: 80, center: Some(500), ..measure() };
    assert_eq!(adjust_rename_edit_height(&wider), (455, 200, 90, 36));
}

#[test]
fn the_editor_stays_on_the_screen() {
    let far = EditorMeasure { center: Some(5000), top: 1070, bottom: 1090, ..measure() };
    let (x, y, w, h) = adjust_rename_edit_height(&far);
    assert!(x >= 0 && x + w <= 1920 && y >= 0 && y + h <= 1080);
    let lost = EditorMeasure { left: i32::MIN, right: i32::MAX, ..measure() };
    assert_eq!(adjust_rename_edit_height(&lost), (0, 200, 76, 36));
}

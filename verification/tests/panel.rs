//! The panel of the categories.

use deskfence::desk::{new_fence, Desk};
use deskfence::lang::Lang;
use deskfence::model::{categorize_with, default_categories, table_position, FileItem};
use deskfence::panel::{
    clicked, commit_exts, commit_row, control_ids, do_add, do_delete, layout_rows, open_panel_at,
    panel_message, panel_rows, typed_extensions, Click, PanelDims, PanelKey, PanelRow, Screens,
    Typing, ID_ADD, ROW_LIMIT,
};
use deskfence::text_map::TextMap;

fn desk() -> Desk {
    let t = default_categories();
    Desk {
        files: vec![FileItem {
            name: "a.txt".into(),
            path: "C:\\a.txt".into(),
            is_dir: false,
            ext: "txt".into(),
            category: categorize_with(&t, "a.txt", false),
            mtime_ms: 0,
        }],
        table: t,
        fences: vec![new_fence(1, "文档", "文档")],
        deleted_at: TextMap::new(),
        epoch: 0,
    }
}

fn at(rows: &Vec<PanelRow>, name: &str) -> usize {
    rows.iter().position(|r| r.name == name).unwrap()
}

#[test]
fn the_rows_are_the_categories() {
    let d = desk();
    let rows = panel_rows(&d.table, Lang::En);
    assert_eq!(rows.len(), 8);
    let other = &rows[at(&rows, "其他")];
    assert!(other.locked_name && other.locked_exts);
    let dirs = &rows[at(&rows, "文件夹")];
    assert_eq!(dirs.exts, "(dirs)");
    assert!(!dirs.locked_name && dirs.locked_exts);
    let docs = &rows[at(&rows, "文档")];
    assert!(docs.exts.split(';').any(|e| e == "txt"));
}

#[test]
fn a_typed_name_renames_the_category() {
    let mut d = desk();
    let mut rows = panel_rows(&d.table, Lang::Zh);
    let i = at(&rows, "文档");
    assert_eq!(commit_row(&mut rows, &mut d, i, "文档"), None);
    assert_eq!(commit_row(&mut rows, &mut d, i, "图片"), Some("文档".to_string()));
    assert_eq!(commit_row(&mut rows, &mut d, i, "  "), Some("文档".to_string()));
    assert_eq!(commit_row(&mut rows, &mut d, i, " 资料 "), None);
    assert_eq!(rows[i].name, "资料");
    assert_eq!(d.files[0].category, "资料");
    let other = at(&rows, "其他");
    assert_eq!(commit_row(&mut rows, &mut d, other, "别的"), Some("其他".to_string()));
}

#[test]
fn typed_extensions_are_split_and_cleaned() {
    assert_eq!(typed_extensions(".Foo, bar；baz;foo  ，q"), vec!["foo", "bar", "baz", "q"]);
    assert_eq!(typed_extensions(" ; ,"), Vec::<String>::new());
}

#[test]
fn new_extensions_are_taken_over_and_shown() {
    let mut d = desk();
    let mut rows = panel_rows(&d.table, Lang::Zh);
    let pics = at(&rows, "图片");
    assert_eq!(commit_exts(&mut rows, &mut d, pics, "png, .FOO"), Some("png;foo".to_string()));
    assert_eq!(rows[pics].exts, "png;foo");
    assert_eq!(categorize_with(&d.table, "x.foo", false), "图片");
    assert_eq!(commit_exts(&mut rows, &mut d, pics, "png;txt"), Some("png;foo".to_string()));
    assert_eq!(commit_exts(&mut rows, &mut d, pics, "png;foo"), None);
    let other = at(&rows, "其他");
    assert_eq!(commit_exts(&mut rows, &mut d, other, "zzz"), Some(rows[other].exts.clone()));
}

#[test]
fn a_deleted_row_is_gone() {
    let mut d = desk();
    let mut rows = panel_rows(&d.table, Lang::Zh);
    let i = at(&rows, "文档");
    assert!(do_delete(&mut rows, &mut d, i, "文档", 9));
    assert_eq!(rows.len(), 7);
    assert_eq!(table_position(&d.table, "文档"), None);
    assert_eq!(d.files[0].category, "其他");
    assert_eq!(d.fences.len(), 1);
    assert_eq!(d.fences[0].category, "其他");
    let other = at(&rows, "其他");
    assert!(!do_delete(&mut rows, &mut d, other, "其他", 9));
    assert_eq!(rows.len(), 7);
}

#[test]
fn an_added_row_is_the_last() {
    let mut d = desk();
    let mut rows = panel_rows(&d.table, Lang::Zh);
    let typing = Some(Typing { row: at(&rows, "文档"), text: "资料".into() });
    let name = do_add(&mut rows, &mut d, &typing, Lang::Zh).unwrap();
    assert_eq!(rows.last().unwrap().name, name);
    assert_eq!(d.table.last().unwrap().name, name);
    assert_eq!(d.files[0].category, "资料");
    let next = do_add(&mut rows, &mut d, &None, Lang::Zh).unwrap();
    assert_ne!(next, name);
}

#[test]
fn a_full_panel_takes_no_more() {
    let mut d = desk();
    let mut rows: Vec<PanelRow> = (0..ROW_LIMIT)
        .map(|i| PanelRow {
            name: format!("{i}"),
            exts: "".into(),
            locked_name: false,
            locked_exts: false,
        })
        .collect();
    assert_eq!(do_add(&mut rows, &mut d, &None, Lang::En), None);
    assert_eq!(d.table.len(), 8);
}

#[test]
fn buttons_are_told_apart() {
    assert!(clicked(ID_ADD, 8) == Click::Add);
    for i in 0..8 {
        let (name, exts, delete) = control_ids(i);
        assert!(clicked(name, 8) == Click::Nothing);
        assert!(clicked(exts, 8) == Click::Nothing);
        assert!(clicked(delete, 8) == Click::Delete(i));
    }
    assert!(clicked(control_ids(8).2, 8) == Click::Nothing);
    assert!(clicked(-1, 8) == Click::Nothing);
    assert_eq!(control_ids(200), (0x358, 0x359, 0x35A));
    assert!(clicked(0x35A, 201) == Click::Delete(200));
}

#[test]
fn keys_close_and_commit() {
    assert!(panel_message(true, true, true, 0x1B) == PanelKey::Close);
    assert!(panel_message(true, true, true, 0x0D) == PanelKey::Commit);
    assert!(panel_message(true, true, true, 0x41) == PanelKey::Pass);
    assert!(panel_message(false, true, true, 0x1B) == PanelKey::Pass);
    assert!(panel_message(true, false, true, 0x1B) == PanelKey::Pass);
    assert!(panel_message(true, true, false, 0x1B) == PanelKey::Pass);
}

#[test]
fn rows_stand_below_each_other() {
    let d = PanelDims { pad: 10, row_h: 24, gap: 6, del_w: 40, width: 400, name_w: 100 };
    let (rows, add_top, height) = layout_rows(&d, 3);
    assert_eq!(rows.iter().map(|r| r.top).collect::<Vec<_>>(), vec![10, 40, 70]);
    assert_eq!(add_top, 100);
    assert_eq!(height, 130);
    assert_eq!(rows[0].name_x, 10);
    assert_eq!(rows[0].exts_x, 114);
    assert_eq!(rows[0].exts_w, 232);
    assert_eq!(rows[0].del_x, 350);
}

#[test]
fn a_long_table_has_all_its_rows() {
    let d = PanelDims { pad: 10, row_h: 24, gap: 6, del_w: 40, width: 400, name_w: 100 };
    let (rows, add_top, height) = layout_rows(&d, 1000);
    assert_eq!(rows.len(), 1000);
    assert_eq!(rows[999].top, 29980);
    assert_eq!(add_top, 30010);
    assert_eq!(height, 30040);
    let (none, add_top, height) = layout_rows(&PanelDims { width: i32::MIN, ..d }, 0);
    assert_eq!((none.len(), add_top, height), (0, 10, 40));
}

#[test]
fn the_panel_opens_above_the_pointer() {
    let s = Screens { x: 0, y: 0, w: 1920, h: 1080 };
    assert_eq!(open_panel_at(&s, 960, 1000, 400, 300), (760, 688));
    assert_eq!(open_panel_at(&s, 10, 10, 400, 300), (0, 0));
    assert_eq!(open_panel_at(&s, 1910, 2000, 400, 300), (1520, 780));
    assert_eq!(open_panel_at(&s, i32::MIN, i32::MAX, 400, 300), (0, 780));
}

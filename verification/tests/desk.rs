//! Categories, fences and files together.

use deskfence::defaults::{build_global_config, reset_fence_layout};
use deskfence::desk::{
    add_fence_after, apply_category_add, apply_category_delete, apply_category_exts,
    apply_category_rename, clean_extension, delete_fence, delete_fence_ex,
    ensure_missing_category_fences, invalidate_pending_scans, max_fence_id, new_fence,
    normalize_exts_for, recategorize, scan_epoch, set_fence_sort, toggle_collapse, toggle_lock,
    unique_category_name, validate_category_rename, Desk,
};
use deskfence::lang::Lang;
use deskfence::model::{categorize_with, default_categories, table_position, FileItem};
use deskfence::text_map::TextMap;

fn file(name: &str) -> FileItem {
    FileItem {
        name: name.into(),
        path: format!(r"C:\{name}"),
        is_dir: false,
        ext: "".into(),
        category: categorize_with(&default_categories(), name, false),
        mtime_ms: 0,
    }
}

fn desk(names: &[&str]) -> Desk {
    Desk {
        table: default_categories(),
        files: names.iter().map(|n| file(n)).collect(),
        fences: vec![new_fence(3, "文档", "文档"), new_fence(5, "mine", "图片")],
        deleted_at: TextMap::new(),
        epoch: 0,
    }
}

fn texts<const N: usize>(v: [&str; N]) -> Vec<String> {
    v.map(str::to_string).to_vec()
}

#[test]
fn a_renamed_category_takes_its_files_and_fences_along() {
    let mut d = desk(&["a.txt", "b.png"]);
    d.deleted_at.insert("文档".into(), 4);
    assert!(apply_category_rename(&mut d, "文档", "资料"));
    assert_eq!(d.files[0].category, "资料");
    assert_eq!(d.files[1].category, "图片");
    assert_eq!(d.fences[0].category, "资料");
    assert_eq!(d.fences[0].title, "资料");
    assert!(!d.deleted_at.contains_key("文档"));
    assert_eq!(d.epoch, 1);
    assert!(apply_category_rename(&mut d, "图片", "画"));
    assert_eq!(d.fences[1].title, "mine");
}

#[test]
fn a_name_that_is_taken_or_blank_is_refused() {
    let t = default_categories();
    assert!(!validate_category_rename("文档", "图片", &t));
    assert!(!validate_category_rename("文档", "  ", &t));
    assert!(!validate_category_rename("文档", "文档", &t));
    assert!(!validate_category_rename("文档", " 图片 ", &t));
    assert!(validate_category_rename("文档", "资料", &t));
    let mut d = desk(&["a.txt"]);
    assert!(!apply_category_rename(&mut d, "文档", "图片"));
    assert_eq!(d.epoch, 0);
    assert_eq!(d.files[0].category, "文档");
}

#[test]
fn renaming_there_and_back_restores_the_table() {
    let mut d = desk(&["a.txt", "b.png"]);
    assert!(apply_category_rename(&mut d, "文档", "资料"));
    assert!(apply_category_rename(&mut d, "资料", "文档"));
    assert_eq!(table_position(&d.table, "文档"), table_position(&default_categories(), "文档"));
    assert_eq!(d.files[0].category, "文档");
    assert_eq!(d.fences[0].title, "文档");
}

#[test]
fn extensions_are_cleaned() {
    assert_eq!(clean_extension(" ..TXT "), "txt");
    assert_eq!(clean_extension("..."), "");
    let t = default_categories();
    assert_eq!(
        normalize_exts_for("新", &texts([".Foo", "foo", "", "bar"]), &t),
        Ok(texts(["foo", "bar"]))
    );
    assert_eq!(normalize_exts_for("新", &texts(["foo", ".PNG"]), &t), Err("png".to_string()));
    assert!(normalize_exts_for("图片", &texts(["png"]), &t).is_ok());
}

#[test]
fn new_extensions_move_files() {
    let mut d = desk(&["a.foo", "b.txt"]);
    assert_eq!(d.files[0].category, "其他");
    assert!(apply_category_exts(&mut d, "图片", &texts(["png", "foo"])));
    assert_eq!(d.files[0].category, "图片");
    assert_eq!(d.files[1].category, "文档");
    assert_eq!(d.fences.len(), 2);
    assert!(!apply_category_exts(&mut d, "图片", &texts(["txt"])));
    assert!(!apply_category_exts(&mut d, "其他", &texts(["zzz"])));
}

#[test]
fn every_file_has_the_category_of_its_table() {
    let mut d = desk(&["a.txt"]);
    d.files[0].category = "图片".into();
    recategorize(&mut d.files, &d.table);
    assert_eq!(d.files[0].category, "文档");
}

#[test]
fn the_files_of_a_deleted_category_fall_back() {
    let mut d = desk(&["a.txt", "b.png"]);
    d.deleted_at.insert("其他".into(), 1);
    assert!(apply_category_delete(&mut d, "文档", 77));
    assert_eq!(d.files[0].category, "其他");
    assert_eq!(table_position(&d.table, "文档"), None);
    assert_eq!(d.fences.len(), 2);
    assert_eq!((d.fences[1].id, d.fences[1].category.as_str()), (6, "其他"));
    assert_eq!(d.fences[1].title, "其他");
    assert_eq!(d.deleted_at.get("文档"), Some(&77));
    assert!(!d.deleted_at.contains_key("其他"));
    assert!(!apply_category_delete(&mut d, "其他", 78));
}

#[test]
fn an_extension_that_finds_files_brings_a_fence() {
    let mut d = desk(&["a.foo", "b.foo"]);
    assert!(apply_category_exts(&mut d, "媒体", &texts(["foo"])));
    assert_eq!(d.files[1].category, "媒体");
    assert_eq!(d.fences.len(), 3);
    assert_eq!((d.fences[2].id, d.fences[2].title.as_str()), (6, "媒体"));
    assert_eq!(d.fences[2].category, "媒体");
}

#[test]
fn categories_with_files_get_the_fences_they_lack() {
    let mut d = desk(&["a.txt", "b.mp3", "c.zzz"]);
    assert_eq!(ensure_missing_category_fences(&mut d), vec!["媒体", "其他"]);
    assert_eq!(d.fences.iter().map(|f| f.id).collect::<Vec<_>>(), vec![3, 5, 6, 7]);
    assert_eq!(d.fences[2].category, "媒体");
    assert!(ensure_missing_category_fences(&mut d).is_empty());
    assert_eq!(d.fences.len(), 4);
}

#[test]
fn a_deleted_fence_comes_back_for_a_newer_file_alone() {
    let mut d = desk(&["a.mp3"]);
    d.files[0].mtime_ms = 50;
    d.deleted_at.insert("媒体".into(), 50);
    assert!(ensure_missing_category_fences(&mut d).is_empty());
    assert_eq!(d.deleted_at.get("媒体"), Some(&50));
    d.files.push(FileItem { mtime_ms: 51, ..file("b.mp3") });
    assert_eq!(ensure_missing_category_fences(&mut d), vec!["媒体"]);
    assert!(!d.deleted_at.contains_key("媒体"));
}

#[test]
fn deleting_a_fence_is_noted_where_the_user_did_it() {
    let mut d = desk(&[]);
    assert!(delete_fence(&mut d, 3, 9));
    assert_eq!(d.deleted_at.get("文档"), Some(&9));
    assert!(!delete_fence(&mut d, 3, 9));
    assert!(delete_fence_ex(&mut d, 5, false, 9));
    assert!(!d.deleted_at.contains_key("图片"));
    assert!(d.fences.is_empty());
}

#[test]
fn new_names_are_numbered() {
    assert_eq!(unique_category_name("新", &Vec::new()), Some("新".to_string()));
    assert_eq!(unique_category_name("新", &texts(["新"])), Some("新2".to_string()));
    assert_eq!(unique_category_name("新", &texts(["新", "新2", "新4"])), Some("新3".to_string()));
    assert_eq!(unique_category_name("  ", &Vec::new()), None);
}

#[test]
fn an_added_category_has_a_fence() {
    let mut d = desk(&[]);
    d.deleted_at.insert("新".into(), 1);
    assert_eq!(apply_category_add(&mut d, "新"), Some("新".to_string()));
    assert_eq!(d.table.last().unwrap().name, "新");
    let f = d.fences.last().unwrap();
    assert_eq!((f.id, f.title.as_str(), f.category.as_str()), (6, "新", "新"));
    assert!(!d.deleted_at.contains_key("新"));
    assert_eq!(apply_category_add(&mut d, "新"), Some("新2".to_string()));
    assert_eq!(apply_category_add(&mut d, ""), None);
}

#[test]
fn fences_get_new_ids() {
    let mut d = desk(&[]);
    assert_eq!(max_fence_id(&d.fences), 5);
    assert_eq!(add_fence_after(&mut d, "x"), 6);
    assert_eq!(d.fences[2].title, "x");
    assert_eq!(d.fences[2].sort_mode, "常用");
    assert_eq!(max_fence_id(&Vec::new()), 0);
}

#[test]
fn switches_of_a_fence() {
    let mut d = desk(&[]);
    assert!(toggle_collapse(&mut d.fences, 3));
    assert!(!toggle_collapse(&mut d.fences, 3));
    toggle_lock(&mut d.fences, 5);
    assert!(d.fences[1].locked);
    assert!(!d.fences[0].locked);
    toggle_lock(&mut d.fences, 5);
    assert!(!d.fences[1].locked);
    set_fence_sort(&mut d.fences, 5, "名称");
    assert_eq!(d.fences[1].sort_mode, "名称");
    set_fence_sort(&mut d.fences, 99, "时间");
    assert_eq!(d.fences[0].sort_mode, "常用");
}

#[test]
fn a_voided_scan_has_another_number() {
    let mut d = desk(&[]);
    let at = scan_epoch(&d);
    invalidate_pending_scans(&mut d);
    assert_ne!(scan_epoch(&d), at);
    d.epoch = u64::MAX;
    invalidate_pending_scans(&mut d);
    assert_eq!(scan_epoch(&d), 0);
}

#[test]
fn the_first_layout_has_a_fence_for_each_category_in_use() {
    let d = desk(&["a.png", "b.txt", "c.txt", "d.txt", "e.txt", "f.txt"]);
    let g = build_global_config(&d.files, &d.table);
    assert_eq!(g.len(), 2);
    for (i, (f, _)) in g.iter().enumerate() {
        assert_eq!(f.id, i as u32 + 1);
        assert_eq!(f.title, f.category);
    }
    let docs = g.iter().find(|(f, _)| f.category == "文档").unwrap();
    assert_eq!(docs.1, 2);
    let pics = g.iter().find(|(f, _)| f.category == "图片").unwrap();
    assert_eq!(pics.1, 1);
}

#[test]
fn a_reset_gives_the_first_layout() {
    let mut d = desk(&["a.png"]);
    let cols = reset_fence_layout(&mut d, Lang::Zh, 5);
    assert_eq!(d.fences.len(), 1);
    assert_eq!(d.fences[0].category, "图片");
    assert_eq!(cols, vec![Some(1)]);
    let mut empty = desk(&[]);
    let none = reset_fence_layout(&mut empty, Lang::En, 5);
    assert_eq!(empty.fences.len(), 1);
    assert_eq!(empty.fences[0].category, "");
    assert_eq!(none, vec![None]);
}

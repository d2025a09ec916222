//! What a fence lists, and in which order.

use deskfence::defaults::build_global_config;
use deskfence::display::{
    auto_category, display_list, find_path, has_category_fence, locate_file, pinned_elsewhere,
    rebuild_category_registry, rebuild_pinned_registry, set_auto_category, Registry,
};
use deskfence::listing::{newly_added_paths, reorder_paths_as_block};
use deskfence::model::{
    categorize_with, category_index, color_slot, default_categories, default_sort_mode, ext_of,
    is_recycle_bin, recycle_bin_item, table_position, CategoryDef, Fence, FileItem,
};
use deskfence::order::{natural_name_cmp, natural_rank, rank_marked, rank_u64, Rank};
use deskfence::usage::{record_open_at, UsageStore};
use std::cmp::Ordering;

fn fence(id: u32) -> Fence {
    Fence {
        id,
        title: "t".into(),
        category: "图片".into(),
        pinned: Vec::new(),
        item_order: Vec::new(),
        collapsed: false,
        scroll_rows: 0,
        locked: false,
        hidden: false,
        manual_size: false,
        sort_mode: default_sort_mode(),
    }
}

fn file(name: &str, path: &str, ext: &str, category: &str, mtime_ms: u64) -> FileItem {
    FileItem {
        name: name.into(),
        path: path.into(),
        is_dir: false,
        ext: ext.into(),
        category: category.into(),
        mtime_ms,
    }
}

fn texts<const N: usize>(v: [&str; N]) -> Vec<String> {
    v.map(str::to_string).to_vec()
}

fn listed(f: &Fence, all: &Vec<FileItem>) -> Vec<String> {
    display_list(f, all, &Registry::new(), &UsageStore::new()).iter().map(|i| i.name.clone()).collect()
}

#[test]
fn usage_sort_appends_new_files_to_the_right() {
    let mut f = fence(1);
    f.title = "文档".into();
    f.category = "文档".into();
    f.sort_mode = "常用".into();
    let mk = |name: &str, mtime: u64| file(name, &format!(r"C:\Desktop\{name}"), "txt", "文档", mtime);
    let items = vec![
        mk("新建 Microsoft Excel 工作表.xlsx", 2000),
        mk("新建 文本文档 (2).txt", 1000),
    ];
    let out = listed(&f, &items);
    assert_eq!(out[0], "新建 文本文档 (2).txt");
    assert_eq!(out[1], "新建 Microsoft Excel 工作表.xlsx");
}

#[test]
fn categorize_works() {
    let t = default_categories();
    assert_eq!(categorize_with(&t, "a.png", false), "图片");
    assert_eq!(categorize_with(&t, "b.exe", false), "软件");
    assert_eq!(categorize_with(&t, "c", false), "其他");
    assert_eq!(categorize_with(&t, "d", true), "文件夹");
    assert_eq!(categorize_with(&t, "e.LNK", false), "软件");
    assert_eq!(categorize_with(&t, "F.TXT", false), "文档");
}

#[test]
fn category_delete_falls_back_to_other() {
    let t: Vec<CategoryDef> =
        default_categories().into_iter().filter(|c| c.name != "文档").collect();
    assert_eq!(categorize_with(&t, "a.txt", false), "其他");
    assert_eq!(categorize_with(&t, "a.pdf", false), "其他");
    assert_eq!(categorize_with(&t, "a.png", false), "图片");
}

#[test]
fn category_rename_follows() {
    let mut t = default_categories();
    for c in t.iter_mut() {
        if c.name == "文档" {
            c.name = "资料".into();
        }
    }
    assert_eq!(categorize_with(&t, "a.txt", false), "资料");
}

#[test]
fn dir_category_rename_and_delete() {
    let mut t = default_categories();
    for c in t.iter_mut() {
        if c.name == "文件夹" {
            c.name = "目录".into();
        }
    }
    assert_eq!(categorize_with(&t, "any", true), "目录");
    let t2: Vec<CategoryDef> = t.into_iter().filter(|c| !c.dirs).collect();
    assert_eq!(categorize_with(&t2, "any", true), "其他");
}

#[test]
fn new_empty_category_receives_nothing() {
    let mut t = default_categories();
    t.push(CategoryDef { name: "设计".into(), exts: vec![], dirs: false });
    assert_eq!(categorize_with(&t, "a.txt", false), "文档");
    assert_eq!(categorize_with(&t, "b.png", false), "图片");
}

#[test]
fn newly_added_paths_preserves_new_scan_order() {
    let item = |path: &str| file(path, path, "", "其他", 0);
    let old = vec![item("a"), item("b")];
    let new = vec![item("b"), item("c"), item("a"), item("d")];
    assert_eq!(newly_added_paths(&old, &new), vec!["c", "d"]);
}

#[test]
fn reorder_paths_as_block_preserves_original_relative_order() {
    let original = texts(["a", "b", "c", "d", "e", "f"]);
    let dragged = texts(["e", "b", "d"]);
    assert_eq!(
        reorder_paths_as_block(&original, &dragged, 1),
        ["a", "b", "d", "e", "c", "f"].map(str::to_string)
    );
}

#[test]
fn reorder_paths_as_block_supports_start_end_and_clamps_slot() {
    let original = texts(["a", "b", "c", "d", "e"]);
    let dragged = texts(["b", "d"]);
    assert_eq!(
        reorder_paths_as_block(&original, &dragged, 0),
        ["b", "d", "a", "c", "e"].map(str::to_string)
    );
    assert_eq!(
        reorder_paths_as_block(&original, &dragged, usize::MAX),
        ["a", "c", "e", "b", "d"].map(str::to_string)
    );
}

#[test]
fn reorder_paths_as_block_ignores_missing_and_duplicate_drag_paths() {
    let original = texts(["a", "b", "c"]);
    let dragged = texts(["missing", "b", "b"]);
    assert_eq!(
        reorder_paths_as_block(&original, &dragged, 2),
        ["a", "c", "b"].map(str::to_string)
    );
    assert_eq!(reorder_paths_as_block(&original, &texts(["missing"]), 0), original);
}

#[test]
fn display_list_dedup() {
    let all = vec![
        file("a.png", r"C:\x\a.png", "png", "图片", 0),
        file("b.png", r"C:\x\b.png", "png", "图片", 0),
    ];
    let mut f2 = fence(1);
    f2.pinned.push(r"C:\x\a.png".into());
    assert_eq!(listed(&f2, &all).len(), 2);
}

#[test]
fn natural_sort_places_numeric_names_in_explorer_order() {
    let f = fence(1);
    let all = vec![
        file("item10.txt", "C:\\item10.txt", "txt", "图片", 0),
        file("item2.txt", "C:\\item2.txt", "txt", "图片", 0),
    ];
    let out = listed(&f, &all);
    assert_eq!(out[0], "item2.txt");
    assert_eq!(out[1], "item10.txt");
}

#[test]
fn display_list_respects_persisted_item_order() {
    let mut f = fence(1);
    f.sort_mode = "手动".into();
    let all = vec![
        file("a.png", "C:\\a.png", "png", "图片", 0),
        file("b.png", "C:\\b.png", "png", "图片", 0),
    ];
    f.item_order = texts(["C:\\b.png", "C:\\a.png"]);
    assert_eq!(listed(&f, &all), vec!["b.png", "a.png"]);
}

#[test]
fn display_list_sorts_dir_first_name() {
    let mut f = fence(1);
    f.category = "其他".into();
    let mut alpha = file("alpha", r"C:\x\alpha", "", "其他", 0);
    alpha.is_dir = true;
    let all = vec![
        file("zeta.txt", r"C:\x\zeta.txt", "txt", "其他", 0),
        alpha,
        file("beta.txt", r"C:\x\beta.txt", "txt", "其他", 0),
    ];
    assert_eq!(listed(&f, &all), vec!["alpha", "beta.txt", "zeta.txt"]);
}

#[test]
fn global_config_stable() {
    let g = build_global_config(&Vec::new(), &default_categories());
    assert!(g.is_empty());
}

#[test]
fn a_moved_block_keeps_every_path() {
    let original = texts(["a", "b", "c", "d", "e"]);
    for slot in 0..7 {
        let mut out = reorder_paths_as_block(&original, &texts(["d", "a"]), slot);
        assert_eq!(out.len(), 5);
        out.sort();
        assert_eq!(out, original);
    }
}

#[test]
fn often_opened_files_come_first() {
    let f = fence(1);
    let all = vec![
        file("a.png", "C:\\a.png", "png", "图片", 1),
        file("b.png", "C:\\b.png", "png", "图片", 2),
        file("c.png", "C:\\c.png", "png", "图片", 3),
    ];
    let mut store = UsageStore::new();
    record_open_at(&mut store, "C:\\c.png", 10);
    record_open_at(&mut store, "C:\\c.png", 11);
    record_open_at(&mut store, "C:\\b.png", 12);
    let out = display_list(&f, &all, &Registry::new(), &store);
    let names: Vec<&str> = out.iter().map(|i| i.name.as_str()).collect();
    assert_eq!(names, vec!["c.png", "b.png", "a.png"]);
}

#[test]
fn files_sorted_by_time_and_by_name() {
    let mut f = fence(1);
    let all = vec![
        file("b.png", "C:\\b.png", "png", "图片", 5),
        file("a.png", "C:\\a.png", "png", "图片", 1),
        file("c.png", "C:\\c.png", "png", "图片", 9),
    ];
    f.sort_mode = "名称".into();
    assert_eq!(listed(&f, &all), vec!["a.png", "b.png", "c.png"]);
    f.sort_mode = "时间".into();
    assert_eq!(listed(&f, &all), vec!["c.png", "b.png", "a.png"]);
}

#[test]
fn a_file_pinned_to_another_fence_is_not_listed() {
    let all = vec![
        file("a.png", "C:\\a.png", "png", "图片", 0),
        file("b.png", "C:\\b.png", "png", "图片", 0),
    ];
    let mut other = fence(2);
    other.category = "".into();
    other.pinned = texts(["C:\\a.png"]);
    let fences = vec![fence(1), other];
    let mut reg = Registry::new();
    rebuild_pinned_registry(&mut reg, &fences);
    rebuild_category_registry(&mut reg, &fences);
    assert!(pinned_elsewhere(&reg, "C:\\a.png"));
    assert!(!pinned_elsewhere(&reg, "C:\\b.png"));
    assert!(has_category_fence(&reg, "图片"));
    assert!(!has_category_fence(&reg, "文档"));
    let here: Vec<String> =
        display_list(&fences[0], &all, &reg, &UsageStore::new()).iter().map(|i| i.name.clone()).collect();
    assert_eq!(here, vec!["b.png"]);
    let there: Vec<String> =
        display_list(&fences[1], &all, &reg, &UsageStore::new()).iter().map(|i| i.name.clone()).collect();
    assert_eq!(there, vec!["a.png"]);
}

#[test]
fn without_automatic_categories_the_fallback_takes_the_orphans() {
    let all = vec![
        file("a.png", "C:\\a.png", "png", "图片", 0),
        file("b.txt", "C:\\b.txt", "txt", "文档", 0),
        file("c.xyz", "C:\\c.xyz", "xyz", "其他", 0),
    ];
    let mut rest = fence(2);
    rest.category = "其他".into();
    let fences = vec![fence(1), rest];
    let mut reg = Registry::new();
    rebuild_category_registry(&mut reg, &fences);
    let show = |reg: &Registry, i: usize| -> Vec<String> {
        display_list(&fences[i], &all, reg, &UsageStore::new()).iter().map(|f| f.name.clone()).collect()
    };
    assert!(auto_category(&reg));
    assert_eq!(show(&reg, 1), vec!["c.xyz"]);
    set_auto_category(&mut reg, false);
    assert!(!auto_category(&reg));
    assert_eq!(show(&reg, 0), vec!["a.png"]);
    assert_eq!(show(&reg, 1), vec!["b.txt", "c.xyz"]);
}

#[test]
fn files_are_found_by_their_path() {
    let all = vec![file("a", "C:\\a", "", "其他", 0), file("b", "C:\\b", "", "其他", 0)];
    assert_eq!(find_path(&all, "C:\\b"), Some(1));
    assert_eq!(find_path(&all, "C:\\c"), None);
}

#[test]
fn extensions_follow_the_last_dot_and_match_in_any_case() {
    assert_eq!(ext_of("A.PNG"), "PNG");
    assert_eq!(ext_of("a.tar.GZ"), "GZ");
    assert_eq!(ext_of("noext"), "");
    let t = vec![CategoryDef { name: "x".into(), exts: texts(["äö"]), dirs: false }];
    assert_eq!(categorize_with(&t, "ÄÖ.ÄÖ", false), "x");
}

#[test]
fn categories_are_found_by_name_and_colored_by_place() {
    let t = default_categories();
    assert_eq!(t.len(), 8);
    for (i, c) in t.iter().enumerate() {
        assert_eq!(table_position(&t, &c.name), Some(i));
        assert_eq!(category_index(&t, &c.name), i);
        assert_eq!(color_slot(&t, &c.name, 3), i % 3);
    }
    assert_eq!(table_position(&t, "无此类"), None);
}

#[test]
fn the_recycle_bin_is_told_by_its_path() {
    let bin = recycle_bin_item(&default_categories());
    assert!(is_recycle_bin(&bin.path));
    assert!(!is_recycle_bin("C:\\a.txt"));
}

#[test]
fn natural_order_compares_runs_of_digits_as_numbers() {
    assert_eq!(natural_name_cmp("item2", "item10"), Ordering::Less);
    assert_eq!(natural_name_cmp("item10", "item2"), Ordering::Greater);
    assert_eq!(natural_name_cmp("A", "a"), natural_name_cmp("A", "a"));
    assert_eq!(natural_name_cmp("a", "a"), Ordering::Equal);
    assert_eq!(natural_rank("x9y", "x10y"), Rank::Before);
    assert_eq!(rank_u64(3, 2), Rank::After);
    assert_eq!(rank_marked(true, false), Rank::Before);
    assert_eq!(rank_marked(true, true), Rank::Same);
}

#[test]
fn natural_order_is_antisymmetric_on_samples() {
    let names = ["a", "A", "a1", "a01", "a10", "a2", "b", "", "1", "01", "10", "啊1", "ß", "ẞ"];
    for a in names {
        for b in names {
            let expect = match natural_name_cmp(a, b) {
                Ordering::Less => Ordering::Greater,
                Ordering::Equal => Ordering::Equal,
                Ordering::Greater => Ordering::Less,
            };
            assert_eq!(natural_name_cmp(b, a), expect, "{a} {b}");
        }
    }
}

#[test]
fn a_file_is_found_in_the_first_fence_that_shows_it() {
    let mut other = fence(2);
    other.category = "文档".into();
    other.pinned = texts(["C:\\b.png"]);
    let fences = vec![other, fence(1)];
    let all = vec![
        file("a.png", "C:\\a.png", "png", "图片", 0),
        file("b.png", "C:\\b.png", "png", "图片", 0),
        file("c.png", "C:\\c.png", "png", "图片", 0),
    ];
    let mut reg = Registry::new();
    set_auto_category(&mut reg, true);
    rebuild_pinned_registry(&mut reg, &fences);
    rebuild_category_registry(&mut reg, &fences);
    let store = UsageStore::new();
    let at = |path: &str| locate_file(&fences, &all, &reg, &store, path);
    assert_eq!(at("C:\\b.png"), Some((0, 0)));
    assert_eq!(at("C:\\a.png"), Some((1, 0)));
    assert_eq!(at("C:\\c.png"), Some((1, 1)));
    assert_eq!(at("C:\\x.png"), None);
}

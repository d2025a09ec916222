//! Scanning the desktop.

use deskfence::desk::Desk;
use deskfence::model::{default_categories, FileItem};
use deskfence::scan::{
    finalize_scan, finalize_scan_with, mark_scan_removed, same_ignoring_case, scan_desktop,
    scan_desktop_dir, scan_desktop_raw, scan_public_too, select_image_size, show_hidden_files,
    show_super_hidden, take_desktop_dirty, work_shares, Listing, RawEntry, SCAN_MISS_DROP,
};
use deskfence::text_map::TextMap;

fn entry(name: &str, is_dir: bool, attrs: u32) -> RawEntry {
    RawEntry { name: name.into(), path: format!(r"C:\d\{name}"), is_dir, attrs, mtime_ms: 7 }
}

fn names(files: &Vec<FileItem>) -> Vec<String> {
    files.iter().map(|f| f.name.clone()).collect()
}

#[test]
fn selects_smallest_size_at_least_target() {
    assert_eq!(select_image_size(&vec![16, 256, 48, 32, 64], 40), Some(48));
    assert_eq!(select_image_size(&vec![64, 48, 96], 48), Some(48));
}

#[test]
fn selects_largest_size_when_all_are_below_target() {
    assert_eq!(select_image_size(&vec![16, 32, 48], 64), Some(48));
}

#[test]
fn ignores_zero_sizes_and_handles_no_available_size() {
    assert_eq!(select_image_size(&vec![0, 32, 0], 24), Some(32));
    assert_eq!(select_image_size(&vec![0, 0], 24), None);
    assert_eq!(select_image_size(&vec![], 24), None);
}

#[test]
fn hidden_entries_are_left_out_unless_asked_for() {
    let t = default_categories();
    let es = vec![
        entry("a.txt", false, 0),
        entry("Desktop.INI", false, 0),
        entry("~$b.docx", false, 0),
        entry("c.txt", false, 2),
        entry("d.txt", false, 4),
        entry("e", true, 0),
    ];
    assert_eq!(names(&scan_desktop_dir(&es, &t, false, false)), vec!["a.txt", "e"]);
    assert_eq!(names(&scan_desktop_dir(&es, &t, true, false)), vec!["a.txt", "c.txt", "e"]);
    assert_eq!(
        names(&scan_desktop_dir(&es, &t, true, true)),
        vec!["a.txt", "c.txt", "d.txt", "e"]
    );
}

#[test]
fn a_scanned_entry_has_its_extension_and_category() {
    let t = default_categories();
    let es = vec![entry("A.PNG", false, 0), entry(".png", false, 0), entry("x.png", true, 0)];
    let out = scan_desktop_dir(&es, &t, false, false);
    assert_eq!(out[0].ext, "png");
    assert_eq!(out[0].category, "图片");
    assert_eq!(out[0].mtime_ms, 7);
    assert_eq!(out[1].ext, "");
    assert_eq!(out[2].ext, "");
    assert_eq!(out[2].category, "文件夹");
}

fn listing(dir: &str, names: &[&str]) -> Listing {
    let entries = names
        .iter()
        .map(|n| RawEntry {
            name: n.to_string(),
            path: format!(r"{dir}\{n}"),
            is_dir: false,
            attrs: 0,
            mtime_ms: 7,
        })
        .collect();
    Listing { dir: dir.into(), entries }
}

#[test]
fn the_public_desktop_comes_second() {
    let t = default_categories();
    let mine = listing(r"C:\Users\x\Desktop", &["b.txt"]);
    let shared = listing(r"C:\Users\Public\Desktop", &["a.txt"]);
    let out = scan_desktop_raw(Some(&mine), Some(&shared), &t, false, false);
    assert_eq!(names(&out), vec!["b.txt", "a.txt"]);
    let out = scan_desktop_raw(Some(&mine), None, &t, false, false);
    assert_eq!(names(&out), vec!["b.txt"]);
    let out = scan_desktop_raw(None, Some(&shared), &t, false, false);
    assert_eq!(names(&out), vec!["a.txt"]);
    assert_eq!(scan_desktop_raw(None, None, &t, false, false).len(), 0);
    assert!(scan_public_too(Some(r"C:\Users\x"), r"C:\Users\Public"));
    assert!(!scan_public_too(Some(r"C:\USERS\Public"), r"c:\users\public"));
    assert!(scan_public_too(None, r"C:\Users\Public"));
}

#[test]
fn a_public_desktop_that_is_the_users_own_is_listed_once() {
    let t = default_categories();
    let mine = listing(r"C:\Users\Public\Desktop", &["a.txt", "b.txt"]);
    let shared = listing(r"c:\users\public\DESKTOP", &["a.txt", "b.txt"]);
    let out = scan_desktop_raw(Some(&mine), Some(&shared), &t, false, false);
    assert_eq!(names(&out), vec!["a.txt", "b.txt"]);
}

#[test]
fn of_two_files_of_one_name_the_users_is_shown() {
    let t = default_categories();
    let mine = listing(r"C:\u", &["Chrome.lnk", "z.txt"]);
    let shared = listing(r"C:\p", &["chrome.lnk", "b.url"]);
    let mut shown = TextMap::new();
    shown.insert(r"C:\u\Chrome.lnk".to_string(), "Chrome".to_string());
    shown.insert(r"C:\p\chrome.lnk".to_string(), "chrome".to_string());
    shown.insert(r"C:\p\b.url".to_string(), "B".to_string());
    let out = scan_desktop(Some(&mine), Some(&shared), &t, false, false, &shown);
    assert_eq!(names(&out), vec!["B", "Chrome", "z.txt"]);
    assert_eq!(out[1].path, r"C:\u\Chrome.lnk");
}

#[test]
fn each_display_name_is_kept_once_and_folders_come_first() {
    let t = default_categories();
    let es = vec![
        entry("b.lnk", false, 0),
        entry("a.lnk", false, 0),
        entry("B.url", false, 0),
        entry("z", true, 0),
    ];
    let mut files = scan_desktop_dir(&es, &t, false, false);
    let given: Vec<String> = ["b", "a", "B", "z"].map(str::to_string).to_vec();
    finalize_scan(&mut files, &given);
    assert_eq!(names(&files), vec!["z", "a", "b"]);
    assert_eq!(files[2].path, r"C:\d\b.lnk");
}

#[test]
fn a_known_name_wins_over_a_given_one() {
    let t = default_categories();
    let mut files = scan_desktop_dir(&vec![entry("b.lnk", false, 0)], &t, false, false);
    let mut known: TextMap<String> = TextMap::new();
    known.insert(r"C:\d\b.lnk".into(), "known".into());
    finalize_scan_with(&mut files, &known, &vec!["given".to_string()]);
    assert_eq!(names(&files), vec!["known"]);
}

#[test]
fn names_that_differ_in_case_alone_are_one() {
    let t = default_categories();
    let es = vec![entry("Ä", true, 0), entry("ä", true, 0)];
    let mut files = scan_desktop_dir(&es, &t, false, false);
    finalize_scan(&mut files, &vec!["Ä".to_string(), "ä".to_string()]);
    assert_eq!(names(&files), vec!["Ä"]);
    assert!(same_ignoring_case("AbC", "aBc"));
    assert!(!same_ignoring_case("Ä", "ä"));
}

#[test]
fn explorer_settings_are_on_at_one() {
    assert!(show_hidden_files(Some(1)));
    assert!(!show_hidden_files(Some(2)));
    assert!(!show_hidden_files(None));
    assert!(show_super_hidden(Some(1)));
    assert!(!show_super_hidden(Some(0)));
}

#[test]
fn work_is_shared_without_gaps() {
    for n in [0usize, 1, 3, 4, 5, 9, 100] {
        let parts = work_shares(n);
        assert!(parts.len() <= 4);
        let mut at = 0;
        for (a, b) in &parts {
            assert_eq!(*a, at);
            assert!(b >= a);
            at = *b;
        }
        assert_eq!(at, n);
    }
    assert_eq!(work_shares(5), vec![(0, 2), (2, 4), (4, 5), (5, 5)]);
    assert_eq!(work_shares(9), vec![(0, 3), (3, 6), (6, 9), (9, 9)]);
}

#[test]
fn files_the_program_removed_are_gone_at_once() {
    let mut desk = Desk {
        table: default_categories(),
        files: Vec::new(),
        fences: Vec::new(),
        deleted_at: TextMap::new(),
        epoch: 3,
    };
    let mut misses: TextMap<u32> = TextMap::new();
    mark_scan_removed(&mut desk, &mut misses, &vec!["C:\\a".to_string()]);
    assert_eq!(misses.get("C:\\a"), Some(&SCAN_MISS_DROP));
    assert_eq!(desk.epoch, 4);
}

#[test]
fn a_dirty_desktop_is_reported_once() {
    let mut dirty = true;
    assert!(take_desktop_dirty(&mut dirty));
    assert!(!take_desktop_dirty(&mut dirty));
}

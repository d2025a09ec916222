//! The icon cache, the wallpaper snapshots and what goes into them.

use deskfence::iconcache::{decode_cache, encode_cache};
use deskfence::model::FileItem;
use deskfence::snapshot::{expected_mtimes, icon_cache_snapshot, SAVE_LIMIT};
use deskfence::text_map::TextMap;
use deskfence::wallpaper::{
    capture_fallback_due, decode_wallpaper_cache, encode_wallpaper_cache, is_black_frame,
    px_differs, wallpaper_changed_under_fences, Area, WallpaperPixels,
};

fn file(path: &str, name: &str, mtime_ms: u64) -> FileItem {
    FileItem {
        name: name.into(),
        path: path.into(),
        is_dir: false,
        ext: "".into(),
        category: "其他".into(),
        mtime_ms,
    }
}

fn mtimes(v: &[(&str, u64)]) -> TextMap<u64> {
    let mut m = TextMap::new();
    for (k, t) in v {
        m.insert(k.to_string(), *t);
    }
    m
}

fn icon(px: usize, fill: u8) -> Vec<u8> {
    vec![fill; px * px * 4]
}

#[test]
fn a_written_icon_cache_is_read_back() {
    let entries = vec![
        ("C:\\桌\0".to_string() + "16", 5, icon(16, 1)),
        ("C:\\b\0".to_string() + "16", 6, icon(16, 2)),
    ];
    let names = vec![("C:\\桌".to_string(), "桌面".to_string())];
    let buf = encode_cache(&entries, &names, 16);
    let (icons, shown) = decode_cache(&buf, &mtimes(&[("C:\\桌", 5), ("C:\\b", 6)]));
    assert_eq!(icons.len(), 2);
    assert_eq!(icons.get("C:\\桌\016"), Some(&icon(16, 1)));
    assert_eq!(icons.get("C:\\b\016"), Some(&icon(16, 2)));
    assert_eq!(shown.get("C:\\桌"), Some(&"桌面".to_string()));
}

#[test]
fn stale_icons_are_left_out() {
    let entries = vec![
        ("C:\\a\0".to_string() + "16", 5, icon(16, 1)),
        ("C:\\b\0".to_string() + "32", 6, icon(16, 2)),
        ("C:\\c\0".to_string() + "16", 0, icon(16, 2)),
        ("C:\\d\0".to_string() + "16", 9, icon(16, 2)),
        ("C:\\e\0".to_string() + "16", 9, vec![0; 7]),
    ];
    let buf = encode_cache(&entries, &[], 16);
    let known = mtimes(&[("C:\\a", 4), ("C:\\b", 6), ("C:\\c", 0), ("C:\\e", 9)]);
    assert_eq!(decode_cache(&buf, &known).0.len(), 0);
}

#[test]
fn a_file_that_is_no_icon_cache_yields_nothing() {
    let good = encode_cache(&[("a\0".to_string() + "16", 5, icon(16, 1))], &[], 16);
    let known = mtimes(&[("a", 5)]);
    assert_eq!(decode_cache(&good, &known).0.len(), 1);
    for (at, byte) in [(0usize, b'X'), (4, 2), (8, 15), (9, 2)] {
        let mut bad = good.clone();
        bad[at] = byte;
        assert_eq!(decode_cache(&bad, &known).0.len(), 0, "{at}");
    }
    assert_eq!(decode_cache(&good[..11], &known).0.len(), 0);
    assert_eq!(decode_cache(&good[..good.len() - 20], &known).0.len(), 0);
    assert_eq!(decode_cache(&[], &known).0.len(), 0);
}

#[test]
fn an_icon_with_too_many_bytes_is_passed_over_alone() {
    let entries = vec![
        ("a\u{0}16".to_string(), 1, vec![0u8; 262145]),
        ("b\u{0}16".to_string(), 2, vec![7u8; 1024]),
    ];
    let buf = encode_cache(&entries, &[], 16);
    let (icons, shown) = decode_cache(&buf, &mtimes(&[("a", 1), ("b", 2)]));
    assert_eq!(icons.len(), 1);
    assert_eq!(icons.get("b\u{0}16"), Some(&vec![7u8; 1024]));
    assert_eq!(shown.len(), 0);

    let names = vec![("b".to_string(), "B".to_string())];
    let buf = encode_cache(&entries, &names, 16);
    let (icons, shown) = decode_cache(&buf, &mtimes(&[("a", 1), ("b", 2)]));
    assert_eq!(icons.len(), 1);
    assert_eq!(shown.len(), 1);
    assert_eq!(shown.get("b"), Some(&"B".to_string()));
}

#[test]
fn an_icon_with_a_key_of_no_or_too_many_bytes_is_passed_over_alone() {
    let long = "k".repeat(1022);
    let entries = vec![
        (format!("{long}\u{0}16"), 1, icon(16, 1)),
        (String::new(), 1, icon(16, 2)),
        (format!("{}\u{0}16", &long[..1021]), 3, icon(16, 3)),
        ("b\u{0}16".to_string(), 2, icon(16, 4)),
    ];
    let names = vec![("b".to_string(), "B".to_string())];
    let buf = encode_cache(&entries, &names, 16);
    let known = mtimes(&[(&long, 1), (&long[..1021], 3), ("b", 2)]);
    let (icons, shown) = decode_cache(&buf, &known);
    assert_eq!(icons.len(), 2);
    assert_eq!(icons.get(&format!("{}\u{0}16", &long[..1021])), Some(&icon(16, 3)));
    assert_eq!(icons.get("b\u{0}16"), Some(&icon(16, 4)));
    assert_eq!(shown.get("b"), Some(&"B".to_string()));
}

#[test]
fn a_name_with_too_many_bytes_is_passed_over_alone() {
    let names = vec![
        ("p".repeat(1025), "long path".to_string()),
        ("p".repeat(1024), "path".to_string()),
        ("q".to_string(), "n".repeat(513)),
        ("r".to_string(), "n".repeat(512)),
        (String::new(), "no path".to_string()),
        ("s".to_string(), "S".to_string()),
    ];
    let buf = encode_cache(&[], &names, 16);
    let (_, shown) = decode_cache(&buf, &mtimes(&[]));
    assert_eq!(shown.len(), 3);
    assert_eq!(shown.get(&"p".repeat(1024)), Some(&"path".to_string()));
    assert_eq!(shown.get("r"), Some(&"n".repeat(512)));
    assert_eq!(shown.get("s"), Some(&"S".to_string()));
}

#[test]
fn reading_stops_at_an_entry_that_is_not_whole() {
    let entries = vec![
        ("a\u{0}16".to_string(), 1, icon(16, 1)),
        ("b\u{0}16".to_string(), 2, icon(16, 2)),
    ];
    let buf = encode_cache(&entries, &[], 16);
    let cut = &buf[..buf.len() - 9];
    let (icons, _) = decode_cache(cut, &mtimes(&[("a", 1), ("b", 2)]));
    assert_eq!(icons.len(), 1);
    assert_eq!(icons.get("a\u{0}16"), Some(&icon(16, 1)));
}

#[test]
fn a_name_that_is_not_utf8_is_read_lossily() {
    let mut buf = encode_cache(&[], &[("ab".to_string(), "cd".to_string())], 16);
    let n = buf.len();
    buf[n - 1] = 0xff;
    let (_, shown) = decode_cache(&buf, &mtimes(&[]));
    assert_eq!(shown.get("ab"), Some(&String::from_utf8_lossy(b"c\xff").into_owned()));
}

#[test]
fn only_icons_of_known_files_are_saved() {
    let files = vec![file("C:\\a", "A", 5), file("C:\\b", "B", 0)];
    let icons = vec![
        ("C:\\a\0".to_string() + "16", icon(16, 1)),
        ("C:\\a\0".to_string() + "32", icon(32, 1)),
        ("C:\\b\0".to_string() + "16", icon(16, 1)),
        ("C:\\c\0".to_string() + "16", icon(16, 1)),
        ("C:\\a".to_string(), icon(16, 1)),
    ];
    let (kept, names) = icon_cache_snapshot(&icons, &files, 16).unwrap();
    assert_eq!(kept.len(), 1);
    assert_eq!(kept[0], ("C:\\a\0".to_string() + "16", 5, icon(16, 1)));
    assert_eq!(names[1], ("C:\\b".to_string(), "B".to_string()));
    assert!(icon_cache_snapshot(&Vec::new(), &files, 16).is_none());
}

#[test]
fn of_too_many_icons_the_newest_are_saved() {
    let n = SAVE_LIMIT + 3;
    let files: Vec<FileItem> = (0..n).map(|i| file(&format!("f{i}"), "x", (n - i) as u64)).collect();
    let icons: Vec<(String, Vec<u8>)> = (0..n).map(|i| (format!("f{i}\x001"), vec![0; 4])).collect();
    let (kept, _) = icon_cache_snapshot(&icons, &files, 1).unwrap();
    assert_eq!(kept.len(), SAVE_LIMIT);
    assert!(kept.iter().all(|k| k.1 > 3));
    assert!(kept.windows(2).all(|w| w[0].1 <= w[1].1));
}

#[test]
fn a_saved_icon_is_taken_again() {
    let files = vec![file("C:\\a", "A", 5)];
    let icons = vec![("C:\\a\0".to_string() + "16", icon(16, 9))];
    let (kept, names) = icon_cache_snapshot(&icons, &files, 16).unwrap();
    let buf = encode_cache(&kept, &names, 16);
    let (again, shown) = decode_cache(&buf, &expected_mtimes(&files));
    assert_eq!(again.get("C:\\a\016"), Some(&icon(16, 9)));
    assert_eq!(shown.get("C:\\a"), Some(&"A".to_string()));
}

fn cap(w: u32, h: u32, x: i32, y: i32, fill: u8) -> WallpaperPixels {
    WallpaperPixels { px: vec![fill; (w * h * 4) as usize], w, h, origin_x: x, origin_y: y }
}

#[test]
fn written_snapshots_are_read_back() {
    let caps = vec![cap(2, 3, -1920, 0, 7), cap(1, 1, 5, i32::MIN, 8)];
    let buf = encode_wallpaper_cache(&caps);
    let again = decode_wallpaper_cache(&buf).unwrap();
    assert_eq!(again.len(), 2);
    for (a, b) in again.iter().zip(&caps) {
        assert_eq!((&a.px, a.w, a.h, a.origin_x, a.origin_y), (&b.px, b.w, b.h, b.origin_x, b.origin_y));
    }
}

#[test]
fn broken_snapshots_yield_nothing() {
    let buf = encode_wallpaper_cache(&vec![cap(2, 3, 0, 0, 7)]);
    assert!(decode_wallpaper_cache(&buf[..buf.len() - 1]).is_none());
    assert!(decode_wallpaper_cache(&[]).is_none());
    assert!(decode_wallpaper_cache(&encode_wallpaper_cache(&Vec::new())).is_none());
    let mut bad = buf.clone();
    bad[0] = 0;
    assert!(decode_wallpaper_cache(&bad).is_none());
    let mut version = buf.clone();
    version[4] = 2;
    assert!(decode_wallpaper_cache(&version).is_none());
    let mut width = buf;
    width[20] = 3;
    assert!(decode_wallpaper_cache(&width).is_none());
}

#[test]
fn black_frames_are_told() {
    let black: Vec<u8> = [0u8, 0, 0, 255].repeat(100 * 100);
    assert!(is_black_frame(&black, 100, 100));
    assert!(!is_black_frame(&black, 64, 100));
    assert!(!is_black_frame(&[], 100, 100));
    let mut spot = black.clone();
    spot[4 * 4095] = 1;
    assert!(!is_black_frame(&spot, 100, 100));
    let mut late = black;
    late[4 * 4096] = 1;
    assert!(is_black_frame(&late, 100, 100));
}

#[test]
fn precise_rendering_is_given_up_late() {
    assert!(capture_fallback_due(false, 2, 10_001));
    assert!(!capture_fallback_due(true, 2, 10_001));
    assert!(!capture_fallback_due(false, 1, 10_001));
    assert!(!capture_fallback_due(false, 2, 10_000));
}

#[test]
fn small_differences_of_brightness_do_not_count() {
    assert!(!px_differs(&[10, 10, 10, 0], &[18, 2, 10, 255]));
    assert!(px_differs(&[10, 10, 10, 0], &[19, 10, 10, 0]));
    assert!(px_differs(&[10, 10, 10, 0], &[]));
}

#[test]
fn only_changes_under_a_fence_count() {
    let was = vec![cap(10, 10, 100, 100, 50)];
    let mut now = vec![cap(10, 10, 100, 100, 50)];
    now[0].px[4 * (3 * 10 + 4)] = 250;
    let over = Area { x: 104, y: 103, w: 1, h: 1 };
    let beside = Area { x: 105, y: 103, w: 3, h: 3 };
    assert!(wallpaper_changed_under_fences(&was, &now, &vec![over]));
    assert!(!wallpaper_changed_under_fences(&was, &now, &vec![beside]));
    assert!(wallpaper_changed_under_fences(&was, &now, &vec![beside, over]));
    assert!(wallpaper_changed_under_fences(&was, &now, &Vec::new()));
    assert!(!wallpaper_changed_under_fences(&was, &was, &Vec::new()));
    assert!(wallpaper_changed_under_fences(&was, &Vec::new(), &vec![beside]));
    assert!(wallpaper_changed_under_fences(&was, &vec![cap(10, 10, 101, 100, 50)], &vec![beside]));
}

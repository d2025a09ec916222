//! Texts, maps keyed by texts, bytes and UTF-16.

use deskfence::bytes::{copy_bytes, has_magic, put_bytes, put_num, read_num};
use deskfence::paths::{
    config_path, icon_cache_path, icons_marker_path, join_path, settings_path, usage_path,
    wallpaper_cache_path,
};
use deskfence::text::{
    chars_of, decimal_string, ends_with, has_text, is_control, is_digit, is_whitespace, join,
    join2, len_before, own, padded_string, parse_i32, parse_u32, position_of, same, string_of,
    trim,
};
use deskfence::text_map::TextMap;
use deskfence::utf16::{multistring, push_text, text_in, wide};

fn texts<const N: usize>(v: [&str; N]) -> Vec<String> {
    v.map(str::to_string).to_vec()
}

#[test]
fn white_space_and_control_characters_are_those_of_unicode() {
    for n in 0..0x11_0000u32 {
        if let Some(c) = char::from_u32(n) {
            assert_eq!(is_whitespace(c), c.is_whitespace(), "{n:x}");
            assert_eq!(is_control(c), c.is_control(), "{n:x}");
            assert_eq!(is_digit(c), c.is_ascii_digit(), "{n:x}");
        }
    }
}

#[test]
fn trimmed_as_the_standard_library_does() {
    for s in ["", " ", "a", "  a b\t\n", "\u{3000}文\u{a0}", "\u{200b}x"] {
        assert_eq!(trim(s), s.trim());
    }
}

#[test]
fn pieces_of_texts() {
    assert!(same("文a", "文a"));
    assert!(!same("a", "b"));
    assert_eq!(own("x"), "x");
    assert_eq!(join2("a", "文"), "a文");
    let v = chars_of("a.b.文");
    assert_eq!(v.len(), 5);
    assert_eq!(string_of(&v, 2, 5), "b.文");
    assert_eq!(len_before(&v, '.'), 1);
    assert_eq!(len_before(&v, 'z'), 5);
    assert!(ends_with(&v, &chars_of(".文")));
    assert!(!ends_with(&v, &chars_of("a")));
    assert_eq!(position_of(&texts(["a", "b", "b"]), "b"), Some(1));
    assert!(!has_text(&texts(["a"]), "b"));
    assert_eq!(join(&texts(["a", "b", "c"]), ";"), "a;b;c");
    assert_eq!(join(&Vec::new(), ";"), "");
}

#[test]
fn numbers_in_texts() {
    assert_eq!(decimal_string(0), "0");
    assert_eq!(decimal_string(u64::MAX), u64::MAX.to_string());
    assert_eq!(padded_string(7, 2), "07");
    assert_eq!(padded_string(2026, 2), "2026");
    for s in ["0", "7", "+7", "-7", "-0", "", "-", "+", "4294967295", "4294967296", "1a", " 1", "00012"] {
        assert_eq!(parse_u32(s), s.parse::<u32>().ok(), "{s}");
    }
    for s in ["0", "7", "+7", "-7", "", "-", "2147483647", "2147483648", "-2147483648", "-2147483649", "x"] {
        assert_eq!(parse_i32(s), s.parse::<i32>().ok(), "{s}");
    }
}

#[test]
fn a_map_holds_the_last_value_of_a_key() {
    let mut m: TextMap<u32> = TextMap::new();
    m.insert("a".into(), 1);
    m.insert("b".into(), 2);
    m.insert("a".into(), 3);
    assert_eq!(m.len(), 2);
    assert_eq!(m.get("a"), Some(&3));
    assert!(m.remove("a"));
    assert!(!m.remove("a"));
    assert!(!m.contains_key("a"));
    m.insert("c".into(), 4);
    m.retain_keys(&texts(["c", "x"]));
    assert_eq!(m.entries().len(), 1);
    assert_eq!(m.entries()[0], ("c".to_string(), 4));
}

#[test]
fn numbers_in_bytes_are_little_endian() {
    let mut out: Vec<u8> = Vec::new();
    put_num(&mut out, 0x0102_0304, 4);
    assert_eq!(out, vec![4, 3, 2, 1]);
    put_num(&mut out, u64::MAX, 8);
    assert_eq!(read_num(&out, 0, 4), 0x0102_0304);
    assert_eq!(read_num(&out, 4, 8), u64::MAX);
    put_bytes(&mut out, b"DFWP");
    assert!(has_magic(&out, 12, b'D', b'F', b'W', b'P'));
    assert_eq!(copy_bytes(&out, 13, 2), b"FW");
}

#[test]
fn wide_texts_are_those_of_the_standard_library() {
    for s in ["", "abc", "桌面", "a😀b", "\u{ffff}\u{10000}\u{10ffff}"] {
        let mut expect: Vec<u16> = s.encode_utf16().collect();
        let mut out: Vec<u16> = Vec::new();
        push_text(&mut out, &chars_of(s));
        assert_eq!(out, expect);
        expect.push(0);
        assert_eq!(wide(s), expect);
        assert_eq!(text_in(&expect), s);
    }
}

#[test]
fn a_buffer_is_read_up_to_its_first_zero() {
    assert_eq!(text_in(&vec![97, 98, 0, 99]), "ab");
    assert_eq!(text_in(&vec![]), "");
    let broken = vec![97, 0xd800, 98];
    assert_eq!(text_in(&broken), String::from_utf16_lossy(&broken));
}

#[test]
fn lists_of_paths_end_in_two_zeros() {
    assert_eq!(multistring(&texts(["a", "b"])), vec![97, 0, 98, 0, 0]);
    assert_eq!(multistring(&Vec::new()), vec![0]);
}

#[test]
fn the_files_of_the_program() {
    assert_eq!(join_path(r"C:\x", "a.txt"), r"C:\x\a.txt");
    assert_eq!(join_path(r"C:\x\", "a.txt"), r"C:\x\a.txt");
    assert_eq!(join_path("C:", "a.txt"), "C:a.txt");
    assert_eq!(join_path("", "a.txt"), "a.txt");
    assert_eq!(config_path("d"), r"d\config.json");
    assert_eq!(settings_path("d"), r"d\settings.json");
    assert_eq!(usage_path("d"), r"d\usage.json");
    assert_eq!(icons_marker_path("d"), r"d\icons_marker.json");
    assert_eq!(icon_cache_path("d"), r"d\iconcache.bin");
    assert_eq!(wallpaper_cache_path("d"), r"d\wallpaper.bin");
}

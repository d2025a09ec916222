//! Pictures of icons and windows, and what the system tells in buffers.

use deskfence::pictures::{bmp_file, capture_size, captured_pixels, shell_image};
use deskfence::system::{desktop_icon_font, invoked_command, parse_hdrop, IconFont};
use deskfence::utf16::wide;

#[test]
fn a_bitmap_file_has_its_head_and_its_pixels() {
    let px: Vec<u8> = (0..24).collect();
    let f = bmp_file(&px, 2, 3);
    assert_eq!(&f[..2], b"BM");
    assert_eq!(u32::from_le_bytes([f[2], f[3], f[4], f[5]]), 78);
    assert_eq!(f.len(), 78);
    assert_eq!(u32::from_le_bytes([f[10], f[11], f[12], f[13]]), 54);
    assert_eq!(u32::from_le_bytes([f[14], f[15], f[16], f[17]]), 40);
    assert_eq!(i32::from_le_bytes([f[18], f[19], f[20], f[21]]), 2);
    assert_eq!(i32::from_le_bytes([f[22], f[23], f[24], f[25]]), -3);
    assert_eq!(&f[26..34], &[1, 0, 32, 0, 0, 0, 0, 0]);
    assert_eq!(u32::from_le_bytes([f[34], f[35], f[36], f[37]]), 24);
    assert_eq!(u32::from_le_bytes([f[38], f[39], f[40], f[41]]), 2835);
    assert_eq!(&f[54..], &px[..]);
}

#[test]
fn the_shell_packs_an_image_into_a_number() {
    assert!(shell_image(-1).is_none());
    let i = shell_image(0x0300_0007).unwrap();
    assert_eq!((i.index, i.overlay, i.draw_flags), (7, 3, 0x301));
    let plain = shell_image(42).unwrap();
    assert_eq!((plain.index, plain.overlay, plain.draw_flags), (42, 0, 1));
}

#[test]
fn windows_are_captured_up_to_a_size() {
    assert_eq!(capture_size(10, 20, 110, 70), Ok((100, 50)));
    assert_eq!(capture_size(10, 20, 10, 5), Ok((1, 1)));
    assert_eq!(capture_size(0, 0, 16384, 16384), Ok((16384, 16384)));
    assert_eq!(capture_size(0, 0, 16385, 2), Err("bad rect 16385x2".to_string()));
}

#[test]
fn nothing_shines_through_a_captured_window() {
    let got = captured_pixels(Ok(vec![1, 2, 3, 0, 5, 6, 7, 8, 9]));
    assert_eq!(got, Ok(vec![1, 2, 3, 255, 5, 6, 7, 255, 9]));
    assert_eq!(captured_pixels(Err(5)), Err("PrintWindow false err=5".to_string()));
}

#[test]
fn the_font_of_the_icons_has_a_fallback() {
    assert_eq!(desktop_icon_font(None), ("Segoe UI".to_string(), 12, 400));
    let f = IconFont { face: wide("Consolas"), height: -15, weight: 700 };
    assert_eq!(desktop_icon_font(Some(&f)), ("Consolas".to_string(), 15, 700));
    let nameless = IconFont { face: vec![0, 65], height: 100, weight: 1 };
    assert_eq!(desktop_icon_font(Some(&nameless)), ("Segoe UI".to_string(), 48, 1));
}

#[test]
fn a_command_is_named_or_numbered() {
    assert_eq!(invoked_command(Some(&wide("Delete")), 3), ("Delete".to_string(), true));
    assert_eq!(invoked_command(Some(&wide("open")), 3), ("open".to_string(), false));
    assert_eq!(invoked_command(None, 17), ("#17".to_string(), false));
}

#[test]
fn empty_entries_are_not_dropped() {
    let units = |s: &str| s.encode_utf16().collect::<Vec<u16>>();
    let entries = vec![units("C:\\a"), Vec::new(), units("C:\\\u{6587}")];
    assert_eq!(parse_hdrop(&entries), vec!["C:\\a".to_string(), "C:\\\u{6587}".to_string()]);
}

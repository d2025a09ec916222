//! Where a fence is placed among the other windows.

use deskfence::hosts::{
    bad_anchor_clear, bad_anchor_mark, bad_anchor_recent, band_aux, band_invisible,
    drag_elevate_anchor, host_for_rect, hosts_are_fresh, is_own_fence_window, refresh_hosts,
    resolve_band_anchor, AnchorWindow, BadAnchors, Host, Sides, VirtualScreen, BAD_ANCHOR_TTL_MS,
    CATS_PANEL_CLASS, DEFAULT_IME_CLASS, EDGEUI_CLASS, FENCE_CLASS, GENERIC_IME_CLASS, MENU_CLASS,
    MSCTFIME_CLASS, SOBS_HINT_CLASS, SOBS_UI_CLASS, SOIME_TSF_CLASS, TRAY_CLASS,
};
use deskfence::utf16::wide;

const HOST: isize = 1;
const FENCE: isize = 2;

fn window(handle: isize) -> AnchorWindow {
    AnchorWindow {
        handle,
        own: false,
        invisible: false,
        auxiliary: false,
        topmost: false,
        bad: false,
    }
}

fn padding(handle: isize) -> AnchorWindow {
    AnchorWindow { invisible: true, ..window(handle) }
}

fn anchor<const N: usize>(windows: [AnchorWindow; N]) -> Option<isize> {
    resolve_band_anchor(HOST, FENCE, &windows.to_vec())
}

#[test]
fn shallow_visible_window_is_hard_boundary() {
    assert_eq!(anchor([window(3), padding(4), window(5)]), Some(3));
}

#[test]
fn bad_visible_anchor_uses_only_preceding_padding() {
    let bad = AnchorWindow { bad: true, ..window(4) };
    assert_eq!(anchor([padding(3), bad, padding(5), window(6)]), Some(3));
}

#[test]
fn bad_anchor_without_safe_padding_returns_none() {
    let bad = AnchorWindow { bad: true, ..window(3) };
    assert_eq!(anchor([bad, window(HOST), padding(4)]), None);
}

#[test]
fn host_boundary_cannot_be_crossed_or_used_as_anchor() {
    assert_eq!(anchor([window(HOST), padding(3)]), None);
    assert_eq!(anchor([padding(3), window(HOST), padding(4)]), Some(3));
}

#[test]
fn topmost_boundary_returns_only_non_topmost_padding() {
    for invisible in [false, true] {
        let topmost = AnchorWindow { topmost: true, invisible, ..window(4) };
        assert_eq!(anchor([padding(3), topmost, window(5)]), Some(3));
    }
}

#[test]
fn topmost_without_padding_has_no_anchor() {
    let topmost = AnchorWindow { topmost: true, ..window(3) };
    assert_eq!(anchor([topmost, padding(4)]), None);
}

#[test]
fn self_is_excluded_from_every_candidate_kind() {
    for own in [false, true] {
        for invisible in [false, true] {
            let me = AnchorWindow { own, invisible, ..window(FENCE) };
            assert_eq!(anchor([me]), None);
            assert_eq!(anchor([me, window(3)]), Some(3));
        }
    }
}

#[test]
fn bad_padding_and_bad_siblings_are_never_returned() {
    let bad_padding = AnchorWindow { bad: true, ..padding(4) };
    let bad_sibling = AnchorWindow { own: true, bad: true, ..window(5) };
    assert_eq!(anchor([padding(3), bad_padding, bad_sibling]), Some(3));
    assert_eq!(anchor([bad_padding, bad_sibling]), None);
}

#[test]
fn safe_sibling_is_fallback_below_bad_visible_window() {
    let sibling = AnchorWindow { own: true, ..window(3) };
    let bad = AnchorWindow { bad: true, ..window(4) };
    assert_eq!(anchor([sibling, bad, padding(5)]), Some(3));
}

#[test]
fn retry_after_blacklisting_stays_below_original_boundary() {
    let first = window(4);
    assert_eq!(anchor([padding(3), first, window(5)]), Some(4));
    let rejected = AnchorWindow { bad: true, ..first };
    assert_eq!(anchor([padding(3), rejected, window(5)]), Some(3));
    let rejected_padding = AnchorWindow { bad: true, ..padding(3) };
    assert_eq!(anchor([rejected_padding, rejected, window(5)]), None);
}

#[test]
fn adjacent_visible_blocker_remains_a_lowering_anchor() {
    let me = AnchorWindow { own: true, ..window(FENCE) };
    assert_eq!(anchor([window(3), me]), Some(3));
}

#[test]
fn cats_panel_class_encoding_matches_registered_name() {
    let expect: Vec<u16> = "DeskFenceCatsPanel".encode_utf16().collect();
    let mut class = wide(CATS_PANEL_CLASS);
    assert_eq!(class.pop(), Some(0));
    assert_eq!(class, expect);
}

#[test]
fn refused_anchors_are_remembered_for_a_while() {
    let mut bad = BadAnchors { entries: Vec::new() };
    bad_anchor_mark(&mut bad, 7, 1_000);
    assert!(bad_anchor_recent(&bad, 7, 1_000));
    assert!(!bad_anchor_recent(&bad, 8, 1_000));
    assert!(bad_anchor_recent(&bad, 7, 999 + BAD_ANCHOR_TTL_MS));
    assert!(!bad_anchor_recent(&bad, 7, 1_001 + BAD_ANCHOR_TTL_MS));
}

#[test]
fn a_cleared_anchor_is_forgotten_and_the_others_stay() {
    let mut bad = BadAnchors { entries: Vec::new() };
    bad_anchor_mark(&mut bad, 7, 1_000);
    bad_anchor_mark(&mut bad, 8, 2_000);
    bad_anchor_clear(&mut bad, 7, 2_000);
    assert!(!bad_anchor_recent(&bad, 7, 2_000));
    assert!(bad_anchor_recent(&bad, 8, 2_000));
}

#[test]
fn a_dragged_fence_rises_to_the_highest_other_fence() {
    assert_eq!(drag_elevate_anchor(5, &vec![(9, true), (5, true), (4, true)]), Some(4));
    assert_eq!(drag_elevate_anchor(5, &vec![(9, true), (6, false), (4, true)]), Some(9));
    assert_eq!(drag_elevate_anchor(5, &vec![(5, true)]), None);
    assert_eq!(drag_elevate_anchor(5, &Vec::new()), None);
}

const SCREEN: VirtualScreen = VirtualScreen { x: 0, y: 0, w: 1920, h: 1080 };

#[test]
fn windows_that_nobody_sees_are_padding() {
    let seen = Sides { left: 10, top: 10, right: 500, bottom: 400 };
    assert!(!band_invisible(Some(seen), false, true, false, SCREEN));
    assert!(band_invisible(Some(seen), true, true, false, SCREEN));
    assert!(band_invisible(Some(seen), false, false, false, SCREEN));
    assert!(band_invisible(Some(seen), false, true, true, SCREEN));
    let off = Sides { left: 5000, top: 10, right: 5500, bottom: 400 };
    assert!(band_invisible(Some(off), false, true, false, SCREEN));
}

#[test]
fn helper_windows_are_told_by_their_class() {
    assert!(band_aux(true, "anything"));
    assert!(band_aux(false, "#32768"));
    assert!(band_aux(false, "Shell_TrayWnd"));
    for name in [
        MENU_CLASS,
        TRAY_CLASS,
        EDGEUI_CLASS,
        MSCTFIME_CLASS,
        DEFAULT_IME_CLASS,
        GENERIC_IME_CLASS,
        SOIME_TSF_CLASS,
        SOBS_UI_CLASS,
        SOBS_HINT_CLASS,
        CATS_PANEL_CLASS,
    ] {
        assert!(band_aux(false, name), "{name}");
    }
    assert_eq!(wide(SOBS_HINT_CLASS), [0x53, 0x6F, 0x42, 0x53, 0x5F, 0x48, 0x69, 0x6E, 0x74, 0]);
    assert!(!band_aux(false, "Notepad"));
    assert!(is_own_fence_window(FENCE_CLASS));
    assert!(!is_own_fence_window("Notepad"));
}

#[test]
fn the_shell_joins_the_hosts_and_primary_ones_come_first() {
    let found = vec![Host { handle: 4, primary: false, visible: true }];
    let all = refresh_hosts(found, 9, true);
    assert_eq!(all.iter().map(|h| h.handle).collect::<Vec<_>>(), vec![9, 4]);
    let again = refresh_hosts(all, 9, true);
    assert_eq!(again.len(), 2);
    assert_eq!(refresh_hosts(Vec::new(), 0, true).len(), 0);
    let alone = refresh_hosts(Vec::new(), 9, true);
    assert_eq!(alone.len(), 1);
    assert_eq!(alone[0].handle, 9);
}

#[test]
fn a_fence_goes_to_the_host_it_stands_in() {
    let hosts = vec![
        Host { handle: 4, primary: true, visible: true },
        Host { handle: 5, primary: false, visible: true },
    ];
    assert_eq!(host_for_rect(&hosts, &vec![false, true]), Some(1));
    assert_eq!(host_for_rect(&hosts, &vec![true, true]), Some(0));
    assert_eq!(host_for_rect(&hosts, &vec![false, false]), None);
    assert_eq!(host_for_rect(&Vec::new(), &Vec::new()), None);
}

#[test]
fn found_hosts_are_kept_for_a_moment() {
    assert!(hosts_are_fresh(999));
    assert!(!hosts_are_fresh(1000));
}

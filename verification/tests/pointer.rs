//! Selecting, dragging and the keys.

use deskfence::drag::{
    edges_of, handle_lbuttondown, handle_setcursor, is_edge, is_farther, line_cell,
    rollback_ghost_preview, update_ghost_preview, DragMode, Place, Press, Span, Ui,
};
use deskfence::grid::{layout, Hit, Layout};
use deskfence::keys::{
    arrow_of, dispatch_file_key, ghost_name, handle_rbuttonup, handle_wheel, nudge_fence,
    on_fence_drop_cb, open_item, overlay_shown, retain_arrivals, unpack_key, Arrival, ContextMenu,
    Dropped, KeyAction, VK_A, VK_C, VK_DELETE, VK_DOWN, VK_ESCAPE, VK_F2, VK_LEFT, VK_RETURN,
    VK_RIGHT, VK_V,
};
use deskfence::model::{default_categories, default_sort_mode, recycle_bin_item, Fence, FileItem};
use deskfence::motion::{
    clear_hover, drag_render_due, handle_mousemove, hover_delay_ms, line_up, scroll_to, show_line, track_hover,
    Hover, HoverTimer, LineUp, Motion, Moved,
};
use deskfence::release::{
    assign_to_fence, find_drop_target, handle_dblclk, handle_lbuttonup,
    release_on_recycle_bin_screen, take_pending_open, Landing, Release, Released,
};
use deskfence::selection::{
    add_text, chosen_items, item_paths, item_position, over_bin, press_blank, press_item,
    right_click_item, select_all, select_in_marquee, step_selection, Arrow, Selection,
};
use deskfence::usage::{usage_of, UsageStore};

fn texts<const N: usize>(v: [&str; N]) -> Vec<String> {
    v.map(str::to_string).to_vec()
}

fn fence(id: u32) -> Fence {
    Fence {
        id,
        title: "t".into(),
        category: "图片".into(),
        pinned: Vec::new(),
        item_order: Vec::new(),
        collapsed: false,
        scroll_rows: 0,
        locked: false,
        hidden: false,
        manual_size: false,
        sort_mode: default_sort_mode(),
    }
}

fn file(path: &str) -> FileItem {
    FileItem {
        name: path.to_uppercase(),
        path: path.into(),
        is_dir: false,
        ext: "".into(),
        category: "图片".into(),
        mtime_ms: 0,
    }
}

fn items<const N: usize>(v: [&str; N]) -> Vec<FileItem> {
    v.map(file).into_iter().collect()
}

fn bin() -> FileItem {
    recycle_bin_item(&default_categories())
}

// ---------------------------------------------------------------- selection

#[test]
fn presses_select() {
    let it = items(["a", "b", "c", "d"]);
    let mut s = Selection::new();
    press_item(&mut s, &it, 1, false, false);
    assert_eq!(s.paths, texts(["b"]));
    press_item(&mut s, &it, 3, false, true);
    assert_eq!(s.paths, texts(["b", "c", "d"]));
    assert_eq!(s.anchor.as_deref(), Some("b"));
    assert_eq!(s.focused.as_deref(), Some("d"));
    press_item(&mut s, &it, 0, true, true);
    assert_eq!(s.paths, texts(["b", "c", "d", "a"]));
    press_item(&mut s, &it, 2, false, false);
    assert_eq!(s.paths, texts(["c"]));
}

#[test]
fn ctrl_pressed_twice_undoes_itself() {
    let it = items(["a", "b", "c"]);
    let mut s = Selection::new();
    press_item(&mut s, &it, 0, false, false);
    press_item(&mut s, &it, 2, true, false);
    assert_eq!(s.paths, texts(["a", "c"]));
    press_item(&mut s, &it, 2, true, false);
    assert_eq!(s.paths, texts(["a"]));
}

#[test]
fn an_empty_place_clears_the_selection() {
    let it = items(["a", "b"]);
    let mut s = Selection::new();
    select_all(&mut s, &it);
    assert_eq!(s.paths, item_paths(&it));
    press_blank(&mut s, true);
    assert_eq!(s.paths.len(), 2);
    press_blank(&mut s, false);
    assert!(s.paths.is_empty() && s.focused.is_none() && s.anchor.is_none());
}

#[test]
fn a_rectangle_selects_what_it_holds() {
    let it = items(["a", "b", "c"]);
    let mut s = Selection::new();
    select_in_marquee(&mut s, &it, &vec![1, 2, 9], false);
    assert_eq!(s.paths, texts(["b", "c"]));
    assert_eq!(s.focused.as_deref(), Some("b"));
    select_in_marquee(&mut s, &it, &vec![0, 1], true);
    assert_eq!(s.paths, texts(["b", "c", "a"]));
}

#[test]
fn a_right_click_keeps_a_selection_that_holds_the_item() {
    let mut s = Selection { paths: texts(["a", "b"]), focused: None, anchor: None };
    assert_eq!(right_click_item(&mut s, "b"), texts(["a", "b"]));
    assert_eq!(right_click_item(&mut s, "c"), texts(["c"]));
    assert_eq!(s.paths, texts(["c"]));
}

#[test]
fn arrows_move_through_the_cells() {
    let it = items(["a", "b", "c", "d", "e"]);
    let lay = layout(&fence(1), 2, 3, 5);
    let mut s = Selection::new();
    assert!(!step_selection(&mut s, &it, &lay, Arrow::Right, false));
    press_item(&mut s, &it, 0, false, false);
    assert!(step_selection(&mut s, &it, &lay, Arrow::Right, false));
    assert_eq!(s.paths, texts(["b"]));
    assert!(step_selection(&mut s, &it, &lay, Arrow::Down, true));
    assert_eq!(s.paths, texts(["b", "c", "d"]));
    assert!(step_selection(&mut s, &it, &lay, Arrow::Up, false));
    assert_eq!(s.paths, texts(["b"]));
    assert!(step_selection(&mut s, &it, &lay, Arrow::Left, false));
    assert!(step_selection(&mut s, &it, &lay, Arrow::Left, false));
    assert_eq!(s.paths, texts(["a"]));
}

#[test]
fn small_helpers_of_the_selection() {
    let it = items(["a", "b"]);
    let mut v = texts(["a"]);
    add_text(&mut v, "a");
    add_text(&mut v, "b");
    assert_eq!(v, texts(["a", "b"]));
    assert_eq!(chosen_items(&it, &texts(["b", "x"])), texts(["b"]));
    assert_eq!(item_position(&it, "b"), Some(1));
    assert_eq!(item_position(&it, "x"), None);
    let with_bin = vec![bin()];
    assert!(over_bin(Hit::Icon(0), &with_bin));
    assert!(!over_bin(Hit::Icon(1), &with_bin));
    assert!(!over_bin(Hit::Icon(0), &it));
    assert!(!over_bin(Hit::Blank, &with_bin));
}

// ---------------------------------------------------------------- dragging

/// The place `(x, y)` in a fence that stands at `(100, 200)`.
fn place(x: i32, y: i32) -> Place {
    Place { x, y, screen_x: x + 100, screen_y: y + 200 }
}

fn press(ui: &mut Ui, fences: &Vec<Fence>, it: &Vec<FileItem>, hit: Hit) -> Press {
    handle_lbuttondown(ui, fences, 1, it, hit, true, false, false, place(10, 10))
}

fn moved(now_ms: u64) -> Moved {
    Moved { now_ms, at: place(40, 50), inside: true }
}

fn released(now_ms: u64) -> Release {
    Release {
        now_ms,
        double_click_ms: 500,
        inside: true,
        at: place(40, 50),
        ctrl: false,
        auto_align: false,
        slot_here: false,
    }
}

#[test]
fn a_press_starts_the_drag_of_what_it_hits() {
    let fences = vec![fence(1)];
    let it = items(["a", "b"]);
    let mut ui = Ui::new();
    assert!(press(&mut ui, &fences, &it, Hit::Title) == Press::Dragging);
    assert!(ui.drag.as_ref().unwrap().mode == DragMode::Move);
    assert_eq!(ui.active_fence, Some(1));
    press(&mut ui, &fences, &it, Hit::EdgeW);
    assert!(ui.drag.as_ref().unwrap().mode == DragMode::Resize(Hit::EdgeW));
    press(&mut ui, &fences, &it, Hit::Icon(1));
    assert_eq!(ui.drag.as_ref().unwrap().icon_path, "b");
    assert_eq!(ui.selection.paths, texts(["b"]));
    press(&mut ui, &fences, &it, Hit::Blank);
    assert!(ui.marquee == Some(Span { x0: 10, y0: 10, x1: 10, y1: 10 }));
    assert!(ui.selection.paths.is_empty());
    assert!(press(&mut ui, &fences, &it, Hit::Collapse) == Press::Menu);
    assert!(press(&mut ui, &fences, &it, Hit::Scrollbar) == Press::Dragging);
    assert!(press(&mut ui, &fences, &it, Hit::Nothing) == Press::Still);
}

#[test]
fn locked_fences_and_the_bin_are_not_dragged() {
    let mut locked = fence(1);
    locked.locked = true;
    let fences = vec![locked];
    let mut ui = Ui::new();
    assert!(press(&mut ui, &fences, &items(["a"]), Hit::Title) == Press::Ignored);
    assert!(ui.drag.is_none());
    let free = vec![fence(1)];
    assert!(press(&mut ui, &free, &vec![bin()], Hit::Icon(0)) == Press::Still);
    assert!(ui.drag.is_none());
    assert!(handle_lbuttondown(&mut ui, &free, 9, &Vec::new(), Hit::Title, false, false, false, place(0, 0)) == Press::Ignored);
}

#[test]
fn edges_have_sides_and_pointers() {
    assert!(is_edge(&Hit::CornerSW));
    assert!(!is_edge(&Hit::Title));
    assert_eq!(edges_of(Hit::CornerSW), ['s', 'w']);
    assert_eq!(edges_of(Hit::EdgeN), ['n', '\0']);
    let mut locked = fence(2);
    locked.locked = true;
    let fences = vec![fence(1), locked];
    assert_eq!(handle_setcursor(&fences, 1, Some(Hit::CornerNW)), 32642);
    assert_eq!(handle_setcursor(&fences, 1, Some(Hit::CornerNE)), 32643);
    assert_eq!(handle_setcursor(&fences, 1, Some(Hit::EdgeE)), 32644);
    assert_eq!(handle_setcursor(&fences, 1, Some(Hit::EdgeS)), 32645);
    assert_eq!(handle_setcursor(&fences, 2, Some(Hit::EdgeS)), 32512);
    assert_eq!(handle_setcursor(&fences, 1, None), 32512);
}

/// A drag of the files `a` and `b` of four, shown as a preview.
fn dragging() -> (Ui, Vec<Fence>, Vec<FileItem>) {
    let mut fences = vec![fence(1), fence(2)];
    let it = items(["a", "b", "c", "d"]);
    let mut ui = Ui::new();
    press(&mut ui, &fences, &it, Hit::Icon(0));
    handle_lbuttondown(&mut ui, &fences, 1, &it, Hit::Icon(1), true, true, false, place(10, 10));
    let m = handle_mousemove(&mut ui, &mut fences, 1, &it, moved(100));
    assert!(matches!(m, Motion::GhostStarted));
    (ui, fences, it)
}

#[test]
fn a_drag_of_files_shows_a_preview() {
    let (mut ui, mut fences, it) = dragging();
    let p = ui.preview.as_ref().unwrap();
    assert_eq!(p.dragged_paths, texts(["a", "b"]));
    assert_eq!(p.original, texts(["a", "b", "c", "d"]));
    assert_eq!(fences[0].sort_mode, "手动");
    assert_eq!(ghost_name(&ui, &it).as_deref(), Some("A"));
    assert!(overlay_shown(&ui, &Vec::new()));
    assert!(matches!(handle_mousemove(&mut ui, &mut fences, 1, &it, moved(200)), Motion::Preview));
    let lay = layout(&fences[0], 2, 2, 4);
    let slot = update_ghost_preview(&mut ui, &fences, 1, &it, &lay, Hit::Icon(3), 1, 1);
    assert_eq!(slot, Some(2));
    assert_eq!(ui.preview.as_ref().unwrap().target, 2);
}

#[test]
fn a_cancelled_drag_leaves_the_fences() {
    let (mut ui, mut fences, _) = dragging();
    rollback_ghost_preview(&mut ui, &mut fences);
    assert!(ui.preview.is_none());
    assert_eq!(fences[0].sort_mode, default_sort_mode());
    assert_eq!(fences[0].item_order, texts(["a", "b", "c", "d"]));
}

#[test]
fn a_released_preview_gives_the_new_order() {
    let (mut ui, mut fences, it) = dragging();
    let lay = layout(&fences[0], 2, 2, 4);
    update_ghost_preview(&mut ui, &fences, 1, &it, &lay, Hit::Icon(3), 1, 1);
    let none = vec![false, false];
    let (r, _) = handle_lbuttonup(&mut ui, &mut fences, 1, &it, &Vec::new(), &none, &none, released(300));
    assert!(matches!(r, Released::Reordered));
    assert_eq!(fences[0].item_order, texts(["c", "d", "a", "b"]));
    assert_eq!(fences[0].sort_mode, "手动");
    assert!(ui.drag.is_none() && ui.preview.is_none() && !ui.ghost_shown);
}

#[test]
fn files_dropped_on_another_fence_belong_to_it() {
    let (mut ui, mut fences, it) = dragging();
    fences[0].pinned = texts(["a", "x"]);
    let mut e = released(300);
    e.inside = false;
    let under = vec![false, true];
    let (r, _) = handle_lbuttonup(&mut ui, &mut fences, 1, &it, &Vec::new(), &under, &vec![false, false], e);
    assert!(matches!(r, Released::Assigned { fence: 2 }));
    assert_eq!(fences[1].pinned, texts(["a", "b"]));
    assert_eq!(fences[0].pinned, texts(["x"]));
}

#[test]
fn only_the_bin_deletes() {
    let (mut ui, mut fences, it) = dragging();
    let mut e = released(300);
    e.inside = false;
    let (r, _) = handle_lbuttonup(
        &mut ui, &mut fences, 1, &it, &Vec::new(), &vec![false, true], &vec![false, true], e,
    );
    match r {
        Released::Deleted { paths } => assert_eq!(paths, texts(["a", "b"])),
        _ => panic!("not deleted"),
    }
    let (mut ui, mut fences, it) = dragging();
    let (r, _) = handle_lbuttonup(
        &mut ui, &mut fences, 1, &it, &Vec::new(), &vec![false, false], &vec![false, true], e,
    );
    assert!(matches!(r, Released::RolledBack));
    let mut here = dragging();
    here.0.trash_target = true;
    let (r, _) = handle_lbuttonup(
        &mut here.0, &mut here.1, 1, &it, &Vec::new(), &vec![true, false], &vec![true, false],
        released(300),
    );
    assert!(matches!(r, Released::Deleted { .. }));
}

#[test]
fn files_dragged_out_leave_the_fence() {
    let mut fences = vec![fence(1)];
    let it = items(["a", "b"]);
    let mut ui = Ui::new();
    press(&mut ui, &fences, &it, Hit::Icon(1));
    let m = Moved { inside: false, ..moved(50) };
    match handle_mousemove(&mut ui, &mut fences, 1, &it, m) {
        Motion::DragOut { paths } => assert_eq!(paths, texts(["b"])),
        _ => panic!("not dragged out"),
    }
    let none = vec![false];
    let (r, _) = handle_lbuttonup(&mut ui, &mut fences, 1, &it, &Vec::new(), &none, &none, released(60));
    assert!(matches!(r, Released::Dropped));
}

#[test]
fn moves_are_throttled() {
    let mut fences = vec![fence(1)];
    let it = items(["a"]);
    let mut ui = Ui::new();
    press(&mut ui, &fences, &it, Hit::Title);
    assert!(matches!(handle_mousemove(&mut ui, &mut fences, 1, &it, moved(100)), Motion::Follow));
    assert!(matches!(handle_mousemove(&mut ui, &mut fences, 1, &it, moved(107)), Motion::Skipped));
    assert!(matches!(handle_mousemove(&mut ui, &mut fences, 1, &it, moved(108)), Motion::Follow));
    assert!(drag_render_due(&mut ui, 100));
    assert!(!drag_render_due(&mut ui, 132));
    assert!(drag_render_due(&mut ui, 133));
    press(&mut ui, &fences, &it, Hit::EdgeE);
    assert!(matches!(handle_mousemove(&mut ui, &mut fences, 1, &it, moved(200)), Motion::Resize));
    let on = Moved { at: place(41, 51), ..moved(211) };
    assert!(matches!(handle_mousemove(&mut ui, &mut fences, 1, &it, on), Motion::Skipped));
    assert_eq!((ui.settle_x, ui.settle_y), (141, 251));
    let still = Moved { at: place(41, 52), ..moved(400) };
    assert!(matches!(handle_mousemove(&mut ui, &mut fences, 1, &it, still), Motion::Skipped));
    let away = Moved { at: place(40, 52), ..moved(400) };
    assert!(matches!(handle_mousemove(&mut ui, &mut fences, 1, &it, away), Motion::Resize));
    let back = Moved { at: place(60, 60), ..moved(399) };
    assert!(matches!(handle_mousemove(&mut ui, &mut fences, 1, &it, back), Motion::Skipped));
    assert_eq!((ui.settle_x, ui.settle_y), (160, 260));
    assert!(matches!(handle_mousemove(&mut ui, &mut fences, 2, &it, moved(1)), Motion::Hover));
}

#[test]
fn other_movements() {
    let mut fences = vec![fence(1)];
    let it = items(["a"]);
    let mut ui = Ui::new();
    assert!(matches!(handle_mousemove(&mut ui, &mut fences, 1, &it, moved(1)), Motion::Hover));
    press(&mut ui, &fences, &it, Hit::Blank);
    assert!(matches!(handle_mousemove(&mut ui, &mut fences, 1, &it, moved(1)), Motion::Marquee));
    assert!(ui.marquee == Some(Span { x0: 10, y0: 10, x1: 40, y1: 50 }));
    press(&mut ui, &fences, &it, Hit::Scrollbar);
    assert!(matches!(handle_mousemove(&mut ui, &mut fences, 1, &it, moved(1)), Motion::Scroll));
    press(&mut ui, &fences, &it, Hit::Icon(0));
    let near = Moved { at: place(2, 10), ..moved(1) };
    assert!(matches!(handle_mousemove(&mut ui, &mut fences, 1, &it, near), Motion::Idle));
    fences.clear();
    assert!(matches!(handle_mousemove(&mut ui, &mut fences, 1, &it, moved(1)), Motion::Aborted));
    show_line(&mut ui, true);
    assert!(ui.line);
    assert!(line_up(true, true) == LineUp::Rows);
    assert!(line_up(false, true) == LineUp::Cells);
    assert!(line_up(false, false) == LineUp::Neighbours);
}

#[test]
fn a_moved_fence_lands_where_the_mode_says() {
    let it = items(["a"]);
    let none = vec![false];
    let land = |planned: bool, e: Release| {
        let mut fences = vec![fence(1)];
        let mut ui = Ui::new();
        press(&mut ui, &fences, &it, Hit::Title);
        if planned {
            show_line(&mut ui, true);
        }
        match handle_lbuttonup(&mut ui, &mut fences, 1, &it, &Vec::new(), &none, &none, e).0 {
            Released::Moved { landing } => landing,
            _ => panic!("not moved"),
        }
    };
    let auto = Release { auto_align: true, ..released(1) };
    assert!(land(false, Release { at: place(18, 10), ..released(1) }) == Landing::Back);
    assert!(land(false, Release { at: place(18, 11), ..released(1) }) == Landing::Free);
    assert!(land(true, released(1)) == Landing::Free);
    assert!(land(false, Release { slot_here: true, ..auto }) == Landing::Slot { fresh: true });
    assert!(land(true, auto) == Landing::Slot { fresh: false });
    assert!(land(false, auto) == Landing::Free);
}

#[test]
fn a_resized_fence_keeps_its_size() {
    let it = items(["a"]);
    let mut fences = vec![fence(1)];
    let none = vec![false];
    let mut ui = Ui::new();
    press(&mut ui, &fences, &it, Hit::EdgeS);
    let (r, _) = handle_lbuttonup(&mut ui, &mut fences, 1, &it, &Vec::new(), &none, &none, released(1));
    assert!(matches!(r, Released::Resized { compact: false }));
    assert!(fences[0].manual_size);
    let (r, _) = handle_lbuttonup(&mut ui, &mut fences, 1, &it, &Vec::new(), &none, &none, released(2));
    assert!(matches!(r, Released::NoDrag));
    assert_eq!(ui.last_up_ms, 2);
}

#[test]
fn a_slow_second_click_renames() {
    let it = items(["a"]);
    let mut fences = vec![fence(1)];
    let none = vec![false];
    let mut ui = Ui::new();
    let near = |now: u64| Release { at: place(10, 10), ..released(now) };
    press(&mut ui, &fences, &it, Hit::Icon(0));
    let (r, _) = handle_lbuttonup(&mut ui, &mut fences, 1, &it, &Vec::new(), &none, &none, near(1000));
    assert!(matches!(r, Released::Clicked));
    press(&mut ui, &fences, &it, Hit::Icon(0));
    let (r, _) = handle_lbuttonup(&mut ui, &mut fences, 1, &it, &Vec::new(), &none, &none, near(1500));
    assert!(matches!(r, Released::Clicked));
    press(&mut ui, &fences, &it, Hit::Icon(0));
    let (r, _) = handle_lbuttonup(&mut ui, &mut fences, 1, &it, &Vec::new(), &none, &none, near(2001));
    match r {
        Released::Rename { path } => assert_eq!(path, "a"),
        _ => panic!("not renamed"),
    }
}

#[test]
fn a_double_click_opens_at_the_release() {
    let it = items(["a"]);
    let mut fences = vec![fence(1)];
    let mut ui = Ui::new();
    assert!(handle_dblclk(&mut ui, &fences, 1, &it, Hit::Icon(0), 5, 5));
    assert_eq!(take_pending_open(&mut ui, 5, 13).as_deref(), Some("a"));
    assert_eq!(take_pending_open(&mut ui, 5, 13), None);
    assert!(!handle_dblclk(&mut ui, &fences, 1, &it, Hit::Icon(1), 5, 5));
    assert!(!handle_dblclk(&mut ui, &fences, 1, &it, Hit::Title, 5, 5));
    handle_dblclk(&mut ui, &fences, 1, &it, Hit::Icon(0), 5, 5);
    assert_eq!(take_pending_open(&mut ui, 5, 14), None);
    assert_eq!(take_pending_open(&mut ui, 5, 5), None);
    let none = vec![false];
    handle_dblclk(&mut ui, &fences, 1, &it, Hit::Icon(0), 140, 250);
    let (r, opened) =
        handle_lbuttonup(&mut ui, &mut fences, 1, &it, &Vec::new(), &none, &none, released(1));
    assert!(matches!(r, Released::NoDrag));
    assert_eq!(opened.as_deref(), Some("a"));
    press(&mut ui, &fences, &it, Hit::Icon(0));
    handle_dblclk(&mut ui, &fences, 1, &it, Hit::Icon(0), 140, 250);
    let (r, opened) =
        handle_lbuttonup(&mut ui, &mut fences, 1, &it, &Vec::new(), &none, &none, released(2));
    assert!(matches!(r, Released::Clicked));
    assert_eq!(opened, None);
    fences.clear();
    assert!(!handle_dblclk(&mut ui, &fences, 1, &it, Hit::Icon(0), 5, 5));
}

#[test]
fn eight_pixels_are_near() {
    assert!(!is_farther(0, 0, 8, 0));
    assert!(!is_farther(0, 0, 5, -6));
    assert!(is_farther(0, 0, 5, 7));
    assert!(is_farther(i32::MIN, 0, i32::MAX, 0));
}

#[test]
fn drop_targets_are_other_shown_fences() {
    let mut hidden = fence(2);
    hidden.hidden = true;
    let fences = vec![fence(1), hidden, fence(3), fence(4)];
    assert_eq!(find_drop_target(&fences, &vec![true, true, true, true], 1), Some(3));
    assert_eq!(find_drop_target(&fences, &vec![true, true, false, false], 1), None);
    let bins = vec![true, true, false, true];
    assert!(release_on_recycle_bin_screen(&fences, &vec![false, false, false, true], &bins, 1));
    assert!(!release_on_recycle_bin_screen(&fences, &vec![true, true, true, false], &bins, 1));
}

#[test]
fn a_file_belongs_to_one_fence() {
    let mut fences = vec![fence(1), fence(2)];
    assign_to_fence(&mut fences, &texts(["a", "b", "a"]), 1);
    assert_eq!(fences[0].pinned, texts(["a", "b"]));
    assign_to_fence(&mut fences, &texts(["b"]), 2);
    assert_eq!(fences[0].pinned, texts(["a"]));
    assert_eq!(fences[1].pinned, texts(["b"]));
}

#[test]
fn a_line_marks_the_slot() {
    let lay = Layout { cols: 2, rows: 2, total_rows: 2, first_row: 0, first_index: 0, visible: 4 };
    assert_eq!(line_cell(&lay, 0), (0, 0, false));
    assert_eq!(line_cell(&lay, 1), (0, 1, false));
    assert_eq!(line_cell(&lay, 2), (1, 0, true));
}

#[test]
fn hovering_waits() {
    let mut h = Hover { shown: false, pending: false, icon: None, icon_pending: None, hit: Hit::Nothing };
    assert!(track_hover(&mut h, Hit::Icon(2)) == HoverTimer::Start);
    assert!(h.pending && h.icon_pending == Some(Some(2)));
    assert!(track_hover(&mut h, Hit::Icon(2)) == HoverTimer::Keep);
    assert!(track_hover(&mut h, Hit::Blank) == HoverTimer::Stop);
    assert_eq!(h.icon_pending, None);
    assert_eq!(hover_delay_ms(None), 400);
    assert_eq!(hover_delay_ms(Some(10)), 50);
    assert_eq!(hover_delay_ms(Some(700)), 700);
}

// ---------------------------------------------------------------- keys

fn key(ui: &mut Ui, fences: &mut Vec<Fence>, it: &Vec<FileItem>, vk: u32, ctrl: bool) -> KeyAction {
    let lay = layout(&fence(1), 2, 2, it.len());
    dispatch_file_key(ui, fences, 1, it, &lay, vk, ctrl, false)
}

#[test]
fn keys_act_on_the_selection() {
    let mut fences = vec![fence(1)];
    let mut it = items(["a", "b"]);
    it.push(bin());
    let mut ui = Ui::new();
    assert!(matches!(key(&mut ui, &mut fences, &it, VK_F2, false), KeyAction::Nothing));
    assert!(matches!(key(&mut ui, &mut fences, &it, VK_A, true), KeyAction::Redraw));
    assert_eq!(ui.selection.paths.len(), 3);
    match key(&mut ui, &mut fences, &it, VK_DELETE, false) {
        KeyAction::Delete { paths } => assert_eq!(paths, texts(["a", "b"])),
        _ => panic!("nothing deleted"),
    }
    match key(&mut ui, &mut fences, &it, VK_RETURN, false) {
        KeyAction::Open { paths } => assert_eq!(paths.len(), 3),
        _ => panic!("nothing opened"),
    }
    match key(&mut ui, &mut fences, &it, VK_C, true) {
        KeyAction::Copy { paths } => assert_eq!(paths.len(), 3),
        _ => panic!("nothing copied"),
    }
    assert!(matches!(key(&mut ui, &mut fences, &it, VK_V, true), KeyAction::Paste));
    assert!(matches!(key(&mut ui, &mut fences, &it, VK_V, false), KeyAction::Nothing));
    ui.selection.paths = texts(["b"]);
    match key(&mut ui, &mut fences, &it, VK_F2, false) {
        KeyAction::Rename { path } => assert_eq!(path, "b"),
        _ => panic!("no rename"),
    }
    ui.selection.paths = vec![it[2].path.clone()];
    assert!(matches!(key(&mut ui, &mut fences, &it, VK_F2, false), KeyAction::Nothing));
    ui.selection.focused = Some("a".into());
    assert!(matches!(key(&mut ui, &mut fences, &it, VK_RIGHT, false), KeyAction::Redraw));
    assert_eq!(ui.selection.paths, texts(["b"]));
}

#[test]
fn escape_takes_a_drag_back() {
    let (mut ui, mut fences, it) = dragging();
    assert!(matches!(key(&mut ui, &mut fences, &it, VK_ESCAPE, false), KeyAction::IconDragCancelled));
    assert_eq!(fences[0].sort_mode, default_sort_mode());
    assert!(!ui.ghost_shown);
    press(&mut ui, &fences, &it, Hit::Title);
    assert!(matches!(key(&mut ui, &mut fences, &it, VK_ESCAPE, false), KeyAction::LayoutRestored));
    assert!(ui.drag.is_none());
    assert!(matches!(key(&mut ui, &mut fences, &it, VK_ESCAPE, false), KeyAction::Nothing));
}

#[test]
fn packed_keys_are_unpacked() {
    assert_eq!(unpack_key(0x41), (0x41, false, false));
    assert_eq!(unpack_key(0x1_0041), (0x41, true, false));
    assert_eq!(unpack_key(0x101_0041), (0x41, true, true));
    assert!(arrow_of(VK_LEFT) == Some(Arrow::Left));
    assert!(arrow_of(VK_A).is_none());
}

#[test]
fn arrows_nudge_fences_that_are_free() {
    let mut locked = fence(2);
    locked.locked = true;
    let fences = vec![fence(1), locked];
    assert_eq!(nudge_fence(&fences, 1, VK_DOWN), Some((0, 1)));
    assert_eq!(nudge_fence(&fences, 1, VK_LEFT), Some((-1, 0)));
    assert_eq!(nudge_fence(&fences, 2, VK_DOWN), None);
    assert_eq!(nudge_fence(&fences, 1, VK_A), None);
    assert_eq!(nudge_fence(&fences, 9, VK_DOWN), None);
}

#[test]
fn the_wheel_scrolls_by_a_row() {
    let mut fences = vec![fence(1)];
    let lay = layout(&fences[0], 2, 2, 7);
    assert!(handle_wheel(&mut fences, 1, &lay, -120));
    assert_eq!(fences[0].scroll_rows, 1);
    for _ in 0..5 {
        handle_wheel(&mut fences, 1, &lay, -120);
    }
    assert_eq!(fences[0].scroll_rows, 2);
    assert!(handle_wheel(&mut fences, 1, &lay, 120));
    assert_eq!(fences[0].scroll_rows, 1);
    scroll_to(&mut fences, 1, 0);
    assert!(handle_wheel(&mut fences, 1, &lay, 120));
    assert_eq!(fences[0].scroll_rows, 0);
    let short = layout(&fences[0], 2, 2, 3);
    assert!(!handle_wheel(&mut fences, 1, &short, -120));
}

#[test]
fn right_clicks_choose_their_menu() {
    let fences = vec![fence(1)];
    let it = items(["a"]);
    let mut ui = Ui::new();
    match handle_rbuttonup(&mut ui, &fences, 1, &it, Hit::Icon(0)) {
        ContextMenu::Files { paths } => assert_eq!(paths, texts(["a"])),
        _ => panic!("no file menu"),
    }
    assert!(matches!(handle_rbuttonup(&mut ui, &fences, 1, &it, Hit::Title), ContextMenu::OfFence));
    assert!(matches!(handle_rbuttonup(&mut ui, &fences, 1, &it, Hit::Blank), ContextMenu::Desktop));
    assert!(matches!(handle_rbuttonup(&mut ui, &fences, 9, &it, Hit::Title), ContextMenu::Nothing));
}

#[test]
fn files_from_elsewhere_are_pinned_or_deleted() {
    let mut fences = vec![fence(1)];
    assert!(on_fence_drop_cb(&mut fences, 1, &texts(["a"]), false) == Dropped::Pinned);
    assert_eq!(fences[0].pinned, texts(["a"]));
    assert!(on_fence_drop_cb(&mut fences, 1, &texts(["a"]), false) == Dropped::Pinned);
    assert_eq!(fences[0].pinned, texts(["a"]));
    assert!(on_fence_drop_cb(&mut fences, 1, &texts(["b"]), true) == Dropped::Deleted);
    assert_eq!(fences[0].pinned, texts(["a"]));
    assert!(on_fence_drop_cb(&mut fences, 9, &texts(["b"]), false) == Dropped::Nowhere);
}

#[test]
fn opened_files_are_counted_but_for_the_bin() {
    let mut store = UsageStore::new();
    assert!(open_item(&mut store, "a", 5));
    assert_eq!(usage_of(&store, "a"), (1, 5));
    assert!(!open_item(&mut store, &bin().path, 6));
    assert_eq!(usage_of(&store, &bin().path), (0, 0));
}

#[test]
fn arrivals_are_drawn_a_little_longer_than_they_fly() {
    let arrival = |started_ms: u64| Arrival {
        fence_id: 1,
        path: "a".into(),
        name: "A".into(),
        started_ms,
        duration_ms: 100,
    };
    let mut list = vec![arrival(0), arrival(20), arrival(900)];
    retain_arrivals(&mut list, 281);
    assert_eq!(list.len(), 2);
    assert_eq!(list[0].started_ms, 20);
    assert!(overlay_shown(&Ui::new(), &list));
    assert!(!overlay_shown(&Ui::new(), &Vec::new()));
}

#[test]
fn a_menu_puts_the_lights_out() {
    let mut h = Hover {
        shown: true,
        pending: true,
        icon: Some(3),
        icon_pending: Some(None),
        hit: Hit::Icon(3),
    };
    assert!(clear_hover(&mut h));
    assert!(!h.shown && !h.pending && h.icon.is_none() && h.icon_pending.is_none());
    assert!(h.hit == Hit::Nothing);
    assert!(!clear_hover(&mut h));
}

//! The cells of a fence: which are shown, and which one a place falls on.

use deskfence::grid::{
    cell_of, hit_cell, hit_test, indices_between, indices_in_rect, layout, max_scroll, Hit, Layout,
    Spot,
};
use deskfence::model::{default_sort_mode, Fence};

const PAD: f32 = 6.0;
const TITLE_H: f32 = 26.0;
const CELL_W: f32 = 75.0;
const CELL_H: f32 = 86.0;
const EDGE: f32 = 8.0;
const CORNER: f32 = 12.0;
const SCROLLBAR_W: f32 = 5.0;

fn fence(id: u32) -> Fence {
    Fence {
        id,
        title: "t".into(),
        category: "图片".into(),
        pinned: Vec::new(),
        item_order: Vec::new(),
        collapsed: false,
        scroll_rows: 0,
        locked: false,
        hidden: false,
        manual_size: false,
        sort_mode: default_sort_mode(),
    }
}

fn layout_in(f: &Fence, w: f32, h: f32, n: usize) -> Layout {
    let cols = (((w - 2.0 * PAD).max(1.0) / CELL_W).floor() as usize).max(1);
    let rows = (((h - TITLE_H - 2.0 * PAD).max(1.0) / CELL_H).floor() as usize).max(1);
    layout(f, cols, rows, n)
}

fn spot(w: f32, h: f32, px: f32, py: f32) -> Spot {
    let chip_cy = (4.0 + TITLE_H - 2.0) * 0.5;
    let cx = px - PAD;
    let cy = py - TITLE_H - PAD;
    Spot {
        outside: px < 0.0 || py < 0.0 || px >= w || py >= h,
        chip: px >= w - 29.0 && px <= w - 3.0 && py >= chip_cy - 8.0 && py <= chip_cy + 8.0,
        corner_w: px < CORNER,
        corner_e: px >= w - CORNER,
        corner_n: py < CORNER,
        corner_s: py >= h - CORNER,
        track: py >= TITLE_H && px >= w - SCROLLBAR_W - 6.0 && px < w - 3.0,
        edge_w: px < EDGE,
        edge_e: px >= w - EDGE,
        edge_n: py < EDGE,
        edge_s: py >= h - EDGE,
        title: py < TITLE_H,
        border: cx < 0.0 || cy < 0.0,
        col: (cx / CELL_W).floor() as usize,
        row: (cy / CELL_H).floor() as usize,
    }
}

fn hit(f: &Fence, la: &Layout, px: f32, py: f32, n: usize) -> Hit {
    hit_test(f, la, &spot(200.0, 240.0, px, py), n)
}

#[test]
fn layout_basic() {
    let f = fence(1);
    let la = layout_in(&f, 200.0, 240.0, 20);
    assert_eq!(la.cols, ((200.0 - 12.0) / CELL_W) as usize);
    assert!(la.total_rows >= 1);
    assert!(la.first_index <= 20);
    assert!(la.visible >= 1);
}

#[test]
fn hit_test_edges() {
    let f = fence(1);
    let la = layout_in(&f, 200.0, 240.0, 20);
    assert_eq!(hit(&f, &la, 1.0, 50.0, 20), Hit::EdgeW);
    assert_eq!(hit(&f, &la, 199.0 - 1.0, 50.0, 20), Hit::EdgeE);
    assert_eq!(hit(&f, &la, 50.0, 1.0, 20), Hit::EdgeN);
    assert_eq!(hit(&f, &la, 50.0, 239.0, 20), Hit::EdgeS);
    assert_eq!(hit(&f, &la, 1.0, 1.0, 20), Hit::CornerNW);
    assert_eq!(hit(&f, &la, 199.0, 239.0, 20), Hit::CornerSE);
    assert_eq!(hit(&f, &la, 100.0, 10.0, 20), Hit::Title);
    assert_eq!(hit(&f, &la, 5.0, 5.0, 0), Hit::CornerNW);
}

#[test]
fn scroll_clamps() {
    let mut f = fence(1);
    let la = layout_in(&f, 200.0, 240.0, 50);
    let mx = max_scroll(&la);
    f.scroll_rows = 1000;
    let la2 = layout_in(&f, 200.0, 240.0, 50);
    assert_eq!(la2.first_row, mx.min(1000));
    assert!(la2.first_index <= 50);
    assert!(la2.visible >= 1);
}

#[test]
fn selection_geometry_handles_visible_cells() {
    let f = fence(1);
    let la = layout_in(&f, CELL_W * 3.0 + PAD * 2.0, TITLE_H + CELL_H * 2.0 + PAD * 2.0, 6);
    assert_eq!(indices_between(&la, 0, 4, 6), vec![0, 1, 2, 3, 4]);
    let (left, right) = (PAD, PAD + CELL_W * 2.0);
    let (top, bottom) = (TITLE_H + PAD, TITLE_H + PAD + CELL_H);
    let cols_hit: Vec<bool> = (0..la.cols)
        .map(|c| {
            let x = PAD + c as f32 * CELL_W;
            x < right && x + CELL_W > left
        })
        .collect();
    let rows_hit: Vec<bool> = (0..la.rows)
        .map(|r| {
            let y = TITLE_H + PAD + r as f32 * CELL_H;
            y < bottom && y + CELL_H > top
        })
        .collect();
    assert_eq!(indices_in_rect(&la, &rows_hit, &cols_hit, 6), vec![0, 1]);
    assert_eq!(cell_of(&la, 0), (0, 0));
}

#[test]
fn scrollbar_hit_when_overflow() {
    let f = fence(1);
    let la = layout_in(&f, 200.0, 240.0, 50);
    assert!(la.total_rows > la.rows);
    assert_eq!(hit(&f, &la, 194.0, 60.0, 50), Hit::Scrollbar);
    let la2 = layout_in(&f, 200.0, 240.0, 4);
    assert!(la2.total_rows <= la2.rows);
    assert_ne!(hit(&f, &la2, 194.0, 60.0, 4), Hit::Scrollbar);
}

#[test]
fn every_corner_and_edge_has_its_hit() {
    let f = fence(1);
    let la = layout_in(&f, 200.0, 240.0, 2);
    assert_eq!(hit(&f, &la, 1.0, 239.0, 2), Hit::CornerSW);
    assert_eq!(hit(&f, &la, 199.0, 1.0, 2), Hit::CornerNE);
    assert_eq!(hit(&f, &la, -1.0, 1.0, 2), Hit::Nothing);
    assert_eq!(hit(&f, &la, 180.0, 14.0, 2), Hit::Collapse);
    assert_eq!(hit(&f, &la, 20.0, 50.0, 2), Hit::Icon(0));
    assert_eq!(hit(&f, &la, 90.0, 50.0, 2), Hit::Icon(1));
    assert_eq!(hit(&f, &la, 20.0, 130.0, 2), Hit::Blank);
    assert_eq!(hit(&f, &la, 20.0, 27.0, 2), Hit::Blank);
}

#[test]
fn a_collapsed_fence_shows_no_cells() {
    let la = Layout { cols: 2, rows: 2, total_rows: 3, first_row: 1, first_index: 2, visible: 3 };
    assert_eq!(hit_cell(&la, true, 0, 0, 5), Hit::Blank);
    assert_eq!(hit_cell(&la, false, 0, 0, 5), Hit::Icon(2));
    assert_eq!(hit_cell(&la, false, 1, 1, 5), Hit::Blank);
    assert_eq!(hit_cell(&la, false, 2, 0, 5), Hit::Blank);
}

#[test]
fn scrolled_layout_starts_at_its_row() {
    let mut f = fence(1);
    f.scroll_rows = 2;
    let la = layout(&f, 3, 2, 20);
    assert_eq!(
        la,
        Layout { cols: 3, rows: 2, total_rows: 7, first_row: 2, first_index: 6, visible: 6 }
    );
    assert_eq!(max_scroll(&la), 5);
    assert_eq!(layout(&f, 3, 2, 0).total_rows, 0);
}

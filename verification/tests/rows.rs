//! Fences in rows: what moves when one of them goes to another slot.

use deskfence::model::{default_sort_mode, Fence};
use deskfence::rows::{
    fence_insertion_plan, fences_in_rows, flow_rows, home_of, nearest, neighbours_in_order, row_after_delete,
    row_insert_layout, row_slot_of, rows_from_rects, Spread, Standing,
};

const GAP: f32 = 12.0;

/// A fence as it stands on the screen.
#[derive(Clone, Copy)]
struct Place {
    x: f32,
    y: f32,
    w: f32,
    h: f32,
}

fn rr(x: f32, y: f32, w: f32, h: f32) -> Place {
    Place { x, y, w, h }
}

fn middle(r: &Place) -> f32 {
    r.y + r.h * 0.5
}

/// A whole number that orders as `v` does, for the numbers of these tests.
fn key(v: f32) -> i64 {
    (v * 1000.0) as i64
}

fn rows_of(rects: &[Place]) -> Vec<Vec<usize>> {
    let apart = |a: &Place, b: &Place| middle(b) - middle(a) > 0.6 * a.h.min(b.h).max(24.0);
    rows_from_rects(&Standing {
        middle: rects.iter().map(|r| key(middle(r))).collect(),
        left: rects.iter().map(|r| key(r.x)).collect(),
        apart: rects.iter().map(|a| rects.iter().map(|b| apart(a, b)).collect()).collect(),
    })
}

fn distances(rects: &[Place], rows: &[Vec<usize>], y: f32) -> Vec<f32> {
    rows.iter()
        .map(|row| {
            let mid = row.iter().map(|&i| middle(&rects[i])).sum::<f32>() / row.len() as f32;
            (y - mid).abs()
        })
        .collect()
}

fn slot_of(rects: &[Place], rows: &Vec<Vec<usize>>, center: (f32, f32)) -> (usize, usize) {
    let distance: Vec<i64> = distances(rects, rows, center.1).iter().map(|d| key(*d)).collect();
    let left: Vec<bool> = rects.iter().map(|r| r.x + r.w * 0.5 < center.0).collect();
    row_slot_of(rows, &distance, &left)
}

fn insert(rects: &[Place], a: usize, target: (usize, usize)) -> (Vec<(f32, f32)>, (f32, f32)) {
    let rows = rows_of(rects);
    let mut out: Vec<(f32, f32)> = rects.iter().map(|r| (r.x, r.y)).collect();
    for flow in row_insert_layout(&rows, a, target) {
        let first = rects[rows[flow.row][0]];
        let mut x = first.x;
        for i in flow.members {
            out[i] = (x, first.y);
            x += rects[i].w + GAP;
        }
    }
    let land = out[a];
    (out, land)
}

fn two_row_layout(a: Place) -> Vec<Place> {
    vec![
        rr(0.0, 0.0, 244.0, 100.0),
        rr(256.0, 0.0, 244.0, 100.0),
        rr(512.0, 0.0, 132.0, 100.0),
        rr(0.0, 112.0, 244.0, 100.0),
        rr(256.0, 112.0, 132.0, 100.0),
        rr(400.0, 112.0, 132.0, 100.0),
        a,
    ]
}

fn assert_no_overlap(rects: &[Place], pos: &[(f32, f32)]) {
    let moved: Vec<Place> =
        rects.iter().zip(pos).map(|(r, (x, y))| rr(*x, *y, r.w, r.h)).collect();
    for row in rows_of(&moved) {
        for w in row.windows(2) {
            let (a, b) = (moved[w[0]], moved[w[1]]);
            assert!(b.x >= a.x + a.w, "overlap: ({},{}) vs ({},{})", a.x, a.y, b.x, b.y);
        }
    }
}

#[test]
fn insert_same_row_before_member_rotates() {
    let rects = two_row_layout(rr(700.0, 0.0, 132.0, 100.0));
    let (pos, land) = insert(&rects, 6, (0, 2));
    assert_eq!(land, (512.0, 0.0));
    assert_eq!(pos[0], (0.0, 0.0));
    assert_eq!(pos[1], (256.0, 0.0));
    assert_eq!(pos[2], (656.0, 0.0));
    assert_eq!(pos[6], (512.0, 0.0));
    assert_eq!(pos[3], (0.0, 112.0));
    assert_eq!(pos[4], (256.0, 112.0));
    assert_eq!(pos[5], (400.0, 112.0));
    assert_no_overlap(&rects, &pos);
}

#[test]
fn insert_top_to_bottom_before_member() {
    let rects = two_row_layout(rr(700.0, 0.0, 132.0, 100.0));
    let (pos, land) = insert(&rects, 6, (1, 1));
    assert_eq!(land, (256.0, 112.0));
    assert_eq!(pos[0], (0.0, 0.0));
    assert_eq!(pos[1], (256.0, 0.0));
    assert_eq!(pos[2], (512.0, 0.0));
    assert_eq!(pos[3], (0.0, 112.0));
    assert_eq!(pos[4], (400.0, 112.0));
    assert_eq!(pos[5], (544.0, 112.0));
    assert_eq!(pos[6], (256.0, 112.0));
    assert_no_overlap(&rects, &pos);
}

#[test]
fn insert_bottom_to_top_after_member() {
    let rects = two_row_layout(rr(700.0, 112.0, 132.0, 100.0));
    let (pos, land) = insert(&rects, 6, (0, 2));
    assert_eq!(land, (512.0, 0.0));
    assert_eq!(pos[0], (0.0, 0.0));
    assert_eq!(pos[1], (256.0, 0.0));
    assert_eq!(pos[2], (656.0, 0.0));
    assert_eq!(pos[3], (0.0, 112.0));
    assert_eq!(pos[4], (256.0, 112.0));
    assert_eq!(pos[5], (400.0, 112.0));
    assert_no_overlap(&rects, &pos);
}

#[test]
fn insert_bottom_to_top_before_first() {
    let rects = two_row_layout(rr(700.0, 112.0, 132.0, 100.0));
    let (pos, land) = insert(&rects, 6, (0, 0));
    assert_eq!(land, (0.0, 0.0));
    assert_eq!(pos[0], (144.0, 0.0));
    assert_eq!(pos[1], (400.0, 0.0));
    assert_eq!(pos[2], (656.0, 0.0));
    assert_eq!(pos[3], (0.0, 112.0));
    assert_eq!(pos[4], (256.0, 112.0));
    assert_eq!(pos[5], (400.0, 112.0));
    assert_no_overlap(&rects, &pos);
}

#[test]
fn insert_at_row_end_extends_row() {
    let rects = two_row_layout(rr(0.0, 300.0, 132.0, 100.0));
    let (pos, land) = insert(&rects, 6, (1, 3));
    assert_eq!(land, (544.0, 112.0));
    assert_eq!(pos[3], (0.0, 112.0));
    assert_eq!(pos[4], (256.0, 112.0));
    assert_eq!(pos[5], (400.0, 112.0));
    assert_eq!(pos[6], (544.0, 112.0));
    assert_no_overlap(&rects, &pos);
}

#[test]
fn three_rows_move_middle_to_third() {
    let rects = vec![
        rr(0.0, 212.0, 244.0, 100.0),
        rr(512.0, 424.0, 132.0, 100.0),
        rr(256.0, 212.0, 132.0, 100.0),
    ];
    let (pos, land) = insert(&rects, 2, (2, 0));
    assert_eq!(land, (512.0, 424.0));
    assert_eq!(pos[1], (656.0, 424.0));
    assert_eq!(pos[0], (0.0, 212.0));
    assert_no_overlap(&rects, &pos);
}

#[test]
fn head_slot_fills_when_first_member_leaves() {
    let rects = vec![
        rr(0.0, 0.0, 132.0, 100.0),
        rr(144.0, 0.0, 244.0, 100.0),
        rr(400.0, 0.0, 244.0, 100.0),
        rr(0.0, 112.0, 244.0, 100.0),
        rr(256.0, 112.0, 132.0, 100.0),
    ];
    let (pos, land) = insert(&rects, 0, (1, 0));
    assert_eq!(land, (0.0, 112.0));
    assert_eq!(pos[1], (0.0, 0.0));
    assert_eq!(pos[2], (256.0, 0.0));
    assert_eq!(pos[3], (144.0, 112.0));
    assert_eq!(pos[4], (400.0, 112.0));
    assert_no_overlap(&rects, &pos);
}

#[test]
fn second_member_slides_to_row_head() {
    let rects = vec![
        rr(0.0, 0.0, 244.0, 100.0),
        rr(256.0, 0.0, 244.0, 100.0),
        rr(0.0, 112.0, 132.0, 100.0),
        rr(256.0, 112.0, 132.0, 100.0),
    ];
    let (pos, land) = insert(&rects, 2, (0, 0));
    assert_eq!(land, (0.0, 0.0));
    assert_eq!(pos[0], (144.0, 0.0));
    assert_eq!(pos[1], (400.0, 0.0));
    assert_eq!(pos[3], (0.0, 112.0));
    assert_no_overlap(&rects, &pos);
}

#[test]
fn row_slot_counts_left_members() {
    let rects = two_row_layout(rr(700.0, 0.0, 132.0, 100.0));
    let rows = rows_of(&rects);
    assert_eq!(rows.len(), 2);
    assert_eq!(slot_of(&rects, &rows, (394.0, 162.0)), (1, 2));
    assert_eq!(slot_of(&rects, &rows, (10.0, 50.0)), (0, 0));
    let nearest = distances(&rects, &rows, 2000.0).into_iter().fold(f32::MAX, f32::min);
    assert!(nearest > 300.0);
}

#[test]
fn every_fence_stands_in_one_row() {
    let rects = two_row_layout(rr(700.0, 300.0, 132.0, 100.0));
    let rows = rows_of(&rects);
    assert_eq!(rows, vec![vec![0, 1, 2], vec![3, 4, 5], vec![6]]);
    assert_eq!(rows_of(&[]), Vec::<Vec<usize>>::new());
    assert_eq!(slot_of(&[], &Vec::new(), (0.0, 0.0)), (0, 0));
}

#[test]
fn the_nearest_is_the_first_of_the_least() {
    assert_eq!(nearest(&vec![5, 3, 9, 3]), Some(1));
    assert_eq!(nearest(&vec![-1]), Some(0));
    assert_eq!(nearest(&Vec::new()), None);
}

#[test]
fn the_neighbours_of_a_fence_line_up_in_their_order() {
    let beside = vec![true, true, false, true, true];
    let order = neighbours_in_order(1, &beside, &vec![30, 0, 0, 10, 30]);
    assert_eq!(order, vec![3, 0, 4]);
}

#[test]
fn slightly_shifted_fences_share_a_row() {
    let rects = vec![rr(300.0, 20.0, 100.0, 100.0), rr(0.0, 0.0, 100.0, 100.0), rr(150.0, 65.0, 100.0, 100.0)];
    assert_eq!(rows_of(&rects), vec![vec![1, 0], vec![2]]);
}

fn sample_rows() -> Vec<Vec<usize>> {
    vec![vec![0, 1, 2], vec![3, 4]]
}

#[test]
fn a_fence_at_home_moves_nothing() {
    assert!(row_insert_layout(&sample_rows(), 1, (0, 1)).is_empty());
    assert_eq!(home_of(&sample_rows(), 4), Some((1, 1)));
    assert_eq!(home_of(&sample_rows(), 9), None);
}

#[test]
fn every_fence_of_a_touched_row_is_placed_once() {
    for row in 0..3 {
        for slot in 0..5 {
            let flows = row_insert_layout(&sample_rows(), 1, (row, slot));
            let mut placed: Vec<usize> = flows.iter().flat_map(|f| f.members.clone()).collect();
            placed.sort();
            let count = placed.len();
            placed.dedup();
            assert_eq!(placed.len(), count);
            assert!(flows.is_empty() || placed.contains(&1));
        }
    }
}

#[test]
fn the_row_of_a_deleted_fence_closes_up() {
    let flow = row_after_delete(&sample_rows(), 1).unwrap();
    assert_eq!(flow.row, 0);
    assert_eq!(flow.members, vec![0, 2]);
    assert!(row_after_delete(&vec![vec![7]], 7).unwrap().members.is_empty());
    assert!(row_after_delete(&sample_rows(), 9).is_none());
}

fn fence(id: u32, hidden: bool, locked: bool) -> Fence {
    Fence {
        id,
        title: "t".into(),
        category: "图片".into(),
        pinned: Vec::new(),
        item_order: Vec::new(),
        collapsed: false,
        scroll_rows: 0,
        locked,
        hidden,
        manual_size: false,
        sort_mode: default_sort_mode(),
    }
}

#[test]
fn hidden_fences_stand_in_no_row() {
    let fences = vec![fence(1, false, false), fence(2, true, false), fence(3, false, false)];
    assert_eq!(fences_in_rows(&fences), vec![0, 2]);
}

#[test]
fn a_slot_is_shown_only_near_a_row() {
    assert!(fence_insertion_plan(&sample_rows(), 5, 1, false, (1, 1)).is_none());
    let slot = fence_insertion_plan(&sample_rows(), 5, 1, true, (1, 1)).unwrap();
    assert_eq!((slot.row, slot.at), (1, 1));
}

// ---------------------------------------------------------------- shelves

fn shelves(rects: &[Place]) -> Vec<Vec<usize>> {
    flow_rows(&Spread {
        middle: rects.iter().map(|r| key(middle(r))).collect(),
        left: rects.iter().map(|r| key(r.x)).collect(),
        top: rects.iter().map(|r| key(r.y)).collect(),
        bottom: rects.iter().map(|r| key(r.y + r.h)).collect(),
        zero: key(0.0),
    })
}

/// Puts the fences beside each other on their shelves, from the corner on.
fn flow_layout(rects: &mut [Place]) -> Vec<usize> {
    let mut order = Vec::new();
    let mut y = 0.0;
    for row in shelves(rects) {
        let row_h = row.iter().map(|&i| rects[i].h).fold(0.0, f32::max);
        let mut x = 0.0;
        for i in row {
            rects[i] = rr(x, y, rects[i].w, rects[i].h);
            x += rects[i].w + GAP;
            order.push(i);
        }
        y += row_h + GAP;
    }
    order
}

#[test]
fn flow_layout_same_row_sorts_by_x() {
    let mut rects = vec![
        rr(280.0, 60.0, 200.0, 300.0),
        rr(520.0, 60.0, 200.0, 300.0),
        rr(40.0, 60.0, 200.0, 300.0),
    ];
    let order = flow_layout(&mut rects);
    assert_eq!(order, vec![2, 0, 1]);
    assert_eq!(rects[2].x, 0.0);
    assert_eq!(rects[0].x, 212.0);
    assert_eq!(rects[1].x, 424.0);
    assert_eq!(rects[0].y, 0.0);
    assert_eq!(rects[1].y, 0.0);
    assert_eq!(rects[2].y, 0.0);
}

#[test]
fn flow_layout_new_row_below() {
    let mut rects = vec![
        rr(40.0, 60.0, 200.0, 300.0),
        rr(280.0, 60.0, 200.0, 300.0),
        rr(40.0, 372.0, 200.0, 300.0),
    ];
    flow_layout(&mut rects);
    assert_eq!(rects[2].y, 312.0);
    assert_eq!(rects[2].x, 0.0);
    assert_eq!(rects[0].y, 0.0);
    assert_eq!(rects[1].y, 0.0);
    assert_eq!(rects[1].x, 212.0);
}

#[test]
fn flow_layout_short_below_short_new_row() {
    let mut rects = vec![
        rr(40.0, 60.0, 200.0, 120.0),
        rr(280.0, 60.0, 200.0, 120.0),
        rr(40.0, 200.0, 200.0, 120.0),
    ];
    flow_layout(&mut rects);
    assert_eq!(rects[2].y, 132.0);
    assert_eq!(rects[2].x, 0.0);
    assert_eq!(rects[0].y, 0.0);
    assert_eq!(rects[1].x, 212.0);
}

#[test]
fn flow_layout_keeps_gap() {
    let mut rects = vec![
        rr(40.0, 60.0, 200.0, 300.0),
        rr(280.0, 60.0, 200.0, 300.0),
        rr(40.0, 372.0, 200.0, 300.0),
    ];
    flow_layout(&mut rects);
    assert!((rects[1].x - (rects[0].x + rects[0].w) - GAP).abs() < 0.01);
    assert!((rects[2].y - (rects[0].y + rects[0].h) - GAP).abs() < 0.01);
}

#[test]
fn a_tall_fence_makes_its_shelf_reach_lower() {
    let rects = [
        rr(0.0, 0.0, 100.0, 300.0),
        rr(200.0, 0.0, 100.0, 100.0),
        rr(200.0, 120.0, 100.0, 100.0),
        rr(0.0, 300.0, 100.0, 50.0),
    ];
    assert_eq!(shelves(&rects), vec![vec![0, 1, 2], vec![3]]);
    assert_eq!(shelves(&rects[1..3]), vec![vec![0], vec![1]]);
}

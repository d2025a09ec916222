//! The moving pointer: how a drag goes on, and what lights up under the pointer.
use crate::desk;
use crate::drag;
use crate::drag::{DragMode, DragView, GhostPreview, Place, Span, Ui, UiView};
use crate::grid::Hit;
use crate::model;
use crate::model::{Fence, FenceView, FileItem};
use crate::selection;
use crate::text;
use vstd::prelude::*;

verus! {

/// What a movement leads to.
pub enum Motion {
    /// No drag goes on over this fence: the pointer hovers.
    Hover,
    /// The pointer has hardly moved, or too little time has passed.
    Skipped,
    /// The fence follows the pointer.
    Follow,
    /// The fence takes the size that the pointer gives it.
    Resize,
    /// The fence scrolls.
    Scroll,
    /// The rectangle grows.
    Marquee,
    /// The dragged items follow the pointer.
    Preview,
    /// The items start to follow the pointer, as a ghost.
    GhostStarted,
    /// The items leave the fence, for the system's drag and drop.
    DragOut { paths: Vec<String> },
    /// The fence is gone, and with it the drag.
    Aborted,
    /// Nothing yet.
    Idle,
}

/// The contents of a `Motion`.
pub enum MotionView {
    Hover,
    Skipped,
    Follow,
    Resize,
    Scroll,
    Marquee,
    Preview,
    GhostStarted,
    DragOut { paths: Seq<Seq<char>> },
    Aborted,
    Idle,
}

impl View for Motion {
    type V = MotionView;

    open spec fn view(&self) -> MotionView {
        match self {
            Motion::Hover => MotionView::Hover,
            Motion::Skipped => MotionView::Skipped,
            Motion::Follow => MotionView::Follow,
            Motion::Resize => MotionView::Resize,
            Motion::Scroll => MotionView::Scroll,
            Motion::Marquee => MotionView::Marquee,
            Motion::Preview => MotionView::Preview,
            Motion::GhostStarted => MotionView::GhostStarted,
            Motion::DragOut { paths } => MotionView::DragOut { paths: text::texts(paths@) },
            Motion::Aborted => MotionView::Aborted,
            Motion::Idle => MotionView::Idle,
        }
    }
}

/// What is known of a movement.
#[derive(Clone, Copy)]
pub struct Moved {
    pub now_ms: u64,
    /// Where the pointer is now.
    pub at: Place,
    /// The pointer is over the fence.
    pub inside: bool,
}

/// The least time between two steps of a moved fence, in milliseconds.
pub const MOVE_STEP_MS: u64 = 8;

/// The least time between two steps of a resized fence.
pub const RESIZE_STEP_MS: u64 = 12;

/// The least time between two times that a moved fence is drawn anew.
pub const RENDER_STEP_MS: u64 = 33;

/// The milliseconds from `last` to `now`, none where `last` is the later.
pub open spec fn since(now: u64, last: u64) -> int {
    if now >= last {
        now - last
    } else {
        0
    }
}

fn since_ms(now: u64, last: u64) -> (r: u64)
    ensures
        r == since(now, last),
{
    if now >= last {
        now - last
    } else {
        0
    }
}

/// The size of a difference.
pub open spec fn size(d: int) -> int {
    if d < 0 {
        -d
    } else {
        d
    }
}

/// The pointer has moved since the last movement of a resize: by two pixels, across
/// and down together.
pub open spec fn stirred(u: UiView, at: Place) -> bool {
    size(at.screen_x - u.settle_x) + size(at.screen_y - u.settle_y) >= 2
}

fn size_of(d: i64) -> (r: i64)
    requires
        -0x1_0000_0000 <= d <= 0x1_0000_0000,
    ensures
        r == size(d as int),
{
    if d < 0 {
        -d
    } else {
        d
    }
}

fn has_stirred(ui: &Ui, at: Place) -> (r: bool)
    ensures
        r == stirred(ui@, at),
{
    let dx: i64 = at.screen_x as i64 - ui.settle_x as i64;
    let dy: i64 = at.screen_y as i64 - ui.settle_y as i64;
    size_of(dx) + size_of(dy) >= 2
}

/// How a drag of the item at `idx` starts to move: inside the fence the items follow
/// the pointer, and the fence shows its items in the order they had, now its own;
/// outside they leave it.
pub open spec fn icon_moved(
    u: UiView,
    fences: Seq<FenceView>,
    fence_id: u32,
    items: Seq<Seq<char>>,
    idx: int,
    inside: bool,
) -> (UiView, Seq<FenceView>, MotionView) {
    match model::fence_at(fences, fence_id) {
        None => (UiView { drag: None, ..u }, fences, MotionView::Aborted),
        Some(at) => {
            let paths = drag::taken_along(u.selection, items, idx);
            let v = UiView {
                drag: match u.drag {
                    Some(d) => Some(DragView { dragged_out: true, ..d }),
                    None => None,
                },
                ..u
            };
            if paths.len() == 0 {
                (v, fences, MotionView::Idle)
            } else if inside {
                (
                    UiView {
                        preview: Some(drag::fresh_preview(fences[at], fence_id, items, paths)),
                        ghost_shown: true,
                        ..v
                    },
                    desk::with_fence(
                        fences,
                        fence_id,
                        |f: FenceView| drag::hand_ordered(f, items),
                    ),
                    MotionView::GhostStarted,
                )
            } else {
                (v, fences, MotionView::DragOut { paths })
            }
        },
    }
}

/// The rectangle from where the button was pressed to where the pointer is.
pub open spec fn drawn(start: Place, at: Place) -> Span {
    Span { x0: start.x, y0: start.y, x1: at.x, y1: at.y }
}

/// What a movement over a fence that shows `items` leads to.
pub open spec fn moved_ui(
    u: UiView,
    fences: Seq<FenceView>,
    fence_id: u32,
    items: Seq<Seq<char>>,
    m: Moved,
) -> (UiView, Seq<FenceView>, MotionView) {
    match u.drag {
        None => (u, fences, MotionView::Hover),
        Some(d) => if d.fence_id != fence_id {
            (u, fences, MotionView::Hover)
        } else {
            match d.mode {
                DragMode::Move => if since(m.now_ms, u.last_move_ms) < MOVE_STEP_MS {
                    (u, fences, MotionView::Skipped)
                } else {
                    (UiView { last_move_ms: m.now_ms, ..u }, fences, MotionView::Follow)
                },
                DragMode::Resize(_) => if !stirred(u, m.at) {
                    (u, fences, MotionView::Skipped)
                } else {
                    let v = UiView { settle_x: m.at.screen_x, settle_y: m.at.screen_y, ..u };
                    if since(m.now_ms, u.last_resize_ms) < RESIZE_STEP_MS {
                        (v, fences, MotionView::Skipped)
                    } else {
                        (UiView { last_resize_ms: m.now_ms, ..v }, fences, MotionView::Resize)
                    }
                },
                DragMode::ScrollThumb => (u, fences, MotionView::Scroll),
                DragMode::Marquee => (
                    UiView { marquee: Some(drawn(d.start, m.at)), ..u },
                    fences,
                    MotionView::Marquee,
                ),
                DragMode::Icon(idx) => if u.ghost_shown {
                    (u, fences, MotionView::Preview)
                } else if !d.dragged_out && drag::farther(
                    m.at.x - d.start.x,
                    m.at.y - d.start.y,
                ) {
                    icon_moved(u, fences, fence_id, items, idx as int, m.inside)
                } else {
                    (u, fences, MotionView::Idle)
                },
            }
        },
    }
}

fn start_ghost(
    ui: &mut Ui,
    fences: &mut Vec<Fence>,
    fence_id: u32,
    at: usize,
    items: &Vec<FileItem>,
    paths: &Vec<String>,
)
    requires
        at < old(fences).len(),
        model::fence_at(model::fence_views(old(fences)@), fence_id) == Some(at as int),
    ensures
        final(ui)@ == (UiView {
            preview: Some(
                drag::fresh_preview(
                    old(fences)@[at as int]@,
                    fence_id,
                    model::paths_of(items@),
                    text::texts(paths@),
                ),
            ),
            ghost_shown: true,
            ..old(ui)@
        }),
        model::fence_views(final(fences)@) == desk::with_fence(
            model::fence_views(old(fences)@),
            fence_id,
            |f: FenceView| drag::hand_ordered(f, model::paths_of(items@)),
        ),
{
    let ghost was = model::fence_views(fences@);
    let original = selection::item_paths(items);
    let original_sort_mode = fences[at].sort_mode.clone();
    let dragged_paths = selection::chosen_items(items, paths);
    assert(text::texts(dragged_paths@).len() == dragged_paths@.len());
    let first: usize = drag::first_chosen(items, &dragged_paths);
    let rest: usize = if items.len() > dragged_paths.len() {
        items.len() - dragged_paths.len()
    } else {
        0
    };
    let target: usize = if first < rest {
        first
    } else {
        rest
    };
    drag::set_order(fences, fence_id, &original, drag::MANUAL_SORT);
    proof {
        assert(model::fence_views(fences@) =~= desk::with_fence(
            was,
            fence_id,
            |f: FenceView| drag::hand_ordered(f, model::paths_of(items@)),
        ));
    }
    ui.preview = Some(
        GhostPreview { fence_id, original, original_sort_mode, dragged_paths, target },
    );
    ui.ghost_shown = true;
}

fn mark_dragged_out(ui: &mut Ui)
    ensures
        final(ui)@ == (UiView {
            drag: match old(ui)@.drag {
                Some(d) => Some(DragView { dragged_out: true, ..d }),
                None => None,
            },
            ..old(ui)@
        }),
{
    match ui.drag.take() {
        None => {},
        Some(d) => {
            let mut d = d;
            d.dragged_out = true;
            ui.drag = Some(d);
        },
    }
}

/// The pointer moved over a fence that shows `items`.
pub fn handle_mousemove(
    ui: &mut Ui,
    fences: &mut Vec<Fence>,
    fence_id: u32,
    items: &Vec<FileItem>,
    m: Moved,
) -> (r: Motion)
    ensures
        (final(ui)@, model::fence_views(final(fences)@), r@) == moved_ui(
            old(ui)@,
            model::fence_views(old(fences)@),
            fence_id,
            model::paths_of(items@),
            m,
        ),
{
    let (mode, out, start): (DragMode, bool, Place) = match &ui.drag {
        None => {
            return Motion::Hover;
        },
        Some(d) => {
            if d.fence_id != fence_id {
                return Motion::Hover;
            }
            (d.mode, d.dragged_out, d.start)
        },
    };
    match mode {
        DragMode::Move => {
            if since_ms(m.now_ms, ui.last_move_ms) < MOVE_STEP_MS {
                return Motion::Skipped;
            }
            ui.last_move_ms = m.now_ms;
            Motion::Follow
        },
        DragMode::Resize(_) => {
            if !has_stirred(ui, m.at) {
                return Motion::Skipped;
            }
            ui.settle_x = m.at.screen_x;
            ui.settle_y = m.at.screen_y;
            if since_ms(m.now_ms, ui.last_resize_ms) < RESIZE_STEP_MS {
                return Motion::Skipped;
            }
            ui.last_resize_ms = m.now_ms;
            Motion::Resize
        },
        DragMode::ScrollThumb => Motion::Scroll,
        DragMode::Marquee => {
            ui.marquee = Some(
                Span { x0: start.x, y0: start.y, x1: m.at.x, y1: m.at.y },
            );
            Motion::Marquee
        },
        DragMode::Icon(idx) => {
            if ui.ghost_shown {
                return Motion::Preview;
            }
            if out || !drag::is_farther(start.x, start.y, m.at.x, m.at.y) {
                return Motion::Idle;
            }
            match model::fence_position(fences, fence_id) {
                None => {
                    ui.drag = None;
                    Motion::Aborted
                },
                Some(at) => {
                    let paths = drag::drag_along(&ui.selection, items, idx);
                    assert(text::texts(paths@).len() == paths@.len());
                    mark_dragged_out(ui);
                    if paths.len() == 0 {
                        return Motion::Idle;
                    }
                    if m.inside {
                        start_ghost(ui, fences, fence_id, at, items, &paths);
                        Motion::GhostStarted
                    } else {
                        Motion::DragOut { paths }
                    }
                },
            }
        },
    }
}

/// Whether a fence that follows the pointer is due to be drawn anew.
pub fn drag_render_due(ui: &mut Ui, now_ms: u64) -> (r: bool)
    ensures
        r == (since(now_ms, old(ui).last_render_ms) >= RENDER_STEP_MS),
        final(ui)@ == (UiView {
            last_render_ms: if r {
                now_ms
            } else {
                old(ui).last_render_ms
            },
            ..old(ui)@
        }),
{
    let due = since_ms(now_ms, ui.last_render_ms) >= RENDER_STEP_MS;
    if due {
        ui.last_render_ms = now_ms;
    }
    due
}

/// Shows or hides the line that marks where a moved fence would go. The drag keeps
/// in mind whether there was such a place.
pub fn show_line(ui: &mut Ui, shown: bool)
    ensures
        final(ui)@ == (UiView {
            line: shown,
            drag: match old(ui)@.drag {
                Some(d) => Some(DragView { planned: shown, ..d }),
                None => None,
            },
            ..old(ui)@
        }),
{
    ui.line = shown;
    match ui.drag.take() {
        None => {},
        Some(d) => {
            let mut d = d;
            d.planned = shown;
            ui.drag = Some(d);
        },
    }
}

/// Scrolls a fence to the row `row`.
pub fn scroll_to(fences: &mut Vec<Fence>, fence_id: u32, row: usize)
    ensures
        model::fence_views(final(fences)@) == desk::with_fence(
            model::fence_views(old(fences)@),
            fence_id,
            |f: FenceView| FenceView { scroll_rows: row, ..f },
        ),
{
    let ghost was = model::fence_views(fences@);
    match model::fence_position(fences, fence_id) {
        None => {},
        Some(i) => {
            fences[i].scroll_rows = row;
            assert(model::fence_views(fences@) =~= was.update(
                i as int,
                FenceView { scroll_rows: row, ..was[i as int] },
            ));
        },
    }
}

/// How a moved fence is lined up.
#[derive(Clone, Copy, PartialEq, Eq, Structural)]
pub enum LineUp {
    /// Into the rows of the other fences, at a line that shows where.
    Rows,
    /// To the nearest cell of the grid, and to nothing else.
    Cells,
    /// To the neighbours, where it comes near them.
    Neighbours,
}

/// How the chosen mode lines a moved fence up.
pub fn line_up(auto_align: bool, grid_align: bool) -> (r: LineUp)
    ensures
        r == (if auto_align {
            LineUp::Rows
        } else if grid_align {
            LineUp::Cells
        } else {
            LineUp::Neighbours
        }),
{
    if auto_align {
        LineUp::Rows
    } else if grid_align {
        LineUp::Cells
    } else {
        LineUp::Neighbours
    }
}

/// A drag of items that was started and taken back leaves every fence as it was, but
/// for the own order of its fence, which is now the order in which the items stood.
pub proof fn law_cancelled_drag_leaves_the_fences(
    u: UiView,
    fences: Seq<FenceView>,
    fence_id: u32,
    items: Seq<Seq<char>>,
    idx: int,
)
    requires
        icon_moved(u, fences, fence_id, items, idx, true).2 is GhostStarted,
    ensures
        ({
            let (v, moved, _) = icon_moved(u, fences, fence_id, items, idx, true);
            drag::rolled_back(moved, v.preview) == desk::with_fence(
                fences,
                fence_id,
                |f: FenceView| FenceView { item_order: items, ..f },
            )
        }),
{
    let at = model::fence_at(fences, fence_id)->0;
    let (v, moved, _) = icon_moved(u, fences, fence_id, items, idx, true);
    model::lemma_fence_at(fences, fence_id);
    desk::lemma_fence_at_updated(fences, fence_id, at, drag::hand_ordered(fences[at], items));
    assert(moved == fences.update(at, drag::hand_ordered(fences[at], items)));
    assert(drag::rolled_back(moved, v.preview) =~= desk::with_fence(
        fences,
        fence_id,
        |f: FenceView| FenceView { item_order: items, ..f },
    ));
}

/// Two steps of a moved fence are at least `MOVE_STEP_MS` apart, and two of a resized
/// one at least `RESIZE_STEP_MS`.
pub proof fn law_moves_are_throttled(
    u: UiView,
    fences: Seq<FenceView>,
    fence_id: u32,
    items: Seq<Seq<char>>,
    m: Moved,
    n: Moved,
)
    ensures
        ({
            let (v, f, first) = moved_ui(u, fences, fence_id, items, m);
            let (_, _, second) = moved_ui(v, f, fence_id, items, n);
            &&& first is Follow && second is Follow ==> n.now_ms >= m.now_ms + MOVE_STEP_MS
            &&& first is Resize && second is Resize ==> n.now_ms >= m.now_ms + RESIZE_STEP_MS
        }),
{
}

// ---------------------------------------------------------------- hovering

/// What lights up on a fence under the pointer. Nothing does before the pointer has
/// rested for a while: until then it is pending.
#[derive(Clone, Copy)]
pub struct Hover {
    pub shown: bool,
    pub pending: bool,
    pub icon: Option<usize>,
    pub icon_pending: Option<Option<usize>>,
    pub hit: Hit,
}

/// What is to be done with the timer of the fence.
#[derive(Clone, Copy, PartialEq, Eq, Structural)]
pub enum HoverTimer {
    Keep,
    Start,
    Stop,
}

/// The item that a hit falls on.
pub open spec fn icon_of(hit: Hit) -> Option<usize> {
    match hit {
        Hit::Icon(i) => Some(i),
        _ => None,
    }
}

/// What is pending after the pointer moved onto `hit`.
pub open spec fn hovered(h: Hover, hit: Hit) -> (Hover, HoverTimer) {
    let starts = !h.shown && !h.pending;
    let v = Hover { hit, pending: h.pending || starts, ..h };
    let awaited = match h.icon_pending {
        Some(p) => p,
        None => h.icon,
    };
    if h.icon != icon_of(hit) {
        (
            Hover { icon_pending: Some(icon_of(hit)), ..v },
            if starts || awaited != icon_of(hit) {
                HoverTimer::Start
            } else {
                HoverTimer::Keep
            },
        )
    } else {
        (
            Hover { icon_pending: None, ..v },
            if h.icon_pending is Some {
                HoverTimer::Stop
            } else if starts {
                HoverTimer::Start
            } else {
                HoverTimer::Keep
            },
        )
    }
}

fn same_icon(a: Option<usize>, b: Option<usize>) -> (r: bool)
    ensures
        r == (a == b),
{
    match (a, b) {
        (Some(x), Some(y)) => x == y,
        (None, None) => true,
        _ => false,
    }
}

/// The pointer moved onto `hit` of a fence where no drag goes on.
pub fn track_hover(h: &mut Hover, hit: Hit) -> (r: HoverTimer)
    ensures
        (*final(h), r) == hovered(*old(h), hit),
{
    let new_icon: Option<usize> = match hit {
        Hit::Icon(i) => Some(i),
        _ => None,
    };
    h.hit = hit;
    let starts = !h.shown && !h.pending;
    if starts {
        h.pending = true;
    }
    if !same_icon(h.icon, new_icon) {
        let awaited = match h.icon_pending {
            Some(p) => p,
            None => h.icon,
        };
        let changed = !same_icon(awaited, new_icon);
        h.icon_pending = Some(new_icon);
        if starts || changed {
            HoverTimer::Start
        } else {
            HoverTimer::Keep
        }
    } else {
        let waited = h.icon_pending.is_some();
        h.icon_pending = None;
        if waited {
            HoverTimer::Stop
        } else if starts {
            HoverTimer::Start
        } else {
            HoverTimer::Keep
        }
    }
}

/// Nothing lights up under the pointer.
pub open spec fn dark() -> Hover {
    Hover { shown: false, pending: false, icon: None, icon_pending: None, hit: Hit::Nothing }
}

/// Puts everything out that lights up, as a menu opens. True where the fence was lit
/// and is to be drawn anew.
pub fn clear_hover(h: &mut Hover) -> (r: bool)
    ensures
        r == old(h).shown,
        *final(h) == dark(),
{
    let lit = h.shown;
    *h = Hover { shown: false, pending: false, icon: None, icon_pending: None, hit: Hit::Nothing };
    lit
}

/// The time the pointer rests before something lights up: the system's, 400
/// milliseconds where it gives none, and never less than 50.
pub fn hover_delay_ms(system: Option<u32>) -> (r: u32)
    ensures
        r == (match system {
            Some(v) => if v == 0 {
                400
            } else if v < 50 || v > i32::MAX {
                50
            } else {
                v
            },
            None => 400,
        }),
{
    match system {
        Some(v) => {
            if v == 0 {
                400
            } else if v > 0x7fff_ffff || v < 50 {
                50
            } else {
                v
            }
        },
        None => 400,
    }
}

// ---------------------------------------------------------------- what a movement means

/// A moved fence follows the pointer where 8 milliseconds have passed since its last
/// step, and a resized one where 12 have and the pointer has moved by two pixels, across
/// and down together. Neither changes a fence by itself. A movement without a drag, or
/// over another fence than that of the drag, only hovers.
pub proof fn law_movement_steps_in_time(
    u: UiView,
    fences: Seq<FenceView>,
    fence_id: u32,
    items: Seq<Seq<char>>,
    m: Moved,
)
    ensures
        ({
            let (v, f, r) = moved_ui(u, fences, fence_id, items, m);
            let own = u.drag is Some && u.drag->0.fence_id == fence_id;
            let mode = u.drag->0.mode;
            let dx = m.at.screen_x - u.settle_x;
            let dy = m.at.screen_y - u.settle_y;
            let stir = dx + dy >= 2 || dx - dy >= 2 || dy - dx >= 2 || -dx - dy >= 2;
            &&& r is Hover <==> !own
            &&& !own ==> v == u && f == fences
            &&& r is Follow <==> own && mode is Move && m.now_ms >= u.last_move_ms + 8
            &&& r is Follow ==> v == (UiView { last_move_ms: m.now_ms, ..u })
            &&& r is Resize <==> own && mode is Resize && stir && m.now_ms >= u.last_resize_ms + 12
            &&& r is Skipped <==> own && (mode is Move || mode is Resize) && !(r is Follow)
                && !(r is Resize)
            &&& r is Resize ==> v == (UiView {
                last_resize_ms: m.now_ms,
                settle_x: m.at.screen_x,
                settle_y: m.at.screen_y,
                ..u
            })
            &&& own && mode is Resize && stir ==> v.settle_x == m.at.screen_x && v.settle_y
                == m.at.screen_y
            &&& own && mode is Resize && !stir ==> v == u
            &&& own && mode is Move && !(r is Follow) ==> v == u
            &&& r is Scroll <==> own && mode is ScrollThumb
            &&& r is Marquee <==> own && mode is Marquee
            &&& r is Marquee ==> v == (UiView {
                marquee: Some(
                    Span {
                        x0: u.drag->0.start.x,
                        y0: u.drag->0.start.y,
                        x1: m.at.x,
                        y1: m.at.y,
                    },
                ),
                ..u
            })
            &&& r is Follow || r is Resize || r is Scroll || r is Marquee || r is Skipped ==> f
                == fences
        }),
{
}

/// Items start to be dragged when the pointer is more than eight pixels from where it was
/// pressed, once. Inside the fence they follow the pointer: the fence then shows its items
/// in the order they had, as its own. Outside they leave it. The items are the selected
/// ones where the pressed one is among them, else that one alone.
pub proof fn law_items_start_to_move(
    u: UiView,
    fences: Seq<FenceView>,
    fence_id: u32,
    items: Seq<Seq<char>>,
    m: Moved,
    idx: usize,
    at: int,
)
    requires
        u.drag is Some,
        u.drag->0.fence_id == fence_id,
        u.drag->0.mode == DragMode::Icon(idx),
        idx < items.len(),
        0 <= at < fences.len(),
        fences[at].id == fence_id,
        forall|j: int| 0 <= j < at ==> (#[trigger] fences[j]).id != fence_id,
    ensures
        ({
            let (v, f, r) = moved_ui(u, fences, fence_id, items, m);
            let d = u.drag->0;
            let dx = m.at.x - d.start.x;
            let dy = m.at.y - d.start.y;
            let goes = !u.ghost_shown && !d.dragged_out && dx * dx + dy * dy > 8 * 8;
            let chosen = items.filter(|x: Seq<char>| u.selection.paths.contains(x));
            let paths = if u.selection.paths.contains(items[idx as int]) {
                chosen
            } else {
                seq![items[idx as int]]
            };
            &&& r is Preview <==> u.ghost_shown
            &&& r is Idle <==> !u.ghost_shown && !goes
            &&& r is GhostStarted <==> goes && m.inside
            &&& r is DragOut <==> goes && !m.inside
            &&& !goes ==> v == u && f == fences
            &&& goes ==> v.drag == Some(DragView { dragged_out: true, ..d })
            &&& r is DragOut ==> r->paths == paths && f == fences && v.preview == u.preview
                && v.ghost_shown == u.ghost_shown
            &&& r is GhostStarted ==> {
                &&& v.ghost_shown
                &&& v.preview is Some
                &&& v.preview->0.fence_id == fence_id
                &&& v.preview->0.original == items
                &&& v.preview->0.original_sort_mode == fences[at].sort_mode
                &&& v.preview->0.dragged_paths == items.filter(|x: Seq<char>| paths.contains(x))
                &&& f == fences.update(
                    at,
                    FenceView { item_order: items, sort_mode: "手动"@, ..fences[at] },
                )
            }
            &&& v.selection == u.selection
        }),
{
    model::lemma_fence_at_is(fences, fence_id, at);
    drag::law_selected_items_go_along(u.selection, items, idx as int);
    let paths = drag::taken_along(u.selection, items, idx as int);
    selection::law_chosen_are_filtered(items, paths);
    if u.selection.paths.contains(items[idx as int]) {
        items.lemma_filter_contains(|x: Seq<char>| u.selection.paths.contains(x), idx as int);
    }
}

/// An item lights up, or is pending to, as the pointer comes onto it: what is pending is
/// the item under the pointer where it is not the one that is lit, and nothing where it
/// is. The timer starts anew where what is pending changes, and stops where the pointer
/// came back to what is lit.
pub proof fn law_pointer_lights_what_it_rests_on(h: Hover, hit: Hit)
    ensures
        ({
            let (v, t) = hovered(h, hit);
            let icon = match hit {
                Hit::Icon(i) => Some(i),
                _ => None,
            };
            &&& v.hit == hit
            &&& v.shown == h.shown
            &&& v.icon == h.icon
            &&& v.pending <==> h.pending || !h.shown
            &&& v.icon_pending == (if icon == h.icon {
                None
            } else {
                Some(icon)
            })
            &&& t is Stop <==> icon == h.icon && h.icon_pending is Some
            &&& t is Start <==> (icon == h.icon && h.icon_pending is None && !h.shown && !h.pending)
                || (icon != h.icon && ((!h.shown && !h.pending) || h.icon_pending != Some(icon)))
        }),
{
}

/// Once nothing is lit, nothing is pending.
pub proof fn law_dark_is_dark()
    ensures
        !dark().shown,
        !dark().pending,
        dark().icon is None,
        dark().icon_pending is None,
        dark().hit is Nothing,
{
}

/// A moved fence is drawn anew where 33 milliseconds have passed since it was, and not where
/// the clock went back.
pub proof fn law_drawing_is_throttled(now: u64, last: u64)
    ensures
        since(now, last) >= RENDER_STEP_MS <==> now >= last + 33,
{
}

/// The start of a drag of items leaves everything but the drag, the preview and the ghost.
pub proof fn law_started_drag_leaves_the_rest(
    u: UiView,
    fences: Seq<FenceView>,
    fence_id: u32,
    items: Seq<Seq<char>>,
    m: Moved,
)
    ensures
        ({
            let (v, f, r) = moved_ui(u, fences, fence_id, items, m);
            &&& r is GhostStarted || r is DragOut || r is Aborted || r is Idle || r is Preview ==> v
                == (UiView {
                drag: v.drag,
                preview: v.preview,
                ghost_shown: v.ghost_shown,
                ..u
            })
            &&& r is Aborted ==> v.drag is None && forall|i: int|
                0 <= i < fences.len() ==> (#[trigger] fences[i]).id != fence_id
            &&& !(r is GhostStarted) ==> f == fences && v.preview == u.preview && v.ghost_shown
                == u.ghost_shown
        }),
{
    model::lemma_fence_at(fences, fence_id);
}

} // verus!

//! Mouse and keyboard on a fence: what a press, a movement, a release and a key do
//! to the fences, the selection and the drag that is going on.
use crate::desk;
use crate::grid;
use crate::grid::{Hit, Layout};
use crate::model;
use crate::model::{Fence, FenceView, FileItem};
use crate::selection;
use crate::selection::{Selection, SelectionView};
use crate::text;
use vstd::prelude::*;

verus! {

// ---------------------------------------------------------------- state

/// What a drag does.
#[derive(Clone, Copy, PartialEq, Eq, Structural)]
pub enum DragMode {
    Move,
    /// Resizes by the edge or corner that was hit.
    Resize(Hit),
    /// Drags the item at this place of the fence.
    Icon(usize),
    Marquee,
    ScrollThumb,
}

/// Where the pointer is: in the fence, and on the screen.
#[derive(Clone, Copy, PartialEq, Eq, Structural)]
pub struct Place {
    pub x: i32,
    pub y: i32,
    pub screen_x: i32,
    pub screen_y: i32,
}

/// A rectangle of a fence, by the corner where it began and the opposite one.
#[derive(Clone, Copy, PartialEq, Eq, Structural)]
pub struct Span {
    pub x0: i32,
    pub y0: i32,
    pub x1: i32,
    pub y1: i32,
}

/// The distance of two points is more than eight pixels.
pub open spec fn farther(dx: int, dy: int) -> bool {
    dx * dx + dy * dy > 64
}

/// Whether `(x, y)` is more than eight pixels from `(x0, y0)`.
pub fn is_farther(x0: i32, y0: i32, x: i32, y: i32) -> (r: bool)
    ensures
        r == farther(x - x0, y - y0),
{
    let dx: i64 = x as i64 - x0 as i64;
    let dy: i64 = y as i64 - y0 as i64;
    if dx < -8 || dx > 8 || dy < -8 || dy > 8 {
        assert(dx * dx + dy * dy > 64) by (nonlinear_arith)
            requires
                dx < -8 || dx > 8 || dy < -8 || dy > 8,
        ;
        return true;
    }
    assert(0 <= dx * dx <= 64) by (nonlinear_arith)
        requires
            -8 <= dx <= 8,
    ;
    assert(0 <= dy * dy <= 64) by (nonlinear_arith)
        requires
            -8 <= dy <= 8,
    ;
    dx * dx + dy * dy > 64
}

/// A drag that is going on.
pub struct Drag {
    pub fence_id: u32,
    pub mode: DragMode,
    /// Where the button was pressed.
    pub start: Place,
    /// Whether there was a slot for the moved fence at the last movement.
    pub planned: bool,
    pub dragged_out: bool,
    /// Whether the item that was pressed was selected before.
    pub icon_was_selected: bool,
    pub icon_path: String,
}

/// The contents of a `Drag`.
pub struct DragView {
    pub fence_id: u32,
    pub mode: DragMode,
    pub start: Place,
    pub planned: bool,
    pub dragged_out: bool,
    pub icon_was_selected: bool,
    pub icon_path: Seq<char>,
}

impl View for Drag {
    type V = DragView;

    open spec fn view(&self) -> DragView {
        DragView {
            fence_id: self.fence_id,
            mode: self.mode,
            start: self.start,
            planned: self.planned,
            dragged_out: self.dragged_out,
            icon_was_selected: self.icon_was_selected,
            icon_path: self.icon_path@,
        }
    }
}

/// The order that a fence would get if the dragged items were dropped now.
pub struct GhostPreview {
    pub fence_id: u32,
    /// The order in which the fence showed its items at the press.
    pub original: Vec<String>,
    pub original_sort_mode: String,
    pub dragged_paths: Vec<String>,
    /// The slot among the other items.
    pub target: usize,
}

/// The contents of a `GhostPreview`.
pub struct GhostView {
    pub fence_id: u32,
    pub original: Seq<Seq<char>>,
    pub original_sort_mode: Seq<char>,
    pub dragged_paths: Seq<Seq<char>>,
    pub target: usize,
}

impl View for GhostPreview {
    type V = GhostView;

    open spec fn view(&self) -> GhostView {
        GhostView {
            fence_id: self.fence_id,
            original: text::texts(self.original@),
            original_sort_mode: self.original_sort_mode@,
            dragged_paths: text::texts(self.dragged_paths@),
            target: self.target,
        }
    }
}

/// The user's doings.
pub struct Ui {
    pub active_fence: Option<u32>,
    pub selection: Selection,
    pub drag: Option<Drag>,
    pub preview: Option<GhostPreview>,
    /// Whether a ghost of the dragged items follows the pointer.
    pub ghost_shown: bool,
    /// Whether a line shows where the dragged things would go.
    pub line: bool,
    /// The rectangle that is being drawn.
    pub marquee: Option<Span>,
    /// Whether the ghost hovers over the recycle bin.
    pub trash_target: bool,
    /// What a double click is going to open.
    pub pending_open: Option<String>,
    /// Where on the screen the pointer was at that double click.
    pub pending_at: Option<(i32, i32)>,
    /// Where on the screen the pointer was at the last movement of a resize.
    pub settle_x: i32,
    pub settle_y: i32,
    pub last_up_ms: u64,
    pub last_move_ms: u64,
    pub last_render_ms: u64,
    pub last_resize_ms: u64,
}

/// The contents of a `Ui`.
pub struct UiView {
    pub active_fence: Option<u32>,
    pub selection: SelectionView,
    pub drag: Option<DragView>,
    pub preview: Option<GhostView>,
    pub ghost_shown: bool,
    pub line: bool,
    pub marquee: Option<Span>,
    pub trash_target: bool,
    pub pending_open: Option<Seq<char>>,
    pub pending_at: Option<(i32, i32)>,
    pub settle_x: i32,
    pub settle_y: i32,
    pub last_up_ms: u64,
    pub last_move_ms: u64,
    pub last_render_ms: u64,
    pub last_resize_ms: u64,
}

/// The contents of an optional drag.
pub open spec fn drag_view(d: Option<Drag>) -> Option<DragView> {
    match d {
        Some(d) => Some(d@),
        None => None,
    }
}

/// The contents of an optional preview.
pub open spec fn ghost_view(g: Option<GhostPreview>) -> Option<GhostView> {
    match g {
        Some(g) => Some(g@),
        None => None,
    }
}

impl View for Ui {
    type V = UiView;

    open spec fn view(&self) -> UiView {
        UiView {
            active_fence: self.active_fence,
            selection: self.selection@,
            drag: drag_view(self.drag),
            preview: ghost_view(self.preview),
            ghost_shown: self.ghost_shown,
            line: self.line,
            marquee: self.marquee,
            trash_target: self.trash_target,
            pending_open: text::opt_text(self.pending_open),
            pending_at: self.pending_at,
            settle_x: self.settle_x,
            settle_y: self.settle_y,
            last_up_ms: self.last_up_ms,
            last_move_ms: self.last_move_ms,
            last_render_ms: self.last_render_ms,
            last_resize_ms: self.last_resize_ms,
        }
    }
}

/// Nothing is selected and nothing goes on.
pub open spec fn idle_ui() -> UiView {
    UiView {
        active_fence: None,
        selection: selection::nothing_selected(),
        drag: None,
        preview: None,
        ghost_shown: false,
        line: false,
        marquee: None,
        trash_target: false,
        pending_open: None,
        pending_at: None,
        settle_x: 0,
        settle_y: 0,
        last_up_ms: 0,
        last_move_ms: 0,
        last_render_ms: 0,
        last_resize_ms: 0,
    }
}

impl Ui {
    /// Nothing is selected and nothing goes on.
    pub fn new() -> (r: Ui)
        ensures
            r@ == idle_ui(),
    {
        Ui {
            active_fence: None,
            selection: Selection::new(),
            drag: None,
            preview: None,
            ghost_shown: false,
            line: false,
            marquee: None,
            trash_target: false,
            pending_open: None,
            pending_at: None,
            settle_x: 0,
            settle_y: 0,
            last_up_ms: 0,
            last_move_ms: 0,
            last_render_ms: 0,
            last_resize_ms: 0,
        }
    }
}

// ---------------------------------------------------------------- edges

/// A hit falls on an edge or a corner.
pub open spec fn edge_hit(h: Hit) -> bool {
    match h {
        Hit::EdgeW | Hit::EdgeE | Hit::EdgeN | Hit::EdgeS => true,
        Hit::CornerNW | Hit::CornerNE | Hit::CornerSW | Hit::CornerSE => true,
        _ => false,
    }
}

/// Whether a hit falls on an edge or a corner.
pub fn is_edge(h: &Hit) -> (r: bool)
    ensures
        r == edge_hit(*h),
{
    match *h {
        Hit::EdgeW | Hit::EdgeE | Hit::EdgeN | Hit::EdgeS => true,
        Hit::CornerNW | Hit::CornerNE | Hit::CornerSW | Hit::CornerSE => true,
        _ => false,
    }
}

/// The sides that a hit moves, each by its letter.
pub open spec fn sides(h: Hit) -> Seq<char> {
    match h {
        Hit::EdgeW => seq!['w', '\0'],
        Hit::EdgeE => seq!['e', '\0'],
        Hit::EdgeN => seq!['n', '\0'],
        Hit::EdgeS => seq!['s', '\0'],
        Hit::CornerNW => seq!['n', 'w'],
        Hit::CornerNE => seq!['n', 'e'],
        Hit::CornerSW => seq!['s', 'w'],
        Hit::CornerSE => seq!['s', 'e'],
        _ => seq!['\0', '\0'],
    }
}

/// The sides that a hit moves.
pub fn edges_of(h: Hit) -> (r: [char; 2])
    ensures
        r@ == sides(h),
{
    let r = match h {
        Hit::EdgeW => ['w', '\0'],
        Hit::EdgeE => ['e', '\0'],
        Hit::EdgeN => ['n', '\0'],
        Hit::EdgeS => ['s', '\0'],
        Hit::CornerNW => ['n', 'w'],
        Hit::CornerNE => ['n', 'e'],
        Hit::CornerSW => ['s', 'w'],
        Hit::CornerSE => ['s', 'e'],
        _ => ['\0', '\0'],
    };
    assert(r@ =~= sides(h));
    r
}

/// The number of the system's pointer for a hit: a double arrow on an edge or a
/// corner, the plain arrow elsewhere and on a locked fence.
pub open spec fn cursor_id(locked: bool, h: Hit) -> usize {
    if locked {
        32512
    } else {
        match h {
            Hit::CornerNW | Hit::CornerSE => 32642,
            Hit::CornerNE | Hit::CornerSW => 32643,
            Hit::EdgeW | Hit::EdgeE => 32644,
            Hit::EdgeN | Hit::EdgeS => 32645,
            _ => 32512,
        }
    }
}

/// The pointer over a fence whose last hit was `hit`, if there was one.
pub fn handle_setcursor(fences: &Vec<Fence>, fence_id: u32, hit: Option<Hit>) -> (r: usize)
    ensures
        r == cursor_id(
            match model::fence_at(model::fence_views(fences@), fence_id) {
                Some(i) => fences@[i].locked,
                None => false,
            },
            match hit {
                Some(h) => h,
                None => Hit::Nothing,
            },
        ),
{
    let locked = match model::fence_position(fences, fence_id) {
        Some(i) => fences[i].locked,
        None => false,
    };
    let h = match hit {
        Some(h) => h,
        None => Hit::Nothing,
    };
    if locked {
        return 32512;
    }
    match h {
        Hit::CornerNW | Hit::CornerSE => 32642,
        Hit::CornerNE | Hit::CornerSW => 32643,
        Hit::EdgeW | Hit::EdgeE => 32644,
        Hit::EdgeN | Hit::EdgeS => 32645,
        _ => 32512,
    }
}

// ---------------------------------------------------------------- press

/// What a press leads to.
#[derive(Clone, Copy, PartialEq, Eq, Structural)]
pub enum Press {
    /// The fence is gone or locked.
    Ignored,
    /// The fence's menu opens.
    Menu,
    /// A drag starts.
    Dragging,
    /// Nothing more.
    Still,
}

/// A drag that starts at `start`.
pub open spec fn fresh_drag(fence_id: u32, mode: DragMode, start: Place) -> DragView {
    DragView {
        fence_id,
        mode,
        start,
        planned: false,
        dragged_out: false,
        icon_was_selected: false,
        icon_path: Seq::empty(),
    }
}

/// The doings after a press on `hit` of a fence that is not locked. `scrolls` tells
/// whether the fence has more rows than it shows.
pub open spec fn pressed_on(
    u: UiView,
    fence_id: u32,
    items: Seq<Seq<char>>,
    hit: Hit,
    scrolls: bool,
    ctrl: bool,
    shift: bool,
    at: Place,
) -> (UiView, Press) {
    match hit {
        Hit::Collapse => (u, Press::Menu),
        Hit::Icon(i) => if i < items.len() {
            let path = items[i as int];
            let v = UiView {
                selection: selection::pressed(u.selection, items, i as int, ctrl, shift),
                ..u
            };
            if model::bin_path(path) {
                (v, Press::Still)
            } else {
                (
                    UiView {
                        drag: Some(
                            DragView {
                                icon_was_selected: u.selection.paths.contains(path),
                                icon_path: path,
                                ..fresh_drag(fence_id, DragMode::Icon(i), at)
                            },
                        ),
                        ..v
                    },
                    Press::Dragging,
                )
            }
        } else {
            (
                UiView { drag: Some(fresh_drag(fence_id, DragMode::Icon(i), at)), ..u },
                Press::Dragging,
            )
        },
        Hit::Scrollbar => if scrolls {
            (
                UiView { drag: Some(fresh_drag(fence_id, DragMode::ScrollThumb, at)), ..u },
                Press::Dragging,
            )
        } else {
            (u, Press::Still)
        },
        Hit::Title => (
            UiView { drag: Some(fresh_drag(fence_id, DragMode::Move, at)), ..u },
            Press::Dragging,
        ),
        Hit::Blank => (
            UiView {
                selection: selection::pressed_blank(u.selection, ctrl),
                marquee: Some(Span { x0: at.x, y0: at.y, x1: at.x, y1: at.y }),
                drag: Some(fresh_drag(fence_id, DragMode::Marquee, at)),
                ..u
            },
            Press::Dragging,
        ),
        Hit::Nothing => (u, Press::Still),
        _ => (
            UiView { drag: Some(fresh_drag(fence_id, DragMode::Resize(hit), at)), ..u },
            Press::Dragging,
        ),
    }
}

/// The doings after a press on a fence.
pub open spec fn pressed_ui(
    u: UiView,
    fences: Seq<FenceView>,
    fence_id: u32,
    items: Seq<Seq<char>>,
    hit: Hit,
    scrolls: bool,
    ctrl: bool,
    shift: bool,
    at: Place,
) -> (UiView, Press) {
    let v = UiView { active_fence: Some(fence_id), ..u };
    match model::fence_at(fences, fence_id) {
        None => (v, Press::Ignored),
        Some(i) => if fences[i].locked {
            (v, Press::Ignored)
        } else {
            pressed_on(v, fence_id, items, hit, scrolls, ctrl, shift, at)
        },
    }
}

fn new_drag(fence_id: u32, mode: DragMode, start: Place) -> (r: Drag)
    ensures
        r@ == fresh_drag(fence_id, mode, start),
{
    let r = Drag {
        fence_id,
        mode,
        start,
        planned: false,
        dragged_out: false,
        icon_was_selected: false,
        icon_path: String::new(),
    };
    assert(r.icon_path@ =~= Seq::empty());
    r
}

/// A press of the left button at `at`, which is `hit` of a fence that shows `items`.
pub fn handle_lbuttondown(
    ui: &mut Ui,
    fences: &Vec<Fence>,
    fence_id: u32,
    items: &Vec<FileItem>,
    hit: Hit,
    scrolls: bool,
    ctrl: bool,
    shift: bool,
    at: Place,
) -> (r: Press)
    ensures
        (final(ui)@, r) == pressed_ui(
            old(ui)@,
            model::fence_views(fences@),
            fence_id,
            model::paths_of(items@),
            hit,
            scrolls,
            ctrl,
            shift,
            at,
        ),
{
    ui.active_fence = Some(fence_id);
    let i: usize = match model::fence_position(fences, fence_id) {
        None => {
            return Press::Ignored;
        },
        Some(i) => i,
    };
    if fences[i].locked {
        return Press::Ignored;
    }
    match hit {
        Hit::Collapse => Press::Menu,
        Hit::Icon(i) => {
            let mut d = new_drag(fence_id, DragMode::Icon(i), at);
            if i < items.len() {
                let path = items[i].path.clone();
                d.icon_was_selected = text::has_text(&ui.selection.paths, path.as_str());
                selection::press_item(&mut ui.selection, items, i, ctrl, shift);
                if model::is_recycle_bin(path.as_str()) {
                    return Press::Still;
                }
                d.icon_path = path;
            }
            ui.drag = Some(d);
            Press::Dragging
        },
        Hit::Scrollbar => {
            if !scrolls {
                return Press::Still;
            }
            ui.drag = Some(new_drag(fence_id, DragMode::ScrollThumb, at));
            Press::Dragging
        },
        Hit::Title => {
            ui.drag = Some(new_drag(fence_id, DragMode::Move, at));
            Press::Dragging
        },
        Hit::Blank => {
            selection::press_blank(&mut ui.selection, ctrl);
            ui.marquee = Some(Span { x0: at.x, y0: at.y, x1: at.x, y1: at.y });
            ui.drag = Some(new_drag(fence_id, DragMode::Marquee, at));
            Press::Dragging
        },
        Hit::Nothing => Press::Still,
        _ => {
            ui.drag = Some(new_drag(fence_id, DragMode::Resize(hit), at));
            Press::Dragging
        },
    }
}

/// The recycle bin is never dragged by a press on it, and a locked fence never
/// moves, grows or scrolls by a press.
pub proof fn law_bin_and_locked_fences_stay(
    u: UiView,
    fences: Seq<FenceView>,
    fence_id: u32,
    items: Seq<Seq<char>>,
    hit: Hit,
    scrolls: bool,
    ctrl: bool,
    shift: bool,
    at: Place,
)
    requires
        selection::on_bin(hit, items) || (model::fence_at(fences, fence_id) matches Some(i)
            && fences[i].locked),
    ensures
        pressed_ui(u, fences, fence_id, items, hit, scrolls, ctrl, shift, at).0.drag == u.drag,
{
}

// ---------------------------------------------------------------- the ghost

/// The number of the places before the first entry of `list` that `set` holds, or 0
/// where it holds none.
pub open spec fn first_of(list: Seq<Seq<char>>, set: Seq<Seq<char>>) -> int
    decreases list.len(),
{
    if list.len() == 0 {
        0
    } else if set.contains(list[0]) {
        0
    } else if holds_any(list.drop_first(), set) {
        first_of(list.drop_first(), set) + 1
    } else {
        0
    }
}

/// `set` holds an entry of `list`.
pub open spec fn holds_any(list: Seq<Seq<char>>, set: Seq<Seq<char>>) -> bool {
    exists|i: int| 0 <= i < list.len() && set.contains(#[trigger] list[i])
}

proof fn lemma_first_of(list: Seq<Seq<char>>, set: Seq<Seq<char>>, k: int)
    requires
        0 <= k <= list.len(),
        forall|j: int| 0 <= j < k ==> !set.contains(#[trigger] list[j]),
        k < list.len() ==> set.contains(list[k]),
    ensures
        k < list.len() ==> first_of(list, set) == k,
        k == list.len() ==> first_of(list, set) == 0,
        holds_any(list, set) == (k < list.len()),
    decreases list.len(),
{
    if list.len() > 0 && k > 0 {
        let t = list.drop_first();
        assert(!set.contains(list[0]));
        assert forall|j: int| 0 <= j < k - 1 implies !set.contains(#[trigger] t[j]) by {
            assert(t[j] == list[j + 1]);
        }
        if k < list.len() {
            assert(t[k - 1] == list[k]);
        }
        lemma_first_of(t, set, k - 1);
    }
    if k < list.len() {
        assert(holds_any(list, set));
    }
}

/// The preview of a drag that starts on a fence that shows `items`: the dragged
/// block stands where its first item stood.
pub open spec fn fresh_preview(
    fence: FenceView,
    fence_id: u32,
    items: Seq<Seq<char>>,
    paths: Seq<Seq<char>>,
) -> GhostView {
    let dragged = selection::chosen_of(items, paths);
    let first = first_of(items, dragged);
    let rest = items.len() - dragged.len();
    GhostView {
        fence_id,
        original: items,
        original_sort_mode: fence.sort_mode,
        dragged_paths: dragged,
        target: grid::lesser(
            first,
            if rest > 0 {
                rest
            } else {
                0
            },
        ) as usize,
    }
}

/// The name of the user's own order.
pub const MANUAL_SORT: &'static str = "手动";

/// A fence in the user's own order.
pub open spec fn hand_ordered(f: FenceView, order: Seq<Seq<char>>) -> FenceView {
    FenceView { item_order: order, sort_mode: MANUAL_SORT@, ..f }
}

/// The items that a drag of the item at `idx` takes along: the selected ones where
/// it is selected, else it alone.
pub open spec fn taken_along(
    sel: SelectionView,
    items: Seq<Seq<char>>,
    idx: int,
) -> Seq<Seq<char>> {
    if 0 <= idx < items.len() {
        if sel.paths.contains(items[idx]) {
            selection::chosen_of(items, sel.paths)
        } else {
            seq![items[idx]]
        }
    } else {
        Seq::empty()
    }
}

pub(crate) fn drag_along(sel: &Selection, items: &Vec<FileItem>, idx: usize) -> (r: Vec<String>)
    ensures
        text::texts(r@) == taken_along(sel@, model::paths_of(items@), idx as int),
{
    let mut out: Vec<String> = Vec::new();
    assert(text::texts(out@) =~= Seq::empty());
    if idx < items.len() {
        if text::has_text(&sel.paths, items[idx].path.as_str()) {
            return selection::chosen_items(items, &sel.paths);
        }
        out.push(items[idx].path.clone());
        assert(text::texts(out@) =~= seq![items@[idx as int].path@]);
    }
    out
}

pub(crate) fn first_chosen(items: &Vec<FileItem>, set: &Vec<String>) -> (r: usize)
    ensures
        r == first_of(model::paths_of(items@), text::texts(set@)),
        r <= items.len(),
{
    let ghost all = model::paths_of(items@);
    let mut i: usize = 0;
    while i < items.len()
        invariant
            i <= items.len(),
            all == model::paths_of(items@),
            forall|j: int| 0 <= j < i ==> !text::texts(set@).contains(#[trigger] all[j]),
        decreases items.len() - i,
    {
        if text::has_text(set, items[i].path.as_str()) {
            proof {
                lemma_first_of(all, text::texts(set@), i as int);
            }
            return i;
        }
        i = i + 1;
    }
    proof {
        lemma_first_of(all, text::texts(set@), i as int);
    }
    0
}

pub(crate) fn set_order(fences: &mut Vec<Fence>, id: u32, order: &Vec<String>, mode: &str)
    ensures
        model::fence_views(final(fences)@) == desk::with_fence(
            model::fence_views(old(fences)@),
            id,
            |f: FenceView| FenceView { item_order: text::texts(order@), sort_mode: mode@, ..f },
        ),
{
    let ghost was = model::fence_views(fences@);
    match model::fence_position(fences, id) {
        None => {},
        Some(i) => {
            fences[i].item_order = text::copy_texts(order);
            fences[i].sort_mode = text::own(mode);
            assert(model::fence_views(fences@) =~= was.update(
                i as int,
                FenceView { item_order: text::texts(order@), sort_mode: mode@, ..was[i as int] },
            ));
        },
    }
}

/// The fences after a preview was taken back: its fence shows again, in the order it
/// had, what it showed at the press.
pub open spec fn rolled_back(fences: Seq<FenceView>, preview: Option<GhostView>) -> Seq<FenceView> {
    match preview {
        None => fences,
        Some(p) => desk::with_fence(
            fences,
            p.fence_id,
            |f: FenceView|
                FenceView { item_order: p.original, sort_mode: p.original_sort_mode, ..f },
        ),
    }
}

/// Takes the preview back.
pub fn rollback_ghost_preview(ui: &mut Ui, fences: &mut Vec<Fence>)
    ensures
        final(ui)@ == (UiView { preview: None, ..old(ui)@ }),
        model::fence_views(final(fences)@) == rolled_back(
            model::fence_views(old(fences)@),
            old(ui)@.preview,
        ),
{
    match ui.preview.take() {
        None => {},
        Some(p) => {
            set_order(fences, p.fence_id, &p.original, p.original_sort_mode.as_str());
        },
    }
}

/// What a moving pointer over a preview leads to: the slot where the dragged items
/// would go, if there is one.
pub open spec fn preview_target(
    p: GhostView,
    lay: Layout,
    n: int,
    col: int,
    row: int,
) -> int {
    let dragged = selection::with_texts(Seq::empty(), p.dragged_paths).len();
    let rest = if n > dragged {
        n - dragged
    } else {
        0
    };
    let c = grid::lesser(
        col,
        if lay.cols > 0 {
            lay.cols - 1
        } else {
            0
        },
    );
    let r = grid::lesser(
        row,
        if lay.rows > 0 {
            lay.rows - 1
        } else {
            0
        },
    );
    grid::lesser(lay.first_index + r * lay.cols + c, rest)
}

/// The pointer over `fence_id` moves a preview.
pub open spec fn previews(u: UiView, fences: Seq<FenceView>, fence_id: u32) -> bool {
    match u.preview {
        None => false,
        Some(p) => p.fence_id == fence_id && p.dragged_paths.len() > 0 && p.original.len() > 0
            && model::fence_at(fences, fence_id) is Some,
    }
}

/// Moves the preview to the cell in the column `col` and the row `row` of the fence,
/// counted from what it shows first; `hit` is what the pointer hits there. Over the
/// recycle bin the preview stays. Gives the slot.
pub fn update_ghost_preview(
    ui: &mut Ui,
    fences: &Vec<Fence>,
    fence_id: u32,
    items: &Vec<FileItem>,
    lay: &Layout,
    hit: Hit,
    col: usize,
    row: usize,
) -> (r: Option<usize>)
    requires
        lay.first_index + lay.rows * lay.cols + lay.cols <= usize::MAX,
    ensures
        !previews(old(ui)@, model::fence_views(fences@), fence_id) ==> r is None && final(ui)@
            == old(ui)@,
        previews(old(ui)@, model::fence_views(fences@), fence_id) ==> if selection::on_bin(
            hit,
            model::paths_of(items@),
        ) {
            r is None && final(ui)@ == (UiView { trash_target: true, ..old(ui)@ })
        } else {
            let p = old(ui)@.preview->0;
            let t = preview_target(p, *lay, items@.len() as int, col as int, row as int);
            &&& r == Some(t as usize)
            &&& 0 <= t <= usize::MAX
            &&& final(ui)@ == (UiView {
                trash_target: false,
                line: true,
                preview: Some(GhostView { target: t as usize, ..p }),
                ..old(ui)@
            })
        },
{
    let known = model::fence_position(fences, fence_id).is_some();
    match ui.preview.take() {
        None => None,
        Some(p) => {
            let mut p = p;
            if p.fence_id != fence_id || p.dragged_paths.len() == 0 || p.original.len() == 0
                || !known {
                ui.preview = Some(p);
                return None;
            }
            let over = selection::over_bin(hit, items);
            ui.trash_target = over;
            if over {
                ui.preview = Some(p);
                return None;
            }
            let mut distinct: Vec<String> = Vec::new();
            assert(text::texts(distinct@) =~= Seq::empty());
            selection::add_texts(&mut distinct, &p.dragged_paths);
            assert(text::texts(distinct@).len() == distinct@.len());
            let rest: usize = if items.len() > distinct.len() {
                items.len() - distinct.len()
            } else {
                0
            };
            let last_col: usize = if lay.cols > 0 {
                lay.cols - 1
            } else {
                0
            };
            let last_row: usize = if lay.rows > 0 {
                lay.rows - 1
            } else {
                0
            };
            let c: usize = if col < last_col {
                col
            } else {
                last_col
            };
            let w: usize = if row < last_row {
                row
            } else {
                last_row
            };
            proof {
                assert(w * lay.cols <= lay.rows * lay.cols) by (nonlinear_arith)
                    requires
                        w <= lay.rows,
                        lay.cols >= 0,
                ;
                assert(0 <= w * lay.cols) by (nonlinear_arith)
                    requires
                        w >= 0,
                        lay.cols >= 0,
                ;
            }
            let cell: usize = lay.first_index + w * lay.cols + c;
            let t: usize = if cell < rest {
                cell
            } else {
                rest
            };
            p.target = t;
            ui.preview = Some(p);
            ui.line = true;
            Some(t)
        },
    }
}

/// The row and the column of the shown cell before which a line marks the slot
/// `target`, and whether the line lies across: before the first cell of a row that
/// is not the first.
pub fn line_cell(lay: &Layout, target: usize) -> (r: (usize, usize, bool))
    requires
        lay.first_index <= target,
        lay.first_index + lay.rows * lay.cols <= usize::MAX,
    ensures
        ({
            let cells = lay.rows * lay.cols;
            let slot = grid::lesser(
                target as int,
                lay.first_index + if cells > 0 {
                    cells - 1
                } else {
                    0
                },
            ) - lay.first_index;
            let cols = if lay.cols > 0 {
                lay.cols as int
            } else {
                1
            };
            &&& r.0 == slot / cols
            &&& r.1 == slot % cols
            &&& r.2 == (r.1 == 0 && r.0 > 0)
        }),
{
    proof {
        assert(0 <= lay.rows * lay.cols) by (nonlinear_arith)
            requires
                lay.rows >= 0,
                lay.cols >= 0,
        ;
    }
    let cells: usize = lay.rows * lay.cols;
    let last: usize = if cells > 0 {
        cells - 1
    } else {
        0
    };
    let end: usize = lay.first_index + last;
    let slot: usize = if target < end {
        target - lay.first_index
    } else {
        last
    };
    let cols: usize = if lay.cols > 0 {
        lay.cols
    } else {
        1
    };
    let row: usize = slot / cols;
    let col: usize = slot % cols;
    (row, col, col == 0 && row > 0)
}

// ---------------------------------------------------------------- laws

/// A hit moves the sides that it lies on, and these alone; what is no edge moves none.
pub proof fn law_an_edge_moves_its_side(h: Hit)
    ensures
        sides(h).contains('n') <==> h is EdgeN || h is CornerNW || h is CornerNE,
        sides(h).contains('s') <==> h is EdgeS || h is CornerSW || h is CornerSE,
        sides(h).contains('w') <==> h is EdgeW || h is CornerNW || h is CornerSW,
        sides(h).contains('e') <==> h is EdgeE || h is CornerNE || h is CornerSE,
        sides(h).len() == 2,
        edge_hit(h) <==> sides(h).contains('n') || sides(h).contains('s') || sides(h).contains('w')
            || sides(h).contains('e'),
{
    let s = sides(h);
    assert(s.contains(s[0]) && s.contains(s[1]));
    assert forall|c: char| s.contains(c) <==> c == s[0] || c == s[1] by {
        if s.contains(c) {
            let i = choose|i: int| 0 <= i < s.len() && s[i] == c;
            assert(i == 0 || i == 1);
        }
    }
    assert(s.contains('n') <==> s[0] == 'n' || s[1] == 'n');
    assert(s.contains('s') <==> s[0] == 's' || s[1] == 's');
    assert(s.contains('w') <==> s[0] == 'w' || s[1] == 'w');
    assert(s.contains('e') <==> s[0] == 'e' || s[1] == 'e');
}

/// The pointer is a double arrow along the way the hit can go, and the plain arrow on a
/// locked fence and on what is no edge.
pub proof fn law_pointer_shows_the_way(h: Hit)
    ensures
        cursor_id(true, h) == 32512,
        cursor_id(false, h) == 32642 <==> h is CornerNW || h is CornerSE,
        cursor_id(false, h) == 32643 <==> h is CornerNE || h is CornerSW,
        cursor_id(false, h) == 32644 <==> h is EdgeW || h is EdgeE,
        cursor_id(false, h) == 32645 <==> h is EdgeN || h is EdgeS,
        cursor_id(false, h) == 32512 <==> !edge_hit(h),
{
}

/// What a press starts: a drag of the kind that belongs to the place that was hit, from
/// that place, with nothing planned yet. The fence is the active one from then on. A
/// press on the collapse button opens the menu; the scroll bar of a fence that shows all
/// its rows does nothing.
pub proof fn law_press_starts_the_drag_of_its_place(
    u: UiView,
    fences: Seq<FenceView>,
    fence_id: u32,
    items: Seq<Seq<char>>,
    hit: Hit,
    scrolls: bool,
    ctrl: bool,
    shift: bool,
    at: Place,
    i: int,
)
    requires
        0 <= i < fences.len(),
        fences[i].id == fence_id,
        forall|j: int| 0 <= j < i ==> (#[trigger] fences[j]).id != fence_id,
    ensures
        ({
            let (v, r) = pressed_ui(u, fences, fence_id, items, hit, scrolls, ctrl, shift, at);
            let starts = !fences[i].locked && (match hit {
                Hit::Icon(k) => k >= items.len() || items[k as int]
                    != "::{645FF040-5081-101B-9F08-00AA002F954E}"@,
                Hit::Scrollbar => scrolls,
                Hit::Collapse | Hit::Nothing => false,
                _ => true,
            });
            &&& v.active_fence == Some(fence_id)
            &&& r is Ignored <==> fences[i].locked
            &&& r is Menu <==> !fences[i].locked && hit is Collapse
            &&& r is Dragging <==> starts
            &&& !starts ==> v.drag == u.drag
            &&& starts ==> {
                let d = v.drag->0;
                &&& v.drag is Some
                &&& d.fence_id == fence_id
                &&& d.start == at
                &&& !d.planned
                &&& !d.dragged_out
                &&& hit is Title <==> d.mode is Move
                &&& hit is Blank <==> d.mode is Marquee
                &&& hit is Scrollbar <==> d.mode is ScrollThumb
                &&& hit matches Hit::Icon(k) ==> d.mode == DragMode::Icon(k)
                &&& edge_hit(hit) ==> d.mode == DragMode::Resize(hit)
                &&& d.icon_was_selected <==> (hit matches Hit::Icon(k) && k < items.len()
                    && u.selection.paths.contains(items[k as int]))
                &&& d.icon_path == (match hit {
                    Hit::Icon(k) if k < items.len() => items[k as int],
                    _ => Seq::empty(),
                })
            }
            &&& !fences[i].locked && hit is Blank ==> v.marquee == Some(
                Span { x0: at.x, y0: at.y, x1: at.x, y1: at.y },
            )
            &&& !(hit is Blank) || fences[i].locked ==> v.marquee == u.marquee
            &&& fences[i].locked || !(hit is Blank || hit is Icon) ==> v.selection == u.selection
            &&& v == (UiView {
                active_fence: v.active_fence,
                selection: v.selection,
                drag: v.drag,
                marquee: v.marquee,
                ..u
            })
            &&& !fences[i].locked && hit is Blank ==> v.selection == selection::pressed_blank(
                u.selection,
                ctrl,
            )
            &&& !fences[i].locked ==> (hit matches Hit::Icon(k) ==> v.selection == (if k
                < items.len() {
                selection::pressed(u.selection, items, k as int, ctrl, shift)
            } else {
                u.selection
            }))
        }),
{
    model::lemma_fence_at_is(fences, fence_id, i);
}

/// A drag of an item takes along the selected items, in the order of the fence, where it
/// is one of them, and else the item alone.
pub proof fn law_selected_items_go_along(sel: SelectionView, items: Seq<Seq<char>>, idx: int)
    requires
        0 <= idx < items.len(),
    ensures
        sel.paths.contains(items[idx]) ==> taken_along(sel, items, idx) == items.filter(
            |x: Seq<char>| sel.paths.contains(x),
        ),
        !sel.paths.contains(items[idx]) ==> taken_along(sel, items, idx) == seq![items[idx]],
{
    selection::law_chosen_are_filtered(items, sel.paths);
}

/// A fresh preview puts the dragged items where the first of them stood: before the slot
/// none of them stands, and the item at the slot is one of them.
pub proof fn law_fresh_preview_stays_in_place(
    fence: FenceView,
    fence_id: u32,
    items: Seq<Seq<char>>,
    paths: Seq<Seq<char>>,
    k: int,
)
    requires
        items.no_duplicates(),
        items.len() <= usize::MAX,
        0 <= k < items.len(),
        paths.contains(items[k]),
        forall|j: int| 0 <= j < k ==> !paths.contains(#[trigger] items[j]),
    ensures
        ({
            let g = fresh_preview(fence, fence_id, items, paths);
            &&& g.target == k
            &&& g.fence_id == fence_id
            &&& g.original == items
            &&& g.original_sort_mode == fence.sort_mode
            &&& g.dragged_paths == items.filter(|x: Seq<char>| paths.contains(x))
        }),
{
    let dragged = selection::chosen_of(items, paths);
    selection::law_chosen_are_filtered(items, paths);
    let f = |x: Seq<char>| paths.contains(x);
    assert forall|x: Seq<char>| items.contains(x) implies (dragged.contains(x) <==> paths.contains(
        x,
    )) by {
        let i = choose|i: int| 0 <= i < items.len() && items[i] == x;
        if paths.contains(x) {
            items.lemma_filter_contains(f, i);
        }
        if dragged.contains(x) {
            let j = choose|j: int| 0 <= j < dragged.len() && dragged[j] == x;
            items.lemma_filter_pred(f, j);
        }
    }
    assert(items.contains(items[k]));
    assert forall|j: int| 0 <= j < k implies !dragged.contains(#[trigger] items[j]) by {
        assert(items.contains(items[j]));
    }
    lemma_first_of(items, dragged, k);
    lemma_filtered_behind(items, f, k);
}

proof fn lemma_filtered_behind(items: Seq<Seq<char>>, f: spec_fn(Seq<char>) -> bool, k: int)
    requires
        0 <= k <= items.len(),
        forall|j: int| 0 <= j < k ==> !f(#[trigger] items[j]),
    ensures
        items.filter(f).len() + k <= items.len(),
    decreases items.len(),
{
    reveal(Seq::filter);
    if items.len() > k {
        let h = items.drop_last();
        assert forall|j: int| 0 <= j < k implies !f(#[trigger] h[j]) by {
            assert(h[j] == items[j]);
        }
        lemma_filtered_behind(h, f, k);
    } else if items.len() > 0 {
        let h = items.drop_last();
        assert forall|j: int| 0 <= j < k - 1 implies !f(#[trigger] h[j]) by {
            assert(h[j] == items[j]);
        }
        lemma_filtered_behind(h, f, k - 1);
        assert(!f(items[k - 1]));
    }
}

/// A preview that is taken back leaves its fence as it was at the press, in its order and
/// its mode, and changes no other fence.
pub proof fn law_rollback_restores_the_fence(
    fences: Seq<FenceView>,
    p: GhostView,
    i: int,
)
    requires
        0 <= i < fences.len(),
    ensures
        rolled_back(fences, None) == fences,
        ({
            let f = rolled_back(fences, Some(p));
            let own = fences[i].id == p.fence_id && forall|j: int|
                0 <= j < i ==> (#[trigger] fences[j]).id != p.fence_id;
            &&& f.len() == fences.len()
            &&& own ==> f[i] == (FenceView {
                item_order: p.original,
                sort_mode: p.original_sort_mode,
                ..fences[i]
            })
            &&& !own ==> f[i] == fences[i]
        }),
{
    model::lemma_fence_at(fences, p.fence_id);
    if fences[i].id == p.fence_id && forall|j: int|
        0 <= j < i ==> (#[trigger] fences[j]).id != p.fence_id {
        model::lemma_fence_at_is(fences, p.fence_id, i);
    }
}

/// The slot of a preview is the cell under the pointer, counted row by row from the first
/// that is shown, but never behind the items that are not dragged. A pointer right of or
/// below the cells counts as over the last one.
pub proof fn law_preview_follows_the_pointer(
    p: GhostView,
    lay: Layout,
    n: int,
    col: int,
    row: int,
)
    requires
        p.dragged_paths.no_duplicates(),
        p.dragged_paths.len() <= n,
        lay.cols > 0,
        lay.rows > 0,
        0 <= col,
        0 <= row,
    ensures
        ({
            let c = if col < lay.cols {
                col
            } else {
                lay.cols - 1
            };
            let r = if row < lay.rows {
                row
            } else {
                lay.rows - 1
            };
            let cell = lay.first_index + r * lay.cols + c;
            let t = preview_target(p, lay, n, col, row);
            &&& cell <= n - p.dragged_paths.len() ==> t == cell
            &&& cell > n - p.dragged_paths.len() ==> t == n - p.dragged_paths.len()
        }),
{
    selection::law_added_texts_come_last(Seq::empty(), p.dragged_paths);
    assert(Seq::<Seq<char>>::empty() + p.dragged_paths =~= p.dragged_paths);
}

/// Only a preview of this very fence follows the pointer, and only while it drags
/// something of something.
pub proof fn law_preview_moves_over_its_fence(u: UiView, fences: Seq<FenceView>, fence_id: u32)
    ensures
        previews(u, fences, fence_id) <==> u.preview is Some && u.preview->0.fence_id == fence_id
            && u.preview->0.dragged_paths.len() > 0 && u.preview->0.original.len() > 0 && exists|
            i: int,
        |
            0 <= i < fences.len() && (#[trigger] fences[i]).id == fence_id,
{
    model::lemma_fence_at(fences, fence_id);
}

/// At the start nothing is selected, dragged, shown or left to be opened.
pub proof fn law_start_is_idle()
    ensures
        ({
            let u = idle_ui();
            &&& u.active_fence is None
            &&& u.selection.paths.len() == 0
            &&& u.selection.focused is None
            &&& u.selection.anchor is None
            &&& u.drag is None
            &&& u.preview is None
            &&& !u.ghost_shown
            &&& !u.line
            &&& u.marquee is None
            &&& !u.trash_target
            &&& u.pending_open is None
            &&& u.pending_at is None
        }),
{
}

/// The pointer drags from more than eight pixels on, whichever way it goes: what lies within
/// eight pixels along an axis, or within five along both, is a click, and what is farther
/// along an axis is a drag.
pub proof fn law_drags_begin_beyond_eight_pixels(dx: int, dy: int)
    ensures
        farther(dx, dy) == farther(dy, dx),
        farther(dx, dy) == farther(-dx, dy),
        farther(dx, 0) <==> dx > 8 || dx < -8,
        dx > 8 || dx < -8 ==> farther(dx, dy),
        -5 <= dx <= 5 && -5 <= dy <= 5 ==> !farther(dx, dy),
        farther(dx, dy) <==> dx * dx + dy * dy > 8 * 8,
{
    assert(dx * dx == (-dx) * (-dx)) by (nonlinear_arith);
    assert(dy * dy >= 0) by (nonlinear_arith);
    if dx > 8 || dx < -8 {
        assert(dx * dx >= 81) by (nonlinear_arith)
            requires
                dx > 8 || dx < -8,
        ;
    } else {
        assert(dx * dx <= 64) by (nonlinear_arith)
            requires
                -8 <= dx <= 8,
        ;
    }
    if -5 <= dx <= 5 && -5 <= dy <= 5 {
        assert(dx * dx <= 25 && dy * dy <= 25) by (nonlinear_arith)
            requires
                -5 <= dx <= 5,
                -5 <= dy <= 5,
        ;
    }
}

} // verus!

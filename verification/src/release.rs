//! The end of a drag: where the dragged files or the fence go.
use crate::desk;
use crate::drag;
use crate::drag::{DragMode, DragView, GhostView, Place, Ui, UiView};
use crate::grid::Hit;
use crate::listing;
use crate::model;
use crate::model::{Fence, FenceView, FileItem};
use crate::selection;
use crate::text;
use vstd::prelude::*;

verus! {

/// Where a moved fence lands.
#[derive(Clone, Copy, PartialEq, Eq, Structural)]
pub enum Landing {
    /// Where it was: it was only clicked.
    Back,
    /// At the slot that the line showed: the one for this place, or, where there is
    /// none, the last one that was shown.
    Slot { fresh: bool },
    /// Where it was dropped.
    Free,
}

/// What a release leads to.
pub enum Released {
    /// No drag went on.
    NoDrag,
    /// The files go to the recycle bin.
    Deleted { paths: Vec<String> },
    /// The fence has a new order.
    Reordered,
    /// The files belong to this fence now.
    Assigned { fence: u32 },
    /// The preview was taken back.
    RolledBack,
    /// The file is to be renamed.
    Rename { path: String },
    /// The rectangle has selected what it holds.
    Marqueed,
    /// The fence was moved.
    Moved { landing: Landing },
    /// The fence was resized. `compact` tells whether its neighbours move up.
    Resized { compact: bool },
    /// A click or a scroll, with nothing more to it.
    Clicked,
    /// The drag was another fence's, or had left the fence.
    Dropped,
}

/// The contents of a `Released`.
pub enum ReleasedView {
    NoDrag,
    Deleted { paths: Seq<Seq<char>> },
    Reordered,
    Assigned { fence: u32 },
    RolledBack,
    Rename { path: Seq<char> },
    Marqueed,
    Moved { landing: Landing },
    Resized { compact: bool },
    Clicked,
    Dropped,
}

impl View for Released {
    type V = ReleasedView;

    open spec fn view(&self) -> ReleasedView {
        match self {
            Released::NoDrag => ReleasedView::NoDrag,
            Released::Deleted { paths } => ReleasedView::Deleted { paths: text::texts(paths@) },
            Released::Reordered => ReleasedView::Reordered,
            Released::Assigned { fence } => ReleasedView::Assigned { fence: *fence },
            Released::RolledBack => ReleasedView::RolledBack,
            Released::Rename { path } => ReleasedView::Rename { path: path@ },
            Released::Marqueed => ReleasedView::Marqueed,
            Released::Moved { landing } => ReleasedView::Moved { landing: *landing },
            Released::Resized { compact } => ReleasedView::Resized { compact: *compact },
            Released::Clicked => ReleasedView::Clicked,
            Released::Dropped => ReleasedView::Dropped,
        }
    }
}

/// What is known of a release.
#[derive(Clone, Copy)]
pub struct Release {
    pub now_ms: u64,
    /// The time within which two clicks are a double click.
    pub double_click_ms: u32,
    /// The pointer is over the fence.
    pub inside: bool,
    /// Where the pointer is now.
    pub at: Place,
    pub ctrl: bool,
    pub auto_align: bool,
    /// There is a slot for a moved fence at this place.
    pub slot_here: bool,
}

/// The fence at `i` can take what is dropped at the pointer: it is another than the
/// source, it is shown, and the pointer is over it.
pub open spec fn can_take(
    fences: Seq<FenceView>,
    under: Seq<bool>,
    source: u32,
    i: int,
) -> bool {
    fences[i].id != source && !fences[i].hidden && !fences[i].collapsed && under[i]
}

/// The first fence that can take what is dropped.
pub open spec fn drop_target(
    fences: Seq<FenceView>,
    under: Seq<bool>,
    source: u32,
) -> Option<u32>
    decreases fences.len(),
{
    if fences.len() == 0 {
        None
    } else {
        match drop_target(fences.drop_last(), under, source) {
            Some(id) => Some(id),
            None => if can_take(fences, under, source, fences.len() - 1) {
                Some(fences.last().id)
            } else {
                None
            },
        }
    }
}

/// The pointer is over the recycle bin of a fence that can take what is dropped.
pub open spec fn on_other_bin(
    fences: Seq<FenceView>,
    under: Seq<bool>,
    bins: Seq<bool>,
    source: u32,
) -> bool {
    exists|i: int|
        0 <= i < fences.len() && #[trigger] can_take(fences, under, source, i) && bins[i]
}

/// The first fence that can take what is dropped at the pointer, which is over the
/// fences that `under` tells.
pub fn find_drop_target(fences: &Vec<Fence>, under: &Vec<bool>, source: u32) -> (r: Option<u32>)
    requires
        under.len() == fences.len(),
    ensures
        r == drop_target(model::fence_views(fences@), under@, source),
{
    let ghost f = model::fence_views(fences@);
    let mut i: usize = 0;
    let mut found: Option<u32> = None;
    assert(f.take(0) =~= Seq::empty());
    while i < fences.len()
        invariant
            i <= fences.len() == under.len(),
            f == model::fence_views(fences@),
            found == drop_target(f.take(i as int), under@, source),
        decreases fences.len() - i,
    {
        assert(f.take(i + 1).drop_last() =~= f.take(i as int));
        assert(f.take(i + 1).last() == fences@[i as int]@);
        if found.is_none() && fences[i].id != source && !fences[i].hidden && !fences[i].collapsed
            && under[i] {
            found = Some(fences[i].id);
        }
        i = i + 1;
    }
    assert(f.take(f.len() as int) =~= f);
    found
}

/// Whether the pointer is over the recycle bin of another fence; `bins` tells where
/// it hits one.
pub fn release_on_recycle_bin_screen(
    fences: &Vec<Fence>,
    under: &Vec<bool>,
    bins: &Vec<bool>,
    source: u32,
) -> (r: bool)
    requires
        under.len() == fences.len(),
        bins.len() == fences.len(),
    ensures
        r == on_other_bin(model::fence_views(fences@), under@, bins@, source),
{
    let ghost f = model::fence_views(fences@);
    let mut i: usize = 0;
    while i < fences.len()
        invariant
            i <= fences.len() == under.len() == bins.len(),
            f == model::fence_views(fences@),
            forall|j: int| 0 <= j < i ==> !(#[trigger] can_take(f, under@, source, j) && bins@[j]),
        decreases fences.len() - i,
    {
        assert(f[i as int] == fences@[i as int]@);
        if fences[i].id != source && !fences[i].hidden && !fences[i].collapsed && under[i]
            && bins[i] {
            assert(can_take(f, under@, source, i as int));
            return true;
        }
        i = i + 1;
    }
    false
}

/// The fences after `paths` were given to the fence `to`: no fence holds them but
/// that one.
pub open spec fn given_to(fences: Seq<FenceView>, paths: Seq<Seq<char>>, to: u32) -> Seq<
    FenceView,
> {
    desk::with_fence(
        unpinned(fences, paths),
        to,
        |f: FenceView| FenceView { pinned: selection::with_texts(f.pinned, paths), ..f },
    )
}

/// The fences without `paths`.
pub open spec fn unpinned(fences: Seq<FenceView>, paths: Seq<Seq<char>>) -> Seq<FenceView> {
    Seq::new(
        fences.len(),
        |i: int|
            FenceView { pinned: listing::part(fences[i].pinned, paths, false), ..fences[i] },
    )
}

fn unpin(fences: &mut Vec<Fence>, paths: &Vec<String>)
    ensures
        model::fence_views(final(fences)@) == unpinned(
            model::fence_views(old(fences)@),
            text::texts(paths@),
        ),
{
    let ghost was = model::fence_views(fences@);
    let ghost p = text::texts(paths@);
    let n: usize = fences.len();
    let mut i: usize = 0;
    while i < n
        invariant
            i <= n == fences@.len() == was.len(),
            p == text::texts(paths@),
            forall|k: int| 0 <= k < i ==> (#[trigger] fences@[k])@ == unpinned(was, p)[k],
            forall|k: int| i <= k < n ==> (#[trigger] fences@[k])@ == was[k],
        decreases n - i,
    {
        assert(fences@[i as int]@ == was[i as int]);
        let kept = listing::split_part(&fences[i].pinned, paths, false);
        fences[i].pinned = kept;
        i = i + 1;
    }
    assert(model::fence_views(fences@) =~= unpinned(was, p));
}

/// Gives `paths` to the fence `to`, and takes them from every other.
pub fn assign_to_fence(fences: &mut Vec<Fence>, paths: &Vec<String>, to: u32)
    ensures
        model::fence_views(final(fences)@) == given_to(
            model::fence_views(old(fences)@),
            text::texts(paths@),
            to,
        ),
{
    let ghost p = text::texts(paths@);
    unpin(fences, paths);
    let ghost was = model::fence_views(fences@);
    match model::fence_position(fences, to) {
        None => {},
        Some(i) => {
            let mut pinned = text::copy_texts(&fences[i].pinned);
            selection::add_texts(&mut pinned, paths);
            fences[i].pinned = pinned;
            assert(model::fence_views(fences@) =~= was.update(
                i as int,
                FenceView {
                    pinned: selection::with_texts(was[i as int].pinned, p),
                    ..was[i as int]
                },
            ));
        },
    }
}

/// The dragged files of a preview.
pub open spec fn dragged_of(p: Option<GhostView>) -> Seq<Seq<char>> {
    match p {
        Some(p) => p.dragged_paths,
        None => Seq::empty(),
    }
}

/// The end of a drag of files.
pub open spec fn ghost_released(
    u: UiView,
    fences: Seq<FenceView>,
    fence_id: u32,
    inside: bool,
    under: Seq<bool>,
    bins: Seq<bool>,
) -> (UiView, Seq<FenceView>, ReleasedView) {
    let v = UiView {
        ghost_shown: false,
        trash_target: false,
        marquee: None,
        preview: None,
        ..u
    };
    let dragged = dragged_of(u.preview);
    if inside && u.trash_target {
        (v, rolled(u, fences), ReleasedView::Deleted { paths: dragged })
    } else if inside && u.preview is Some {
        let p = u.preview->0;
        let order = listing::moved_as_block(p.original, p.dragged_paths, p.target as int);
        (
            UiView { line: false, ..v },
            if order.len() > 0 {
                desk::with_fence(
                    fences,
                    fence_id,
                    |f: FenceView| drag::hand_ordered(f, order),
                )
            } else {
                fences
            },
            ReleasedView::Reordered,
        )
    } else if !inside && on_other_bin(fences, under, bins, fence_id) {
        (
            UiView { line: false, ..v },
            rolled(u, fences),
            ReleasedView::Deleted { paths: dragged },
        )
    } else {
        match drop_target(fences, under, fence_id) {
            Some(to) if dragged.len() > 0 => (
                UiView { line: false, ..v },
                rolled(u, given_to(fences, dragged, to)),
                ReleasedView::Assigned { fence: to },
            ),
            _ => (UiView { line: false, ..v }, rolled(u, fences), ReleasedView::RolledBack),
        }
    }
}

/// The fences with the preview of `u` taken back.
pub open spec fn rolled(u: UiView, fences: Seq<FenceView>) -> Seq<FenceView> {
    drag::rolled_back(fences, u.preview)
}

fn preview_paths(ui: &Ui) -> (r: Vec<String>)
    ensures
        text::texts(r@) == dragged_of(ui@.preview),
{
    match &ui.preview {
        Some(p) => text::copy_texts(&p.dragged_paths),
        None => {
            let out: Vec<String> = Vec::new();
            assert(text::texts(out@) =~= Seq::empty());
            out
        },
    }
}

fn release_ghost(
    ui: &mut Ui,
    fences: &mut Vec<Fence>,
    fence_id: u32,
    inside: bool,
    under: &Vec<bool>,
    bins: &Vec<bool>,
) -> (r: Released)
    requires
        under.len() == old(fences).len(),
        bins.len() == old(fences).len(),
    ensures
        (final(ui)@, model::fence_views(final(fences)@), r@) == ghost_released(
            old(ui)@,
            model::fence_views(old(fences)@),
            fence_id,
            inside,
            under@,
            bins@,
        ),
{
    let ghost was = model::fence_views(fences@);
    let dragged = preview_paths(ui);
    assert(text::texts(dragged@).len() == dragged@.len());
    ui.ghost_shown = false;
    ui.marquee = None;
    if inside && ui.trash_target {
        ui.trash_target = false;
        drag::rollback_ghost_preview(ui, fences);
        return Released::Deleted { paths: dragged };
    }
    ui.trash_target = false;
    ui.line = false;
    if inside && ui.preview.is_some() {
        match ui.preview.take() {
            None => {},
            Some(p) => {
                let order = listing::reorder_paths_as_block(
                    &p.original,
                    &p.dragged_paths,
                    p.target,
                );
                assert(text::texts(order@).len() == order@.len());
                if order.len() > 0 {
                    drag::set_order(fences, fence_id, &order, drag::MANUAL_SORT);
                    assert(model::fence_views(fences@) =~= desk::with_fence(
                        was,
                        fence_id,
                        |f: FenceView| drag::hand_ordered(f, text::texts(order@)),
                    ));
                }
            },
        }
        return Released::Reordered;
    }
    if !inside && release_on_recycle_bin_screen(fences, under, bins, fence_id) {
        drag::rollback_ghost_preview(ui, fences);
        return Released::Deleted { paths: dragged };
    }
    let mut assigned: Option<u32> = None;
    match find_drop_target(fences, under, fence_id) {
        None => {},
        Some(to) => {
            if dragged.len() > 0 {
                assign_to_fence(fences, &dragged, to);
                assigned = Some(to);
            }
        },
    }
    drag::rollback_ghost_preview(ui, fences);
    match assigned {
        Some(fence) => Released::Assigned { fence },
        None => Released::RolledBack,
    }
}

/// A second click on a file that was selected, too late for a double click: the
/// file is to be renamed.
pub open spec fn is_slow_click(u: UiView, d: DragView, e: Release) -> bool {
    d.icon_was_selected && !e.ctrl && !carried(d, e) && e.now_ms - u.last_up_ms
        > e.double_click_ms && d.icon_path.len() > 0 && !model::bin_path(d.icon_path)
}

/// The pointer was carried away from where the button was pressed.
pub open spec fn carried(d: DragView, e: Release) -> bool {
    drag::farther(e.at.screen_x - d.start.screen_x, e.at.screen_y - d.start.screen_y)
}

/// The end of a drag that is not one of files that follow the pointer.
pub open spec fn plain_released(
    u: UiView,
    fences: Seq<FenceView>,
    fence_id: u32,
    items: Seq<Seq<char>>,
    hits: Seq<usize>,
    e: Release,
) -> (UiView, Seq<FenceView>, ReleasedView) {
    let v = UiView { marquee: None, ..u };
    let d = u.drag->0;
    if d.fence_id != fence_id || d.dragged_out {
        (v, fences, ReleasedView::Dropped)
    } else {
        match d.mode {
            DragMode::Icon(_) => if is_slow_click(u, d, e) {
                (
                    UiView { pending_open: None, ..v },
                    fences,
                    ReleasedView::Rename { path: d.icon_path },
                )
            } else {
                (
                    UiView {
                        pending_open: if carried(d, e) {
                            None
                        } else {
                            u.pending_open
                        },
                        ..v
                    },
                    fences,
                    ReleasedView::Clicked,
                )
            },
            DragMode::Marquee => if model::fence_at(fences, fence_id) is Some {
                (
                    UiView {
                        selection: selection::marqueed(u.selection, items, hits, e.ctrl),
                        ..v
                    },
                    fences,
                    ReleasedView::Marqueed,
                )
            } else {
                (v, fences, ReleasedView::Marqueed)
            },
            DragMode::Move => (
                UiView { line: false, ..v },
                fences,
                ReleasedView::Moved {
                    landing: if !carried(d, e) {
                        Landing::Back
                    } else if e.auto_align && (e.slot_here || d.planned) {
                        Landing::Slot { fresh: e.slot_here }
                    } else {
                        Landing::Free
                    },
                },
            ),
            DragMode::Resize(_) => (
                v,
                desk::with_fence(
                    fences,
                    fence_id,
                    |f: FenceView| FenceView { manual_size: true, ..f },
                ),
                ReleasedView::Resized { compact: e.auto_align },
            ),
            DragMode::ScrollThumb => (v, fences, ReleasedView::Clicked),
        }
    }
}

/// A release that leads to `r` opens what a double click left to be opened.
pub open spec fn opens_now(r: ReleasedView) -> bool {
    match r {
        ReleasedView::NoDrag | ReleasedView::Marqueed | ReleasedView::Clicked => true,
        ReleasedView::Moved { .. } | ReleasedView::Resized { .. } => true,
        ReleasedView::Dropped => true,
        _ => false,
    }
}

/// What is to be opened where the pointer is at `(x, y)` on the screen: nothing where
/// it was carried away since the double click.
pub open spec fn opened_at(u: UiView, x: int, y: int) -> Option<Seq<char>> {
    if u.pending_at matches Some(p) && drag::farther(x - p.0, y - p.1) {
        None
    } else {
        u.pending_open
    }
}

/// Nothing is left to be opened.
pub open spec fn nothing_pending(u: UiView) -> UiView {
    UiView { pending_open: None, pending_at: None, ..u }
}

/// What a release on a fence leads to, and what it opens.
pub open spec fn released_ui(
    u: UiView,
    fences: Seq<FenceView>,
    fence_id: u32,
    items: Seq<Seq<char>>,
    hits: Seq<usize>,
    under: Seq<bool>,
    bins: Seq<bool>,
    e: Release,
) -> (UiView, Seq<FenceView>, ReleasedView, Option<Seq<char>>) {
    let (v, f, r) = if u.drag is None {
        (u, fences, ReleasedView::NoDrag)
    } else if u.ghost_shown {
        ghost_released(u, fences, fence_id, e.inside, under, bins)
    } else {
        plain_released(u, fences, fence_id, items, hits, e)
    };
    let w = UiView { drag: None, last_up_ms: e.now_ms, ..v };
    if opens_now(r) {
        (nothing_pending(w), f, r, opened_at(w, e.at.screen_x as int, e.at.screen_y as int))
    } else {
        (w, f, r, None)
    }
}

fn set_manual_size(fences: &mut Vec<Fence>, id: u32)
    ensures
        model::fence_views(final(fences)@) == desk::with_fence(
            model::fence_views(old(fences)@),
            id,
            |f: FenceView| FenceView { manual_size: true, ..f },
        ),
{
    let ghost was = model::fence_views(fences@);
    match model::fence_position(fences, id) {
        None => {},
        Some(i) => {
            fences[i].manual_size = true;
            assert(model::fence_views(fences@) =~= was.update(
                i as int,
                FenceView { manual_size: true, ..was[i as int] },
            ));
        },
    }
}

/// The left button was released on a fence that shows `items`. `hits` are the items
/// in the rectangle that was drawn; `under` and `bins` tell of each fence whether
/// the pointer is over it, and over its recycle bin.
pub fn handle_lbuttonup(
    ui: &mut Ui,
    fences: &mut Vec<Fence>,
    fence_id: u32,
    items: &Vec<FileItem>,
    hits: &Vec<usize>,
    under: &Vec<bool>,
    bins: &Vec<bool>,
    e: Release,
) -> (r: (Released, Option<String>))
    requires
        under.len() == old(fences).len(),
        bins.len() == old(fences).len(),
    ensures
        (final(ui)@, model::fence_views(final(fences)@), r.0@, text::opt_text(r.1)) == released_ui(
            old(ui)@,
            model::fence_views(old(fences)@),
            fence_id,
            model::paths_of(items@),
            hits@,
            under@,
            bins@,
            e,
        ),
{
    let (at_x, at_y): (i32, i32) = (e.at.screen_x, e.at.screen_y);
    let late = e.now_ms >= ui.last_up_ms && e.now_ms - ui.last_up_ms > e.double_click_ms as u64;
    ui.last_up_ms = e.now_ms;
    let d = match ui.drag.take() {
        None => {
            return (Released::NoDrag, take_pending_open(ui, at_x, at_y));
        },
        Some(d) => d,
    };
    if ui.ghost_shown {
        return (release_ghost(ui, fences, fence_id, e.inside, under, bins), None);
    }
    ui.marquee = None;
    if d.fence_id != fence_id || d.dragged_out {
        return (Released::Dropped, take_pending_open(ui, at_x, at_y));
    }
    let far = drag::is_farther(d.start.screen_x, d.start.screen_y, at_x, at_y);
    let done = match d.mode {
        DragMode::Icon(_) => {
            if far {
                ui.pending_open = None;
            }
            let named = text::chars_of(d.icon_path.as_str()).len() > 0;
            if d.icon_was_selected && !e.ctrl && !far && late && named && !model::is_recycle_bin(
                d.icon_path.as_str(),
            ) {
                ui.pending_open = None;
                return (Released::Rename { path: d.icon_path }, None);
            }
            Released::Clicked
        },
        DragMode::Marquee => {
            if model::fence_position(fences, fence_id).is_some() {
                selection::select_in_marquee(&mut ui.selection, items, hits, e.ctrl);
            }
            Released::Marqueed
        },
        DragMode::Move => {
            ui.line = false;
            let landing = if !far {
                Landing::Back
            } else if e.auto_align && (e.slot_here || d.planned) {
                Landing::Slot { fresh: e.slot_here }
            } else {
                Landing::Free
            };
            Released::Moved { landing }
        },
        DragMode::Resize(_) => {
            set_manual_size(fences, fence_id);
            Released::Resized { compact: e.auto_align }
        },
        DragMode::ScrollThumb => Released::Clicked,
    };
    (done, take_pending_open(ui, at_x, at_y))
}

// ---------------------------------------------------------------- double clicks

/// A double click on `hit` of a fence that shows `items`, with the pointer at
/// `(x, y)` on the screen: the file is opened when the button is released. True where
/// there is such a file.
pub fn handle_dblclk(
    ui: &mut Ui,
    fences: &Vec<Fence>,
    fence_id: u32,
    items: &Vec<FileItem>,
    hit: Hit,
    x: i32,
    y: i32,
) -> (r: bool)
    ensures
        r == (model::fence_at(model::fence_views(fences@), fence_id) is Some && (hit matches
            Hit::Icon(i) && i < items@.len())),
        final(ui)@ == (if r {
            UiView {
                pending_open: Some(items@[hit->Icon_0 as int].path@),
                pending_at: Some((x, y)),
                ..old(ui)@
            }
        } else {
            old(ui)@
        }),
{
    if model::fence_position(fences, fence_id).is_none() {
        return false;
    }
    match hit {
        Hit::Icon(i) => {
            if i < items.len() {
                ui.pending_open = Some(items[i].path.clone());
                ui.pending_at = Some((x, y));
                true
            } else {
                false
            }
        },
        _ => false,
    }
}

/// What is to be opened after a release with the pointer at `(x, y)` on the screen.
/// Nothing stays pending.
pub fn take_pending_open(ui: &mut Ui, x: i32, y: i32) -> (r: Option<String>)
    ensures
        text::opt_text(r) == opened_at(old(ui)@, x as int, y as int),
        final(ui)@ == nothing_pending(old(ui)@),
{
    let carried_away = match ui.pending_at {
        Some(p) => drag::is_farther(p.0, p.1, x, y),
        None => false,
    };
    ui.pending_at = None;
    let p = ui.pending_open.take();
    if carried_away {
        None
    } else {
        p
    }
}

/// A double click opens its file at the next release, wherever no drag goes on: unless
/// the pointer was carried away in between, and then it opens nothing ever after.
pub proof fn law_double_click_opens_once(
    u: UiView,
    fences: Seq<FenceView>,
    fence_id: u32,
    items: Seq<Seq<char>>,
    hits: Seq<usize>,
    under: Seq<bool>,
    bins: Seq<bool>,
    e: Release,
    path: Seq<char>,
    x: i32,
    y: i32,
)
    requires
        u.drag is None,
        u.pending_open == Some(path),
        u.pending_at == Some((x, y)),
    ensures
        ({
            let (v, _, _, opened) = released_ui(u, fences, fence_id, items, hits, under, bins, e);
            &&& opened == (if drag::farther(e.at.screen_x - x, e.at.screen_y - y) {
                None::<Seq<char>>
            } else {
                Some(path)
            })
            &&& released_ui(v, fences, fence_id, items, hits, under, bins, e).3 is None
        }),
{
}

// ---------------------------------------------------------------- laws

/// A file that was given to a fence belongs to that fence and to no other.
pub proof fn law_a_file_belongs_to_one_fence(
    fences: Seq<FenceView>,
    paths: Seq<Seq<char>>,
    to: u32,
    i: int,
    x: Seq<char>,
)
    requires
        0 <= i < fences.len(),
        paths.contains(x),
        model::fence_at(fences, to) is Some,
    ensures
        given_to(fences, paths, to)[i].pinned.contains(x) == (model::fence_at(fences, to) == Some(
            i,
        )),
{
    let u = unpinned(fences, paths);
    model::lemma_fence_at(fences, to);
    model::lemma_fence_at(u, to);
    let at = model::fence_at(fences, to)->0;
    let bt = model::fence_at(u, to);
    assert(u[at].id == to);
    assert(bt is Some);
    let b = bt->0;
    assert(fences[b].id == u[b].id);
    if b < at {
        assert(fences[b].id != to);
    }
    if at < b {
        assert(u[at].id != to);
    }
    listing::lemma_part_holds(fences[i].pinned, paths, false);
    let kept = listing::part(fences[i].pinned, paths, false);
    assert(!kept.contains(x)) by {
        if kept.contains(x) {
            let k = choose|k: int| 0 <= k < kept.len() && kept[k] == x;
            assert(paths.contains(kept[k]) == false);
        }
    }
    selection::lemma_with_texts(u[b].pinned, paths);
    assert(selection::with_texts(u[b].pinned, paths).contains(x));
}

/// Whatever the release does, no drag, no ghost, no rectangle and no preview is left
/// of a drag of files.
pub proof fn law_release_ends_the_drag(
    u: UiView,
    fences: Seq<FenceView>,
    fence_id: u32,
    items: Seq<Seq<char>>,
    hits: Seq<usize>,
    under: Seq<bool>,
    bins: Seq<bool>,
    e: Release,
)
    ensures
        ({
            let v = released_ui(u, fences, fence_id, items, hits, under, bins, e).0;
            &&& v.drag is None
            &&& u.drag is Some ==> !v.ghost_shown && v.marquee is None
            &&& u.drag is Some && u.ghost_shown ==> v.preview is None && !v.trash_target
        }),
{
}

/// Only a release over a recycle bin deletes files, and then the dragged ones.
pub proof fn law_only_the_bin_deletes(
    u: UiView,
    fences: Seq<FenceView>,
    fence_id: u32,
    items: Seq<Seq<char>>,
    hits: Seq<usize>,
    under: Seq<bool>,
    bins: Seq<bool>,
    e: Release,
)
    ensures
        released_ui(u, fences, fence_id, items, hits, under, bins, e).2 matches
            ReleasedView::Deleted { paths } ==> paths == dragged_of(u.preview) && u.ghost_shown
            && (if e.inside {
            u.trash_target
        } else {
            on_other_bin(fences, under, bins, fence_id)
        }),
{
}

/// A release inside the fence loses no file of its order.
pub proof fn law_reorder_keeps_every_file(
    u: UiView,
    fences: Seq<FenceView>,
    fence_id: u32,
    under: Seq<bool>,
    bins: Seq<bool>,
)
    requires
        u.preview is Some,
        u.preview->0.original.len() > 0,
        !u.trash_target,
        model::fence_at(fences, fence_id) is Some,
    ensures
        ({
            let f = ghost_released(u, fences, fence_id, true, under, bins).1;
            f[model::fence_at(fences, fence_id)->0].item_order.to_multiset()
                == u.preview->0.original.to_multiset()
        }),
{
    let p = u.preview->0;
    model::lemma_fence_at(fences, fence_id);
    listing::law_move_is_a_permutation(p.original, p.dragged_paths, p.target as int);
}

/// A release inside the fence puts the dragged files where the line showed: of the
/// files that were not dragged as many stand before them as the slot tells, or all of
/// them. The fence is ordered by hand then; nothing else of it changes, and no other
/// fence does.
pub proof fn law_dropped_files_go_to_the_slot(
    u: UiView,
    fences: Seq<FenceView>,
    fence_id: u32,
    items: Seq<Seq<char>>,
    hits: Seq<usize>,
    under: Seq<bool>,
    bins: Seq<bool>,
    e: Release,
    at: int,
)
    requires
        u.drag is Some,
        u.ghost_shown,
        u.preview is Some,
        u.preview->0.original.len() > 0,
        e.inside,
        !u.trash_target,
        model::fence_at(fences, fence_id) == Some(at),
    ensures
        ({
            let p = u.preview->0;
            let rest = p.original.filter(|x: Seq<char>| !p.dragged_paths.contains(x));
            let block = p.original.filter(|x: Seq<char>| p.dragged_paths.contains(x));
            let k = if p.target < rest.len() {
                p.target as int
            } else {
                rest.len() as int
            };
            let (_, f, r, opened) = released_ui(
                u,
                fences,
                fence_id,
                items,
                hits,
                under,
                bins,
                e,
            );
            &&& r is Reordered
            &&& opened is None
            &&& f == fences.update(
                at,
                FenceView {
                    item_order: rest.take(k) + block + rest.skip(k),
                    sort_mode: "手动"@,
                    ..fences[at]
                },
            )
        }),
{
    let p = u.preview->0;
    model::lemma_fence_at(fences, fence_id);
    listing::law_move_is_a_permutation(p.original, p.dragged_paths, p.target as int);
    listing::law_block_goes_to_its_slot(p.original, p.dragged_paths, p.target as int);
}

/// What is dropped goes to the first fence, other than its own, that is shown, is not
/// collapsed and is under the pointer; and to none only where there is no such fence.
pub proof fn law_drop_goes_to_the_first_fence_under_the_pointer(
    fences: Seq<FenceView>,
    under: Seq<bool>,
    source: u32,
)
    ensures
        match drop_target(fences, under, source) {
            Some(id) => exists|i: int|
                {
                    &&& 0 <= i < fences.len()
                    &&& (#[trigger] fences[i]).id == id
                    &&& id != source
                    &&& !fences[i].hidden
                    &&& !fences[i].collapsed
                    &&& under[i]
                    &&& forall|j: int|
                        0 <= j < i && under[j] && (#[trigger] fences[j]).id != source
                            ==> fences[j].hidden || fences[j].collapsed
                },
            None => forall|j: int|
                0 <= j < fences.len() && under[j] && (#[trigger] fences[j]).id != source
                    ==> fences[j].hidden || fences[j].collapsed,
        },
    decreases fences.len(),
{
    if fences.len() > 0 {
        let h = fences.drop_last();
        law_drop_goes_to_the_first_fence_under_the_pointer(h, under, source);
        match drop_target(h, under, source) {
            Some(id) => {
                let i = choose|i: int|
                    {
                        &&& 0 <= i < h.len()
                        &&& (#[trigger] h[i]).id == id
                        &&& id != source
                        &&& !h[i].hidden
                        &&& !h[i].collapsed
                        &&& under[i]
                        &&& forall|j: int|
                            0 <= j < i && under[j] && (#[trigger] h[j]).id != source ==> h[j].hidden
                                || h[j].collapsed
                    };
                assert(fences[i] == h[i]);
                assert forall|j: int|
                    0 <= j < i && under[j] && (#[trigger] fences[j]).id
                        != source implies fences[j].hidden || fences[j].collapsed by {
                    assert(fences[j] == h[j]);
                }
            },
            None => {
                assert forall|j: int|
                    0 <= j < fences.len() - 1 && under[j] && (#[trigger] fences[j]).id
                        != source implies fences[j].hidden || fences[j].collapsed by {
                    assert(fences[j] == h[j]);
                }
                assert(fences[fences.len() - 1] == fences.last());
            },
        }
    }
}

proof fn lemma_drop_target_is(fences: Seq<FenceView>, under: Seq<bool>, source: u32, i: int)
    requires
        0 <= i < fences.len(),
        fences[i].id != source,
        !fences[i].hidden,
        !fences[i].collapsed,
        under[i],
        forall|j: int|
            0 <= j < i && under[j] && (#[trigger] fences[j]).id != source ==> fences[j].hidden
                || fences[j].collapsed,
    ensures
        drop_target(fences, under, source) == Some(fences[i].id),
    decreases fences.len(),
{
    let h = fences.drop_last();
    if i < h.len() {
        assert forall|j: int|
            0 <= j < i && under[j] && (#[trigger] h[j]).id != source implies h[j].hidden
            || h[j].collapsed by {
            assert(h[j] == fences[j]);
        }
        lemma_drop_target_is(h, under, source, i);
    } else {
        law_drop_goes_to_the_first_fence_under_the_pointer(h, under, source);
        if let Some(id) = drop_target(h, under, source) {
            let k = choose|k: int|
                {
                    &&& 0 <= k < h.len()
                    &&& (#[trigger] h[k]).id == id
                    &&& id != source
                    &&& !h[k].hidden
                    &&& !h[k].collapsed
                    &&& under[k]
                    &&& forall|j: int|
                        0 <= j < k && under[j] && (#[trigger] h[j]).id != source ==> h[j].hidden
                            || h[j].collapsed
                };
            assert(fences[k] == h[k]);
        }
    }
}

/// The files of a drag that ends over a recycle bin are deleted, and only these: over
/// the one of the fence itself where the ghost hovers over it, over that of another where
/// that fence is shown, open and under the pointer. The fences are as at the press.
pub proof fn law_drop_on_the_bin_deletes(
    u: UiView,
    fences: Seq<FenceView>,
    fence_id: u32,
    items: Seq<Seq<char>>,
    hits: Seq<usize>,
    under: Seq<bool>,
    bins: Seq<bool>,
    e: Release,
)
    requires
        u.drag is Some,
        u.ghost_shown,
    ensures
        ({
            let (v, f, r, opened) = released_ui(
                u,
                fences,
                fence_id,
                items,
                hits,
                under,
                bins,
                e,
            );
            let dragged = match u.preview {
                Some(p) => p.dragged_paths,
                None => Seq::empty(),
            };
            let over_bin = if e.inside {
                u.trash_target
            } else {
                exists|i: int|
                    0 <= i < fences.len() && (#[trigger] fences[i]).id != fence_id
                        && !fences[i].hidden && !fences[i].collapsed && under[i] && bins[i]
            };
            &&& over_bin <==> r is Deleted
            &&& over_bin ==> r == (ReleasedView::Deleted { paths: dragged }) && f
                == drag::rolled_back(fences, u.preview) && opened is None
        }),
{
    if exists|i: int|
        0 <= i < fences.len() && (#[trigger] fences[i]).id != fence_id && !fences[i].hidden
            && !fences[i].collapsed && under[i] && bins[i] {
        let i = choose|i: int|
            0 <= i < fences.len() && (#[trigger] fences[i]).id != fence_id && !fences[i].hidden
                && !fences[i].collapsed && under[i] && bins[i];
        assert(can_take(fences, under, fence_id, i));
    }
}

/// Files that are dropped on another fence belong to that fence from then on, behind what
/// it held, and to no other. Their old fence has the order and the mode of the press again;
/// no fence changes otherwise.
pub proof fn law_files_dropped_on_a_fence_move_there(
    u: UiView,
    fences: Seq<FenceView>,
    fence_id: u32,
    items: Seq<Seq<char>>,
    hits: Seq<usize>,
    under: Seq<bool>,
    bins: Seq<bool>,
    e: Release,
    to: int,
    m: int,
    x: Seq<char>,
)
    requires
        u.drag is Some,
        u.ghost_shown,
        u.preview is Some,
        u.preview->0.dragged_paths.len() > 0,
        !e.inside,
        0 <= to < fences.len(),
        fences[to].id != fence_id,
        !fences[to].hidden,
        !fences[to].collapsed,
        under[to],
        forall|j: int|
            0 <= j < to && under[j] && (#[trigger] fences[j]).id != fence_id ==> fences[j].hidden
                || fences[j].collapsed,
        forall|j: int|
            0 <= j < fences.len() && under[j] && bins[j] && (#[trigger] fences[j]).id != fence_id
                ==> fences[j].hidden || fences[j].collapsed,
        forall|i: int, j: int|
            0 <= i < j < fences.len() ==> (#[trigger] fences[i]).id != (#[trigger] fences[j]).id,
        0 <= m < fences.len(),
    ensures
        ({
            let p = u.preview->0;
            let (v, f, r, opened) = released_ui(
                u,
                fences,
                fence_id,
                items,
                hits,
                under,
                bins,
                e,
            );
            let kept = fences[m].pinned.filter(|y: Seq<char>| !p.dragged_paths.contains(y));
            &&& r == (ReleasedView::Assigned { fence: fences[to].id })
            &&& opened is None
            &&& f.len() == fences.len()
            &&& f[m].pinned.contains(x) <==> (if p.dragged_paths.contains(x) {
                m == to
            } else {
                fences[m].pinned.contains(x)
            })
            &&& kept.is_prefix_of(f[m].pinned)
            &&& m != to ==> f[m].pinned == kept
            &&& f[m] == (if fences[m].id == p.fence_id {
                FenceView {
                    pinned: f[m].pinned,
                    item_order: p.original,
                    sort_mode: p.original_sort_mode,
                    ..fences[m]
                }
            } else {
                FenceView { pinned: f[m].pinned, ..fences[m] }
            })
        }),
{
    let p = u.preview->0;
    let paths = p.dragged_paths;
    lemma_drop_target_is(fences, under, fence_id, to);
    assert(!on_other_bin(fences, under, bins, fence_id));
    let w = unpinned(fences, paths);
    let g = given_to(fences, paths, fences[to].id);
    assert forall|j: int| 0 <= j < to implies (#[trigger] w[j]).id != fences[to].id by {
        assert(fences[j].id != fences[to].id);
    }
    model::lemma_fence_at_is(w, fences[to].id, to);
    assert forall|j: int| 0 <= j < g.len() implies (#[trigger] g[j]).id == fences[j].id by {}
    drag::law_rollback_restores_the_fence(g, p, m);
    if fences[m].id == p.fence_id {
        assert forall|j: int| 0 <= j < m implies (#[trigger] g[j]).id != p.fence_id by {
            assert(fences[j].id != fences[m].id);
        }
    }
    let mine = fences[m].pinned;
    let kept = listing::part(mine, paths, false);
    listing::law_added_paths_are_the_new_ones(paths, mine);
    let keep = |y: Seq<char>| !paths.contains(y);
    assert(kept.contains(x) <==> mine.contains(x) && !paths.contains(x)) by {
        if kept.contains(x) {
            let k = choose|k: int| 0 <= k < kept.len() && kept[k] == x;
            mine.lemma_filter_pred(keep, k);
            mine.lemma_filter_contains_rev(keep, x);
        }
        if mine.contains(x) && !paths.contains(x) {
            let k = choose|k: int| 0 <= k < mine.len() && mine[k] == x;
            mine.lemma_filter_contains(keep, k);
        }
    }
    selection::lemma_with_texts(kept, paths);
    selection::lemma_with_texts_starts(kept, paths);
    assert(selection::with_texts(kept, paths).contains(x) <==> kept.contains(x) || paths.contains(
        x,
    ));
}

/// A drag of files that ends over nothing that takes them is taken back: the fences are as
/// at the press.
pub proof fn law_drop_on_nothing_is_taken_back(
    u: UiView,
    fences: Seq<FenceView>,
    fence_id: u32,
    items: Seq<Seq<char>>,
    hits: Seq<usize>,
    under: Seq<bool>,
    bins: Seq<bool>,
    e: Release,
)
    requires
        u.drag is Some,
        u.ghost_shown,
        !e.inside,
        forall|j: int|
            0 <= j < fences.len() && under[j] && (#[trigger] fences[j]).id != fence_id
                ==> fences[j].hidden || fences[j].collapsed,
    ensures
        ({
            let (v, f, r, opened) = released_ui(
                u,
                fences,
                fence_id,
                items,
                hits,
                under,
                bins,
                e,
            );
            &&& r is RolledBack
            &&& f == drag::rolled_back(fences, u.preview)
            &&& opened is None
            &&& !v.line
        }),
{
    law_drop_goes_to_the_first_fence_under_the_pointer(fences, under, fence_id);
    assert(!on_other_bin(fences, under, bins, fence_id));
}

/// A file is renamed by a second click on it: where it was selected before, Ctrl is not
/// held, the pointer stayed within eight pixels, more than the time of a double click has
/// passed since the last release, and it is not the recycle bin. Every other release of an
/// item is a click.
pub proof fn law_second_click_renames(
    u: UiView,
    fences: Seq<FenceView>,
    fence_id: u32,
    items: Seq<Seq<char>>,
    hits: Seq<usize>,
    under: Seq<bool>,
    bins: Seq<bool>,
    e: Release,
)
    requires
        u.drag is Some,
        !u.ghost_shown,
        u.drag->0.fence_id == fence_id,
        !u.drag->0.dragged_out,
        u.drag->0.mode is Icon,
    ensures
        ({
            let d = u.drag->0;
            let (v, f, r, opened) = released_ui(
                u,
                fences,
                fence_id,
                items,
                hits,
                under,
                bins,
                e,
            );
            let dx = e.at.screen_x - d.start.screen_x;
            let dy = e.at.screen_y - d.start.screen_y;
            let slow = d.icon_was_selected && !e.ctrl && dx * dx + dy * dy <= 8 * 8 && e.now_ms
                - u.last_up_ms > e.double_click_ms && d.icon_path.len() > 0 && d.icon_path
                != "::{645FF040-5081-101B-9F08-00AA002F954E}"@;
            &&& f == fences
            &&& v.selection == u.selection
            &&& v.pending_open is None
            &&& v.drag is None
            &&& v.last_up_ms == e.now_ms
            &&& slow ==> r == (ReleasedView::Rename { path: d.icon_path }) && opened is None
            &&& !slow ==> r is Clicked
            &&& dx * dx + dy * dy > 8 * 8 ==> opened is None
            &&& !slow && dx * dx + dy * dy <= 8 * 8 ==> opened == (match u.pending_at {
                Some(q) if (e.at.screen_x - q.0) * (e.at.screen_x - q.0) + (e.at.screen_y - q.1) * (
                e.at.screen_y - q.1) > 8 * 8 => None,
                _ => u.pending_open,
            })
        }),
{
}

/// A moved fence that stayed within eight pixels goes back; else, with the fences lined
/// up, it goes to the slot there or to the last that was shown, and without a slot, or
/// with the fences free, it stays where it was dropped.
pub proof fn law_moved_fence_lands(
    u: UiView,
    fences: Seq<FenceView>,
    fence_id: u32,
    items: Seq<Seq<char>>,
    hits: Seq<usize>,
    under: Seq<bool>,
    bins: Seq<bool>,
    e: Release,
)
    requires
        u.drag is Some,
        !u.ghost_shown,
        u.drag->0.fence_id == fence_id,
        !u.drag->0.dragged_out,
        u.drag->0.mode is Move,
    ensures
        ({
            let d = u.drag->0;
            let (v, f, r, opened) = released_ui(
                u,
                fences,
                fence_id,
                items,
                hits,
                under,
                bins,
                e,
            );
            let dx = e.at.screen_x - d.start.screen_x;
            let dy = e.at.screen_y - d.start.screen_y;
            let near = dx * dx + dy * dy <= 8 * 8;
            &&& r is Moved
            &&& f == fences
            &&& !v.line
            &&& v.drag is None
            &&& v.selection == u.selection
            &&& r->landing is Back <==> near
            &&& r->landing is Free <==> !near && !(e.auto_align && (e.slot_here || d.planned))
            &&& r->landing matches Landing::Slot { fresh } ==> fresh == e.slot_here
        }),
{
}

/// A fence that was resized keeps its size from then on, its neighbours move up where the
/// fences are lined up, and no other fence changes.
pub proof fn law_resized_fence_keeps_its_size(
    u: UiView,
    fences: Seq<FenceView>,
    fence_id: u32,
    items: Seq<Seq<char>>,
    hits: Seq<usize>,
    under: Seq<bool>,
    bins: Seq<bool>,
    e: Release,
    i: int,
)
    requires
        u.drag is Some,
        !u.ghost_shown,
        u.drag->0.fence_id == fence_id,
        !u.drag->0.dragged_out,
        u.drag->0.mode is Resize,
        0 <= i < fences.len(),
        fences[i].id == fence_id,
        forall|j: int| 0 <= j < i ==> (#[trigger] fences[j]).id != fence_id,
    ensures
        ({
            let (v, f, r, opened) = released_ui(
                u,
                fences,
                fence_id,
                items,
                hits,
                under,
                bins,
                e,
            );
            &&& r == (ReleasedView::Resized { compact: e.auto_align })
            &&& f == fences.update(i, FenceView { manual_size: true, ..fences[i] })
            &&& v.selection == u.selection
        }),
{
    model::lemma_fence_at_is(fences, fence_id, i);
}

/// A release of another fence's drag, or of one that has left its fence, changes no fence
/// and no selection. Neither does a release without a drag.
pub proof fn law_foreign_release_does_nothing(
    u: UiView,
    fences: Seq<FenceView>,
    fence_id: u32,
    items: Seq<Seq<char>>,
    hits: Seq<usize>,
    under: Seq<bool>,
    bins: Seq<bool>,
    e: Release,
)
    requires
        u.drag matches Some(d) ==> !u.ghost_shown && (d.fence_id != fence_id || d.dragged_out),
    ensures
        ({
            let (v, f, r, opened) = released_ui(
                u,
                fences,
                fence_id,
                items,
                hits,
                under,
                bins,
                e,
            );
            &&& f == fences
            &&& v.selection == u.selection
            &&& v.preview == u.preview
            &&& v.drag is None
            &&& v.pending_open is None
            &&& v.last_up_ms == e.now_ms
            &&& r is NoDrag <==> u.drag is None
            &&& r is Dropped <==> u.drag is Some
            &&& opened == (match u.pending_at {
                Some(q) if (e.at.screen_x - q.0) * (e.at.screen_x - q.0) + (e.at.screen_y - q.1) * (
                e.at.screen_y - q.1) > 8 * 8 => None,
                _ => u.pending_open,
            })
        }),
{
}

/// A rectangle that is let go selects the items in it, and with Ctrl what was selected
/// before too.
pub proof fn law_drawn_rectangle_selects(
    u: UiView,
    fences: Seq<FenceView>,
    fence_id: u32,
    items: Seq<Seq<char>>,
    hits: Seq<usize>,
    under: Seq<bool>,
    bins: Seq<bool>,
    e: Release,
    x: Seq<char>,
)
    requires
        u.drag is Some,
        !u.ghost_shown,
        u.drag->0.fence_id == fence_id,
        !u.drag->0.dragged_out,
        u.drag->0.mode is Marquee,
        exists|i: int| 0 <= i < fences.len() && (#[trigger] fences[i]).id == fence_id,
    ensures
        ({
            let (v, f, r, opened) = released_ui(
                u,
                fences,
                fence_id,
                items,
                hits,
                under,
                bins,
                e,
            );
            &&& r is Marqueed
            &&& f == fences
            &&& v.marquee is None
            &&& v.selection.paths.contains(x) <==> (exists|k: int|
                0 <= k < hits.len() && #[trigger] hits[k] < items.len() && items[hits[k] as int]
                    == x) || (e.ctrl && u.selection.paths.contains(x))
        }),
{
    model::lemma_fence_at(fences, fence_id);
    selection::law_rectangle_selects_what_it_holds(u.selection, items, hits, e.ctrl, x);
}

/// The end of a drag of files leaves everything of the user's doings but the drag: the
/// selection, the active fence and what is left to be opened stay.
pub proof fn law_drop_leaves_the_rest(
    u: UiView,
    fences: Seq<FenceView>,
    fence_id: u32,
    items: Seq<Seq<char>>,
    hits: Seq<usize>,
    under: Seq<bool>,
    bins: Seq<bool>,
    e: Release,
)
    requires
        u.drag is Some,
        u.ghost_shown,
    ensures
        released_ui(u, fences, fence_id, items, hits, under, bins, e).0 == (UiView {
            drag: None,
            preview: None,
            ghost_shown: false,
            trash_target: false,
            marquee: None,
            line: u.line && e.inside && u.trash_target,
            last_up_ms: e.now_ms,
            ..u
        }),
{
}

/// The end of any other drag leaves everything but the drag, the rectangle and what was left
/// to be opened; a rectangle selects, and the line of a moved fence goes.
pub proof fn law_release_leaves_the_rest(
    u: UiView,
    fences: Seq<FenceView>,
    fence_id: u32,
    items: Seq<Seq<char>>,
    hits: Seq<usize>,
    under: Seq<bool>,
    bins: Seq<bool>,
    e: Release,
)
    requires
        u.drag is Some,
        !u.ghost_shown,
    ensures
        ({
            let (v, f, r, opened) = released_ui(
                u,
                fences,
                fence_id,
                items,
                hits,
                under,
                bins,
                e,
            );
            let d = u.drag->0;
            let own = d.fence_id == fence_id && !d.dragged_out;
            &&& v == (UiView {
                drag: None,
                marquee: None,
                last_up_ms: e.now_ms,
                selection: v.selection,
                line: u.line && !(own && d.mode is Move),
                pending_open: None,
                pending_at: v.pending_at,
                ..u
            })
            &&& v.selection != u.selection ==> own && d.mode is Marquee
            &&& v.pending_at is None || v.pending_at == u.pending_at
            &&& !(r is Rename) ==> v.pending_at is None
            &&& own && d.mode is ScrollThumb ==> r is Clicked && f == fences
            &&& f != fences ==> own && d.mode is Resize
        }),
{
}

} // verus!

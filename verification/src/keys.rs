//! Keys, the wheel, right clicks, drops from elsewhere and what is drawn above the
//! fences.
use crate::desk;
use crate::drag;
use crate::drag::{DragMode, Ui, UiView};
use crate::grid;
use crate::grid::{Hit, Layout};
use crate::model;
use crate::model::{Fence, FenceView, FileItem};
use crate::selection;
use crate::selection::Arrow;
use crate::text;
use crate::usage;
use crate::usage::UsageStore;
use vstd::prelude::*;

verus! {

// ---------------------------------------------------------------- keys

/// What a key leads to.
pub enum KeyAction {
    Nothing,
    /// The drag of files was taken back.
    IconDragCancelled,
    /// The drag of a fence ended: the fences go back to where they were.
    LayoutRestored,
    /// The selection changed.
    Redraw,
    Open { paths: Vec<String> },
    Rename { path: String },
    Copy { paths: Vec<String> },
    Paste,
    Delete { paths: Vec<String> },
}

/// The contents of a `KeyAction`.
pub enum KeyView {
    Nothing,
    IconDragCancelled,
    LayoutRestored,
    Redraw,
    Open { paths: Seq<Seq<char>> },
    Rename { path: Seq<char> },
    Copy { paths: Seq<Seq<char>> },
    Paste,
    Delete { paths: Seq<Seq<char>> },
}

impl View for KeyAction {
    type V = KeyView;

    open spec fn view(&self) -> KeyView {
        match self {
            KeyAction::Nothing => KeyView::Nothing,
            KeyAction::IconDragCancelled => KeyView::IconDragCancelled,
            KeyAction::LayoutRestored => KeyView::LayoutRestored,
            KeyAction::Redraw => KeyView::Redraw,
            KeyAction::Open { paths } => KeyView::Open { paths: text::texts(paths@) },
            KeyAction::Rename { path } => KeyView::Rename { path: path@ },
            KeyAction::Copy { paths } => KeyView::Copy { paths: text::texts(paths@) },
            KeyAction::Paste => KeyView::Paste,
            KeyAction::Delete { paths } => KeyView::Delete { paths: text::texts(paths@) },
        }
    }
}

/// The numbers of the keys.
pub const VK_RETURN: u32 = 0x0D;

pub const VK_ESCAPE: u32 = 0x1B;

pub const VK_LEFT: u32 = 0x25;

pub const VK_UP: u32 = 0x26;

pub const VK_RIGHT: u32 = 0x27;

pub const VK_DOWN: u32 = 0x28;

pub const VK_DELETE: u32 = 0x2E;

pub const VK_A: u32 = 0x41;

pub const VK_C: u32 = 0x43;

pub const VK_V: u32 = 0x56;

pub const VK_X: u32 = 0x58;

pub const VK_F2: u32 = 0x71;

/// The most files that one key opens.
pub const OPEN_LIMIT: usize = 32;

/// The arrow of a key.
pub open spec fn arrow_key(vk: u32) -> Option<Arrow> {
    if vk == VK_LEFT {
        Some(Arrow::Left)
    } else if vk == VK_RIGHT {
        Some(Arrow::Right)
    } else if vk == VK_UP {
        Some(Arrow::Up)
    } else if vk == VK_DOWN {
        Some(Arrow::Down)
    } else {
        None
    }
}

/// The arrow of a key.
pub fn arrow_of(vk: u32) -> (r: Option<Arrow>)
    ensures
        r == arrow_key(vk),
{
    if vk == VK_LEFT {
        Some(Arrow::Left)
    } else if vk == VK_RIGHT {
        Some(Arrow::Right)
    } else if vk == VK_UP {
        Some(Arrow::Up)
    } else if vk == VK_DOWN {
        Some(Arrow::Down)
    } else {
        None
    }
}

/// A key with what was held down, as one number: the key in the low sixteen bits,
/// Ctrl in the bit above them, Shift eight bits higher.
pub fn unpack_key(packed: usize) -> (r: (u32, bool, bool))
    ensures
        r.0 == packed & 0xffff,
        r.1 == (packed & 0x1_0000 != 0),
        r.2 == (packed & 0x100_0000 != 0),
{
    assert(packed & 0xffff <= 0xffff) by (bit_vector);
    ((packed & 0xffff) as u32, packed & 0x1_0000 != 0, packed & 0x100_0000 != 0)
}

/// `list` without the recycle bin.
pub open spec fn without_bin(list: Seq<Seq<char>>) -> Seq<Seq<char>>
    decreases list.len(),
{
    if list.len() == 0 {
        Seq::empty()
    } else {
        let r = without_bin(list.drop_last());
        if model::bin_path(list.last()) {
            r
        } else {
            r.push(list.last())
        }
    }
}

fn drop_bin(list: &Vec<String>) -> (r: Vec<String>)
    ensures
        text::texts(r@) == without_bin(text::texts(list@)),
{
    let ghost all = text::texts(list@);
    let mut out: Vec<String> = Vec::new();
    let mut i: usize = 0;
    assert(text::texts(out@) =~= without_bin(all.take(0)));
    while i < list.len()
        invariant
            i <= list.len(),
            all == text::texts(list@),
            text::texts(out@) == without_bin(all.take(i as int)),
        decreases list.len() - i,
    {
        let ghost before = out@;
        assert(all.take(i + 1).drop_last() =~= all.take(i as int));
        assert(all.take(i + 1).last() == list@[i as int]@);
        if !model::is_recycle_bin(list[i].as_str()) {
            out.push(list[i].clone());
            assert(text::texts(out@) =~= text::texts(before).push(list@[i as int]@));
        }
        i = i + 1;
    }
    assert(all.take(all.len() as int) =~= all);
    out
}

/// The first entries of `list`, at most `limit`.
pub open spec fn at_most(list: Seq<Seq<char>>, limit: int) -> Seq<Seq<char>> {
    if list.len() <= limit {
        list
    } else {
        list.take(limit)
    }
}

/// A fence is moved or resized.
pub open spec fn moves_fence(u: UiView, fence_id: u32) -> bool {
    match u.drag {
        Some(d) => d.fence_id == fence_id && (d.mode is Move || d.mode is Resize),
        None => false,
    }
}

/// What the Escape key leads to: it takes back the drag that goes on.
pub open spec fn escaped(
    u: UiView,
    fences: Seq<FenceView>,
    fence_id: u32,
) -> (UiView, Seq<FenceView>, KeyView) {
    if u.ghost_shown {
        (
            UiView { ghost_shown: false, line: false, preview: None, ..u },
            drag::rolled_back(fences, u.preview),
            KeyView::IconDragCancelled,
        )
    } else if moves_fence(u, fence_id) {
        (
            UiView { line: false, drag: None, marquee: None, ..u },
            fences,
            KeyView::LayoutRestored,
        )
    } else {
        (u, fences, KeyView::Nothing)
    }
}

/// What a key other than Escape leads to on a fence that shows `items`.
pub open spec fn typed(
    u: UiView,
    items: Seq<Seq<char>>,
    lay: Layout,
    vk: u32,
    ctrl: bool,
    shift: bool,
) -> (UiView, KeyView) {
    let sel = u.selection;
    let chosen = selection::chosen_of(items, sel.paths);
    if ctrl && vk == VK_A {
        (UiView { selection: selection::all_selected(items), ..u }, KeyView::Redraw)
    } else if vk == VK_RETURN {
        (u, KeyView::Open { paths: at_most(chosen, OPEN_LIMIT as int) })
    } else if vk == VK_F2 {
        if sel.paths.len() == 1 && !model::bin_path(sel.paths[0]) {
            (u, KeyView::Rename { path: sel.paths[0] })
        } else {
            (u, KeyView::Nothing)
        }
    } else if vk == VK_DELETE {
        (u, KeyView::Delete { paths: without_bin(chosen) })
    } else if arrow_key(vk) is Some {
        if sel.focused is Some && text::first_index(items, sel.focused->0) is Some {
            (
                UiView {
                    selection: selection::stepped(sel, items, lay, arrow_key(vk)->0, shift),
                    ..u
                },
                KeyView::Redraw,
            )
        } else {
            (u, KeyView::Nothing)
        }
    } else if ctrl && (vk == VK_C || vk == VK_X) {
        (u, KeyView::Copy { paths: sel.paths })
    } else if ctrl && vk == VK_V {
        (u, KeyView::Paste)
    } else {
        (u, KeyView::Nothing)
    }
}

fn escape(ui: &mut Ui, fences: &mut Vec<Fence>, fence_id: u32) -> (r: KeyAction)
    ensures
        (final(ui)@, model::fence_views(final(fences)@), r@) == escaped(
            old(ui)@,
            model::fence_views(old(fences)@),
            fence_id,
        ),
{
    if ui.ghost_shown {
        ui.ghost_shown = false;
        ui.line = false;
        drag::rollback_ghost_preview(ui, fences);
        return KeyAction::IconDragCancelled;
    }
    let moves = match &ui.drag {
        Some(d) => d.fence_id == fence_id && match d.mode {
            DragMode::Move => true,
            DragMode::Resize(_) => true,
            _ => false,
        },
        None => false,
    };
    if moves {
        ui.line = false;
        ui.drag = None;
        ui.marquee = None;
        return KeyAction::LayoutRestored;
    }
    KeyAction::Nothing
}

/// A key on a fence that shows `items` as `lay` tells.
pub fn dispatch_file_key(
    ui: &mut Ui,
    fences: &mut Vec<Fence>,
    fence_id: u32,
    items: &Vec<FileItem>,
    lay: &Layout,
    vk: u32,
    ctrl: bool,
    shift: bool,
) -> (r: KeyAction)
    requires
        items.len() + lay.cols <= usize::MAX,
        lay.first_index + lay.visible <= usize::MAX,
    ensures
        vk == VK_ESCAPE ==> (final(ui)@, model::fence_views(final(fences)@), r@) == escaped(
            old(ui)@,
            model::fence_views(old(fences)@),
            fence_id,
        ),
        vk != VK_ESCAPE ==> model::fence_views(final(fences)@) == model::fence_views(old(fences)@),
        vk != VK_ESCAPE ==> (final(ui)@, r@) == (if model::fence_at(
            model::fence_views(old(fences)@),
            fence_id,
        ) is Some {
            typed(old(ui)@, model::paths_of(items@), *lay, vk, ctrl, shift)
        } else {
            (old(ui)@, KeyView::Nothing)
        }),
{
    if vk == VK_ESCAPE {
        return escape(ui, fences, fence_id);
    }
    if model::fence_position(fences, fence_id).is_none() {
        return KeyAction::Nothing;
    }
    if ctrl && vk == VK_A {
        selection::select_all(&mut ui.selection, items);
        return KeyAction::Redraw;
    }
    if vk == VK_RETURN {
        let mut paths = selection::chosen_items(items, &ui.selection.paths);
        let ghost all = text::texts(paths@);
        if paths.len() > OPEN_LIMIT {
            paths.truncate(OPEN_LIMIT);
        }
        assert(text::texts(paths@) =~= at_most(all, OPEN_LIMIT as int));
        return KeyAction::Open { paths };
    }
    if vk == VK_F2 {
        if ui.selection.paths.len() == 1 && !model::is_recycle_bin(
            ui.selection.paths[0].as_str(),
        ) {
            return KeyAction::Rename { path: ui.selection.paths[0].clone() };
        }
        return KeyAction::Nothing;
    }
    if vk == VK_DELETE {
        let chosen = selection::chosen_items(items, &ui.selection.paths);
        return KeyAction::Delete { paths: drop_bin(&chosen) };
    }
    match arrow_of(vk) {
        Some(arrow) => {
            if selection::step_selection(&mut ui.selection, items, lay, arrow, shift) {
                return KeyAction::Redraw;
            }
            return KeyAction::Nothing;
        },
        None => {},
    }
    if ctrl && (vk == VK_C || vk == VK_X) {
        return KeyAction::Copy { paths: text::copy_texts(&ui.selection.paths) };
    }
    if ctrl && vk == VK_V {
        return KeyAction::Paste;
    }
    KeyAction::Nothing
}

/// Neither the Delete key nor F2 ever touches the recycle bin.
pub proof fn law_keys_spare_the_bin(
    u: UiView,
    items: Seq<Seq<char>>,
    lay: Layout,
    vk: u32,
    ctrl: bool,
    shift: bool,
    x: Seq<char>,
)
    requires
        model::bin_path(x),
    ensures
        typed(u, items, lay, vk, ctrl, shift).1 matches KeyView::Delete { paths }
            ==> !paths.contains(x),
        typed(u, items, lay, vk, ctrl, shift).1 matches KeyView::Rename { path } ==> path != x,
{
    lemma_without_bin(selection::chosen_of(items, u.selection.paths), x);
}

proof fn lemma_without_bin(list: Seq<Seq<char>>, x: Seq<char>)
    requires
        model::bin_path(x),
    ensures
        !without_bin(list).contains(x),
    decreases list.len(),
{
    if list.len() > 0 {
        lemma_without_bin(list.drop_last(), x);
        let w = without_bin(list.drop_last());
        let out = without_bin(list);
        if out.contains(x) {
            let i = choose|i: int| 0 <= i < out.len() && out[i] == x;
            if i < w.len() {
                assert(w[i] == x);
                assert(w.contains(x));
            }
        }
    }
}

/// Where an arrow key moves the fence under the pointer: the direction across and
/// the direction down, nowhere where it is locked or gone. With Ctrl by one pixel,
/// else by one cell.
pub fn nudge_fence(fences: &Vec<Fence>, fence_id: u32, vk: u32) -> (r: Option<(i32, i32)>)
    ensures
        r == (match arrow_key(vk) {
            None => None,
            Some(a) => match model::fence_at(model::fence_views(fences@), fence_id) {
                None => None,
                Some(i) => if fences@[i].locked {
                    None
                } else {
                    Some(
                        match a {
                            Arrow::Left => (-1i32, 0i32),
                            Arrow::Right => (1i32, 0i32),
                            Arrow::Up => (0i32, -1i32),
                            Arrow::Down => (0i32, 1i32),
                        },
                    )
                },
            },
        }),
{
    let a = match arrow_of(vk) {
        None => {
            return None;
        },
        Some(a) => a,
    };
    match model::fence_position(fences, fence_id) {
        None => None,
        Some(i) => {
            if fences[i].locked {
                None
            } else {
                Some(
                    match a {
                        Arrow::Left => (-1, 0),
                        Arrow::Right => (1, 0),
                        Arrow::Up => (0, -1),
                        Arrow::Down => (0, 1),
                    },
                )
            }
        },
    }
}

// ---------------------------------------------------------------- the wheel

/// The first shown row after the wheel turned: one up or one down, within `max`.
pub open spec fn wheeled(row: usize, max: int, delta: i32) -> int {
    if delta > 0 {
        if row > 0 {
            row - 1
        } else {
            0
        }
    } else {
        grid::lesser(row + 1, max)
    }
}

/// Scrolls a fence by the wheel. True where it may have scrolled: it is there, not
/// locked, and has more rows than it shows.
pub fn handle_wheel(fences: &mut Vec<Fence>, fence_id: u32, lay: &Layout, delta: i32) -> (r: bool)
    ensures
        r == (lay.total_rows > lay.rows && (model::fence_at(
            model::fence_views(old(fences)@),
            fence_id,
        ) matches Some(i) && !old(fences)@[i].locked)),
        model::fence_views(final(fences)@) == (if r {
            desk::with_fence(
                model::fence_views(old(fences)@),
                fence_id,
                |f: FenceView|
                    FenceView {
                        scroll_rows: wheeled(
                            f.scroll_rows,
                            lay.total_rows - lay.rows,
                            delta,
                        ) as usize,
                        ..f
                    },
            )
        } else {
            model::fence_views(old(fences)@)
        }),
{
    let ghost was = model::fence_views(fences@);
    match model::fence_position(fences, fence_id) {
        None => false,
        Some(i) => {
            if fences[i].locked || lay.total_rows <= lay.rows {
                return false;
            }
            let max: usize = lay.total_rows - lay.rows;
            let row: usize = fences[i].scroll_rows;
            let to: usize = if delta > 0 {
                if row > 0 {
                    row - 1
                } else {
                    0
                }
            } else if row < max {
                row + 1
            } else {
                max
            };
            assert(to == wheeled(row, max as int, delta));
            fences[i].scroll_rows = to;
            assert(model::fence_views(fences@) =~= was.update(
                i as int,
                FenceView { scroll_rows: to, ..was[i as int] },
            ));
            true
        },
    }
}

// ---------------------------------------------------------------- right clicks

/// The menu that a right click opens.
pub enum ContextMenu {
    Nothing,
    /// The system's menu of these files.
    Files { paths: Vec<String> },
    /// The system's menu of the desktop.
    Desktop,
    /// The menu of the fence.
    OfFence,
}

/// A right click on `hit` of a fence that shows `items`.
pub fn handle_rbuttonup(
    ui: &mut Ui,
    fences: &Vec<Fence>,
    fence_id: u32,
    items: &Vec<FileItem>,
    hit: Hit,
) -> (r: ContextMenu)
    ensures
        model::fence_at(model::fence_views(fences@), fence_id) is None ==> (r is Nothing
            && final(ui)@ == old(ui)@),
        model::fence_at(model::fence_views(fences@), fence_id) is Some ==> match hit {
            Hit::Icon(i) => if i < items@.len() {
                let path = items@[i as int].path@;
                let sel = selection::right_clicked(old(ui)@.selection, path);
                &&& final(ui)@ == (UiView { selection: sel, ..old(ui)@ })
                &&& r matches ContextMenu::Files { paths } && text::texts(paths@) == (
                if sel.paths.len() > 1 {
                    sel.paths
                } else {
                    seq![path]
                })
            } else {
                r is OfFence && final(ui)@ == old(ui)@
            },
            Hit::Blank => r is Desktop && final(ui)@ == old(ui)@,
            _ => r is OfFence && final(ui)@ == old(ui)@,
        },
{
    if model::fence_position(fences, fence_id).is_none() {
        return ContextMenu::Nothing;
    }
    match hit {
        Hit::Icon(i) => {
            if i < items.len() {
                let path = items[i].path.clone();
                let paths = selection::right_click_item(&mut ui.selection, path.as_str());
                return ContextMenu::Files { paths };
            }
            ContextMenu::OfFence
        },
        Hit::Blank => ContextMenu::Desktop,
        _ => ContextMenu::OfFence,
    }
}

// ---------------------------------------------------------------- drops

/// What a drop of files from elsewhere leads to.
#[derive(Clone, Copy, PartialEq, Eq, Structural)]
pub enum Dropped {
    /// The files go to the recycle bin.
    Deleted,
    /// The fence holds the files.
    Pinned,
    /// The fence is gone.
    Nowhere,
}

/// Files were dropped on a fence; `on_bin` tells whether on its recycle bin.
pub fn on_fence_drop_cb(
    fences: &mut Vec<Fence>,
    fence_id: u32,
    paths: &Vec<String>,
    on_bin: bool,
) -> (r: Dropped)
    ensures
        r == (if on_bin {
            Dropped::Deleted
        } else if model::fence_at(model::fence_views(old(fences)@), fence_id) is Some {
            Dropped::Pinned
        } else {
            Dropped::Nowhere
        }),
        model::fence_views(final(fences)@) == (if on_bin {
            model::fence_views(old(fences)@)
        } else {
            desk::with_fence(
                model::fence_views(old(fences)@),
                fence_id,
                |f: FenceView|
                    FenceView {
                        pinned: selection::with_texts(
                            f.pinned,
                            without_bin(text::texts(paths@)),
                        ),
                        ..f
                    },
            )
        }),
{
    if on_bin {
        return Dropped::Deleted;
    }
    let ghost was = model::fence_views(fences@);
    match model::fence_position(fences, fence_id) {
        None => Dropped::Nowhere,
        Some(i) => {
            let files = drop_bin(paths);
            let mut pinned = text::copy_texts(&fences[i].pinned);
            selection::add_texts(&mut pinned, &files);
            fences[i].pinned = pinned;
            assert(model::fence_views(fences@) =~= was.update(
                i as int,
                FenceView {
                    pinned: selection::with_texts(
                        was[i as int].pinned,
                        without_bin(text::texts(paths@)),
                    ),
                    ..was[i as int]
                },
            ));
            Dropped::Pinned
        },
    }
}

/// Notes that a file is opened. False for the recycle bin, which the system opens
/// and which is not counted.
pub fn open_item(store: &mut UsageStore, path: &str, now: u64) -> (r: bool)
    requires
        old(store).wf(),
    ensures
        final(store).wf(),
        r == !model::bin_path(path@),
        r ==> final(store)@ == usage::opened_at(old(store)@, path@, now),
        !r ==> final(store)@ == old(store)@ && final(store).loaded() == old(store).loaded(),
{
    if model::is_recycle_bin(path) {
        return false;
    }
    usage::record_open_at(store, path, now);
    true
}

// ---------------------------------------------------------------- the overlay

/// A file that flies to its place.
pub struct Arrival {
    pub fence_id: u32,
    pub path: String,
    pub name: String,
    pub started_ms: u64,
    pub duration_ms: u64,
}

/// An arrival is still drawn: it flies, or ended at most 180 milliseconds ago.
pub open spec fn still_drawn(a: Arrival, now: u64) -> bool {
    (if now >= a.started_ms {
        now - a.started_ms
    } else {
        0
    }) <= a.duration_ms + 180
}

/// The arrivals that are still drawn.
pub open spec fn drawn(a: Seq<Arrival>, now: u64) -> Seq<Arrival>
    decreases a.len(),
{
    if a.len() == 0 {
        Seq::empty()
    } else {
        let r = drawn(a.drop_last(), now);
        if still_drawn(a.last(), now) {
            r.push(a.last())
        } else {
            r
        }
    }
}

/// Drops the arrivals that are over.
pub fn retain_arrivals(list: &mut Vec<Arrival>, now: u64)
    ensures
        final(list)@ == drawn(old(list)@, now),
{
    let ghost all = list@;
    let n: usize = list.len();
    let mut out: Vec<Arrival> = Vec::new();
    let mut i: usize = 0;
    assert(out@ =~= drawn(all.take(0), now));
    while i < n
        invariant
            i <= n == all.len(),
            list@ == all.skip(i as int),
            out@ == drawn(all.take(i as int), now),
        decreases n - i,
    {
        let a = list.remove(0);
        assert(a == all[i as int]);
        assert(list@ =~= all.skip(i + 1));
        assert(all.take(i + 1).drop_last() =~= all.take(i as int));
        let age: u64 = if now >= a.started_ms {
            now - a.started_ms
        } else {
            0
        };
        if age <= 180 || age - 180 <= a.duration_ms {
            out.push(a);
        }
        i = i + 1;
    }
    assert(all.take(n as int) =~= all);
    *list = out;
}

/// Whether anything is drawn above the fences: a ghost, an arrival or a line.
pub fn overlay_shown(ui: &Ui, arrivals: &Vec<Arrival>) -> (r: bool)
    ensures
        r == (ui.ghost_shown || arrivals@.len() > 0 || ui.line),
{
    ui.ghost_shown || arrivals.len() > 0 || ui.line
}

/// The name under a ghost: that of the first dragged file, empty where no scan has
/// found it.
pub fn ghost_name(ui: &Ui, files: &Vec<FileItem>) -> (r: Option<String>)
    ensures
        text::opt_text(r) == (match ui@.preview {
            Some(p) => if ui.ghost_shown && p.dragged_paths.len() > 0 {
                match text::first_index(model::paths_of(files@), p.dragged_paths[0]) {
                    Some(i) => Some(files@[i].name@),
                    None => Some(Seq::empty()),
                }
            } else {
                None
            },
            None => None,
        }),
{
    if !ui.ghost_shown {
        return None;
    }
    match &ui.preview {
        None => None,
        Some(p) => {
            if p.dragged_paths.len() == 0 {
                return None;
            }
            match selection::item_position(files, p.dragged_paths[0].as_str()) {
                Some(i) => Some(files[i].name.clone()),
                None => {
                    let s = String::new();
                    assert(s@ =~= Seq::empty());
                    Some(s)
                },
            }
        },
    }
}

// ---------------------------------------------------------------- what the keys mean

proof fn lemma_bin_filtered(list: Seq<Seq<char>>)
    ensures
        without_bin(list) == list.filter(
            |x: Seq<char>| x != "::{645FF040-5081-101B-9F08-00AA002F954E}"@,
        ),
    decreases list.len(),
{
    reveal(Seq::filter);
    if list.len() > 0 {
        lemma_bin_filtered(list.drop_last());
    } else {
        assert(without_bin(list) =~= list.filter(
            |x: Seq<char>| x != "::{645FF040-5081-101B-9F08-00AA002F954E}"@,
        ));
    }
}

/// Of dropped files a fence gets all but the recycle bin, in their order.
pub proof fn law_dropped_files_are_not_the_bin(list: Seq<Seq<char>>)
    ensures
        without_bin(list) == list.filter(
            |x: Seq<char>| x != "::{645FF040-5081-101B-9F08-00AA002F954E}"@,
        ),
{
    lemma_bin_filtered(list);
}

/// What the keys do: Enter opens the selected items, 32 at most; Delete deletes them but
/// for the recycle bin; F2 renames the only selected one; Ctrl with A selects all, with C
/// or X copies and with V pastes; the arrows move the focus. Only Ctrl with A and the
/// arrows change the selection.
pub proof fn law_keys_act_on_the_selection(
    u: UiView,
    items: Seq<Seq<char>>,
    lay: Layout,
    vk: u32,
    ctrl: bool,
    shift: bool,
)
    ensures
        ({
            let (v, r) = typed(u, items, lay, vk, ctrl, shift);
            let sel = u.selection.paths;
            let chosen = items.filter(|x: Seq<char>| sel.contains(x));
            let bin = "::{645FF040-5081-101B-9F08-00AA002F954E}"@;
            let arrow = 0x25 <= vk <= 0x28;
            let focused = u.selection.focused is Some && items.contains(u.selection.focused->0);
            &&& v == (UiView { selection: v.selection, ..u })
            &&& r is Open <==> vk == 0x0D
            &&& r is Open ==> r->Open_paths == (if chosen.len() <= 32 {
                chosen
            } else {
                chosen.take(32)
            })
            &&& r is Delete <==> vk == 0x2E
            &&& r is Delete ==> r->Delete_paths == chosen.filter(
                |x: Seq<char>| x != "::{645FF040-5081-101B-9F08-00AA002F954E}"@,
            )
            &&& r is Rename <==> vk == 0x71 && sel.len() == 1 && sel[0] != bin
            &&& r is Rename ==> r->path == sel[0]
            &&& r is Copy <==> ctrl && (vk == 0x43 || vk == 0x58)
            &&& r is Copy ==> r->Copy_paths == sel
            &&& r is Paste <==> ctrl && vk == 0x56
            &&& r is Redraw <==> (ctrl && vk == 0x41) || (arrow && focused)
            &&& !(r is Redraw) ==> v == u
            &&& ctrl && vk == 0x41 ==> v.selection == selection::all_selected(items)
            &&& vk == 0x25 && focused ==> v.selection == selection::stepped(
                u.selection,
                items,
                lay,
                Arrow::Left,
                shift,
            )
            &&& vk == 0x26 && focused ==> v.selection == selection::stepped(
                u.selection,
                items,
                lay,
                Arrow::Up,
                shift,
            )
            &&& vk == 0x27 && focused ==> v.selection == selection::stepped(
                u.selection,
                items,
                lay,
                Arrow::Right,
                shift,
            )
            &&& vk == 0x28 && focused ==> v.selection == selection::stepped(
                u.selection,
                items,
                lay,
                Arrow::Down,
                shift,
            )
        }),
{
    selection::law_chosen_are_filtered(items, u.selection.paths);
    lemma_bin_filtered(selection::chosen_of(items, u.selection.paths));
    if let Some(f) = u.selection.focused {
        text::lemma_first_index(items, f);
    }
}

/// An arrow key is one of four, and each leads its own way.
pub proof fn law_arrow_keys_lead_their_way(vk: u32)
    ensures
        arrow_key(vk) == Some(Arrow::Left) <==> vk == 0x25,
        arrow_key(vk) == Some(Arrow::Up) <==> vk == 0x26,
        arrow_key(vk) == Some(Arrow::Right) <==> vk == 0x27,
        arrow_key(vk) == Some(Arrow::Down) <==> vk == 0x28,
        arrow_key(vk) is None <==> !(0x25 <= vk <= 0x28),
{
}

/// Escape takes back a drag of items, else a move or resize of this fence, and changes
/// nothing else: after the first the fences are as at the press.
pub proof fn law_escape_takes_the_drag_back(u: UiView, fences: Seq<FenceView>, fence_id: u32)
    ensures
        ({
            let (v, f, r) = escaped(u, fences, fence_id);
            let moving = u.drag is Some && u.drag->0.fence_id == fence_id && (
            u.drag->0.mode is Move || u.drag->0.mode is Resize);
            &&& r is IconDragCancelled <==> u.ghost_shown
            &&& r is LayoutRestored <==> !u.ghost_shown && moving
            &&& r is Nothing <==> !u.ghost_shown && !moving
            &&& u.ghost_shown ==> f == drag::rolled_back(fences, u.preview) && v == (UiView {
                ghost_shown: false,
                line: false,
                preview: None,
                ..u
            })
            &&& !u.ghost_shown ==> f == fences
            &&& r is LayoutRestored ==> v == (UiView {
                drag: None,
                marquee: None,
                line: false,
                ..u
            })
            &&& r is Nothing ==> v == u
        }),
{
}

/// The wheel turns the rows by one, up where it turns away and else down, and never out of
/// the rows that there are.
pub proof fn law_wheel_turns_one_row(row: usize, max: int, delta: i32)
    requires
        0 <= max,
    ensures
        delta > 0 && row > 0 ==> wheeled(row, max, delta) == row - 1,
        delta > 0 && row == 0 ==> wheeled(row, max, delta) == 0,
        delta <= 0 && row < max ==> wheeled(row, max, delta) == row + 1,
        delta <= 0 && row >= max ==> wheeled(row, max, delta) == max,
{
}

/// The arrivals that stay are those whose flight has ended less than 180 milliseconds ago
/// or not at all, in their order.
pub proof fn law_arrivals_stay_until_they_are_over(a: Seq<Arrival>, now: u64)
    ensures
        drawn(a, now) == a.filter(
            |x: Arrival| now <= x.started_ms + x.duration_ms + 180,
        ),
    decreases a.len(),
{
    reveal(Seq::filter);
    if a.len() > 0 {
        law_arrivals_stay_until_they_are_over(a.drop_last(), now);
    } else {
        assert(drawn(a, now) =~= a.filter(
            |x: Arrival| now <= x.started_ms + x.duration_ms + 180,
        ));
    }
}

} // verus!

//! The selected files: what a click, a key or a rectangle does to them.
use crate::grid;
use crate::grid::{Hit, Layout};
use crate::model;
use crate::model::FileItem;
use crate::text;
use vstd::prelude::*;

verus! {

/// `s` and `x`, once.
pub open spec fn with_text(s: Seq<Seq<char>>, x: Seq<char>) -> Seq<Seq<char>> {
    if s.contains(x) {
        s
    } else {
        s.push(x)
    }
}

/// `s` and the entries of `more` that it lacks, each once.
pub open spec fn with_texts(s: Seq<Seq<char>>, more: Seq<Seq<char>>) -> Seq<Seq<char>>
    decreases more.len(),
{
    if more.len() == 0 {
        s
    } else {
        with_text(with_texts(s, more.drop_last()), more.last())
    }
}

/// `s` without `x`.
pub open spec fn without_text(s: Seq<Seq<char>>, x: Seq<char>) -> Seq<Seq<char>>
    decreases s.len(),
{
    if s.len() == 0 {
        s
    } else {
        let r = without_text(s.drop_last(), x);
        if s.last() == x {
            r
        } else {
            r.push(s.last())
        }
    }
}

/// The entries of `list` that `chosen` holds, in the order of `list`.
pub open spec fn chosen_of(list: Seq<Seq<char>>, chosen: Seq<Seq<char>>) -> Seq<Seq<char>>
    decreases list.len(),
{
    if list.len() == 0 {
        Seq::empty()
    } else {
        let r = chosen_of(list.drop_last(), chosen);
        if chosen.contains(list.last()) {
            r.push(list.last())
        } else {
            r
        }
    }
}

/// Adds `x` where it is missing.
pub fn add_text(v: &mut Vec<String>, x: &str)
    ensures
        text::texts(final(v)@) == with_text(text::texts(old(v)@), x@),
{
    let ghost was = v@;
    if !text::has_text(v, x) {
        v.push(text::own(x));
        assert(text::texts(v@) =~= text::texts(was).push(x@));
    }
}

/// Adds each entry of `more` that is missing.
pub fn add_texts(v: &mut Vec<String>, more: &Vec<String>)
    ensures
        text::texts(final(v)@) == with_texts(text::texts(old(v)@), text::texts(more@)),
{
    let ghost was = text::texts(v@);
    let ghost m = text::texts(more@);
    let mut i: usize = 0;
    assert(m.take(0) =~= Seq::empty());
    while i < more.len()
        invariant
            i <= more.len(),
            m == text::texts(more@),
            text::texts(v@) == with_texts(was, m.take(i as int)),
        decreases more.len() - i,
    {
        assert(m.take(i + 1).drop_last() =~= m.take(i as int));
        assert(m.take(i + 1).last() == more@[i as int]@);
        add_text(v, more[i].as_str());
        i = i + 1;
    }
    assert(m.take(m.len() as int) =~= m);
}

pub(crate) fn drop_text(v: &Vec<String>, x: &str) -> (r: Vec<String>)
    ensures
        text::texts(r@) == without_text(text::texts(v@), x@),
{
    let ghost all = text::texts(v@);
    let mut out: Vec<String> = Vec::new();
    let mut i: usize = 0;
    assert(text::texts(out@) =~= without_text(all.take(0), x@));
    while i < v.len()
        invariant
            i <= v.len(),
            all == text::texts(v@),
            text::texts(out@) == without_text(all.take(i as int), x@),
        decreases v.len() - i,
    {
        let ghost before = out@;
        assert(all.take(i + 1).drop_last() =~= all.take(i as int));
        assert(all.take(i + 1).last() == v@[i as int]@);
        if !text::same(v[i].as_str(), x) {
            out.push(v[i].clone());
            assert(text::texts(out@) =~= text::texts(before).push(v@[i as int]@));
        }
        i = i + 1;
    }
    assert(all.take(all.len() as int) =~= all);
    out
}

/// The paths of `items` that `chosen` holds, in the order of `items`.
pub fn chosen_items(items: &Vec<FileItem>, chosen: &Vec<String>) -> (r: Vec<String>)
    ensures
        text::texts(r@) == chosen_of(model::paths_of(items@), text::texts(chosen@)),
{
    let ghost all = model::paths_of(items@);
    let mut out: Vec<String> = Vec::new();
    let mut i: usize = 0;
    assert(text::texts(out@) =~= chosen_of(all.take(0), text::texts(chosen@)));
    while i < items.len()
        invariant
            i <= items.len(),
            all == model::paths_of(items@),
            text::texts(out@) == chosen_of(all.take(i as int), text::texts(chosen@)),
        decreases items.len() - i,
    {
        let ghost before = out@;
        assert(all.take(i + 1).drop_last() =~= all.take(i as int));
        assert(all.take(i + 1).last() == items@[i as int].path@);
        if text::has_text(chosen, items[i].path.as_str()) {
            out.push(items[i].path.clone());
            assert(text::texts(out@) =~= text::texts(before).push(items@[i as int].path@));
        }
        i = i + 1;
    }
    assert(all.take(all.len() as int) =~= all);
    out
}

/// The paths of `items`, in their order.
pub fn item_paths(items: &Vec<FileItem>) -> (r: Vec<String>)
    ensures
        text::texts(r@) == model::paths_of(items@),
{
    let mut out: Vec<String> = Vec::new();
    let mut i: usize = 0;
    while i < items.len()
        invariant
            i <= items.len(),
            text::texts(out@) == model::paths_of(items@).take(i as int),
        decreases items.len() - i,
    {
        let ghost before = out@;
        out.push(items[i].path.clone());
        assert(text::texts(out@) =~= text::texts(before).push(items@[i as int].path@));
        assert(text::texts(out@) =~= model::paths_of(items@).take(i + 1));
        i = i + 1;
    }
    assert(text::texts(out@) =~= model::paths_of(items@));
    out
}

/// Where `path` first stands among `items`.
pub fn item_position(items: &Vec<FileItem>, path: &str) -> (r: Option<usize>)
    ensures
        match r {
            Some(i) => i < items.len() && text::first_index(model::paths_of(items@), path@) == Some(
                i as int,
            ),
            None => text::first_index(model::paths_of(items@), path@) is None,
        },
{
    let ghost all = model::paths_of(items@);
    let mut i: usize = 0;
    while i < items.len()
        invariant
            i <= items.len(),
            all == model::paths_of(items@),
            forall|j: int| 0 <= j < i ==> #[trigger] all[j] != path@,
        decreases items.len() - i,
    {
        if text::same(items[i].path.as_str(), path) {
            proof {
                text::lemma_first_index_at(all, path@, i as int);
            }
            return Some(i);
        }
        i = i + 1;
    }
    proof {
        text::lemma_first_index(all, path@);
    }
    None
}

/// The selection: the chosen paths in the order in which they were chosen, the one
/// that has the focus, and the one from which a range is drawn.
pub struct Selection {
    pub paths: Vec<String>,
    pub focused: Option<String>,
    pub anchor: Option<String>,
}

/// The contents of a `Selection`.
pub struct SelectionView {
    pub paths: Seq<Seq<char>>,
    pub focused: Option<Seq<char>>,
    pub anchor: Option<Seq<char>>,
}

impl View for Selection {
    type V = SelectionView;

    open spec fn view(&self) -> SelectionView {
        SelectionView {
            paths: text::texts(self.paths@),
            focused: text::opt_text(self.focused),
            anchor: text::opt_text(self.anchor),
        }
    }
}

/// The selection of nothing.
pub open spec fn nothing_selected() -> SelectionView {
    SelectionView { paths: Seq::empty(), focused: None, anchor: None }
}

impl Selection {
    /// Selects nothing.
    pub fn new() -> (r: Selection)
        ensures
            r@ == nothing_selected(),
    {
        let r = Selection { paths: Vec::new(), focused: None, anchor: None };
        assert(text::texts(r.paths@) =~= Seq::empty());
        r
    }
}

/// Where a range starts: at the anchor, where it is shown, else at `i`.
pub open spec fn range_start(sel: SelectionView, items: Seq<Seq<char>>, i: int) -> int {
    match sel.anchor {
        Some(a) => match text::first_index(items, a) {
            Some(k) => k,
            None => i,
        },
        None => i,
    }
}

/// The entries of `items` between `a` and `b`, both among them.
pub open spec fn run(items: Seq<Seq<char>>, a: int, b: int) -> Seq<Seq<char>> {
    if a < b {
        items.subrange(a, b + 1)
    } else {
        items.subrange(b, a + 1)
    }
}

/// The selection after a press on the item at `i`: with Shift the range from the
/// anchor, added to what was selected where Ctrl is held; with Ctrl the item is
/// turned on or off; else it alone is selected.
pub open spec fn pressed(
    sel: SelectionView,
    items: Seq<Seq<char>>,
    i: int,
    ctrl: bool,
    shift: bool,
) -> SelectionView {
    let path = items[i];
    if shift {
        SelectionView {
            paths: with_texts(
                if ctrl {
                    sel.paths
                } else {
                    Seq::empty()
                },
                run(items, range_start(sel, items, i), i),
            ),
            focused: Some(path),
            anchor: sel.anchor,
        }
    } else if ctrl {
        SelectionView {
            paths: if sel.paths.contains(path) {
                without_text(sel.paths, path)
            } else {
                sel.paths.push(path)
            },
            focused: Some(path),
            anchor: Some(path),
        }
    } else {
        SelectionView { paths: seq![path], focused: Some(path), anchor: Some(path) }
    }
}

fn only(path: &str) -> (r: Vec<String>)
    ensures
        text::texts(r@) == seq![path@],
{
    let mut v: Vec<String> = Vec::new();
    v.push(text::own(path));
    assert(text::texts(v@) =~= seq![path@]);
    v
}

fn start_of_range(sel: &Selection, items: &Vec<FileItem>, i: usize) -> (r: usize)
    requires
        i < items.len(),
    ensures
        r == range_start(sel@, model::paths_of(items@), i as int),
        r < items.len(),
{
    match &sel.anchor {
        Some(a) => match item_position(items, a.as_str()) {
            Some(k) => k,
            None => i,
        },
        None => i,
    }
}

/// Selects by a press on the item at `i`.
pub fn press_item(sel: &mut Selection, items: &Vec<FileItem>, i: usize, ctrl: bool, shift: bool)
    requires
        i < items.len(),
    ensures
        final(sel)@ == pressed(old(sel)@, model::paths_of(items@), i as int, ctrl, shift),
{
    let ghost was = sel@;
    let ghost all = model::paths_of(items@);
    let path = items[i].path.clone();
    if shift {
        let a: usize = start_of_range(sel, items, i);
        if !ctrl {
            sel.paths = Vec::new();
            assert(text::texts(sel.paths@) =~= Seq::empty());
        }
        let ghost base = text::texts(sel.paths@);
        let (lo, hi): (usize, usize) = if a < i {
            (a, i)
        } else {
            (i, a)
        };
        let ghost range = run(all, a as int, i as int);
        let mut k: usize = lo;
        assert(range.take(0) =~= Seq::empty());
        while k <= hi
            invariant
                lo <= k <= hi + 1,
                hi < items.len(),
                all == model::paths_of(items@),
                range == all.subrange(lo as int, hi + 1),
                text::texts(sel.paths@) == with_texts(base, range.take(k - lo)),
                sel.focused == old(sel).focused,
                sel.anchor == old(sel).anchor,
            decreases hi + 1 - k,
        {
            assert(range.take(k + 1 - lo).drop_last() =~= range.take(k - lo));
            assert(range.take(k + 1 - lo).last() == items@[k as int].path@);
            add_text(&mut sel.paths, items[k].path.as_str());
            k = k + 1;
        }
        assert(range.take(range.len() as int) =~= range);
    } else if ctrl {
        if text::has_text(&sel.paths, path.as_str()) {
            sel.paths = drop_text(&sel.paths, path.as_str());
        } else {
            let ghost before = sel.paths@;
            sel.paths.push(path.clone());
            assert(text::texts(sel.paths@) =~= text::texts(before).push(path@));
        }
        sel.anchor = Some(path.clone());
    } else {
        sel.paths = only(path.as_str());
        sel.anchor = Some(path.clone());
    }
    sel.focused = Some(path);
}

/// The selection after a press on an empty place: nothing, unless Ctrl is held.
pub open spec fn pressed_blank(sel: SelectionView, ctrl: bool) -> SelectionView {
    if ctrl {
        sel
    } else {
        nothing_selected()
    }
}

/// Selects by a press on an empty place.
pub fn press_blank(sel: &mut Selection, ctrl: bool)
    ensures
        final(sel)@ == pressed_blank(old(sel)@, ctrl),
{
    if !ctrl {
        *sel = Selection::new();
    }
}

/// The paths of the items at `at`, those that there are.
pub open spec fn paths_at(items: Seq<Seq<char>>, at: Seq<usize>) -> Seq<Seq<char>>
    decreases at.len(),
{
    if at.len() == 0 {
        Seq::empty()
    } else {
        let r = paths_at(items, at.drop_last());
        if at.last() < items.len() {
            r.push(items[at.last() as int])
        } else {
            r
        }
    }
}

fn items_at(items: &Vec<FileItem>, at: &Vec<usize>) -> (r: Vec<String>)
    ensures
        text::texts(r@) == paths_at(model::paths_of(items@), at@),
{
    let ghost all = model::paths_of(items@);
    let mut out: Vec<String> = Vec::new();
    let mut i: usize = 0;
    assert(text::texts(out@) =~= paths_at(all, at@.take(0)));
    while i < at.len()
        invariant
            i <= at.len(),
            all == model::paths_of(items@),
            text::texts(out@) == paths_at(all, at@.take(i as int)),
        decreases at.len() - i,
    {
        let ghost before = out@;
        let k: usize = at[i];
        assert(at@.take(i + 1).drop_last() =~= at@.take(i as int));
        if k < items.len() {
            out.push(items[k].path.clone());
            assert(text::texts(out@) =~= text::texts(before).push(items@[k as int].path@));
        }
        i = i + 1;
    }
    assert(at@.take(at@.len() as int) =~= at@);
    out
}

/// The selection after a rectangle was drawn around the items at `hits`.
pub open spec fn marqueed(
    sel: SelectionView,
    items: Seq<Seq<char>>,
    hits: Seq<usize>,
    ctrl: bool,
) -> SelectionView {
    let paths = with_texts(
        if ctrl {
            sel.paths
        } else {
            Seq::empty()
        },
        paths_at(items, hits),
    );
    SelectionView {
        paths,
        focused: if paths.len() > 0 {
            Some(paths[0])
        } else {
            sel.focused
        },
        anchor: sel.anchor,
    }
}

/// Selects by a rectangle drawn around the items at `hits`.
pub fn select_in_marquee(sel: &mut Selection, items: &Vec<FileItem>, hits: &Vec<usize>, ctrl: bool)
    ensures
        final(sel)@ == marqueed(old(sel)@, model::paths_of(items@), hits@, ctrl),
{
    let more = items_at(items, hits);
    if !ctrl {
        sel.paths = Vec::new();
        assert(text::texts(sel.paths@) =~= Seq::empty());
    }
    add_texts(&mut sel.paths, &more);
    if sel.paths.len() > 0 {
        let first = sel.paths[0].clone();
        assert(text::texts(sel.paths@)[0] == first@);
        sel.focused = Some(first);
    }
}

/// The selection after a right click on the item `path`: it stays where it holds
/// the item, else the item alone is selected.
pub open spec fn right_clicked(sel: SelectionView, path: Seq<char>) -> SelectionView {
    SelectionView {
        paths: if sel.paths.contains(path) {
            sel.paths
        } else {
            seq![path]
        },
        focused: Some(path),
        anchor: Some(path),
    }
}

/// Selects by a right click, and gives the paths the menu is for: the whole
/// selection.
pub fn right_click_item(sel: &mut Selection, path: &str) -> (r: Vec<String>)
    ensures
        final(sel)@ == right_clicked(old(sel)@, path@),
        text::texts(r@) == (if final(sel)@.paths.len() > 1 {
            final(sel)@.paths
        } else {
            seq![path@]
        }),
{
    if !text::has_text(&sel.paths, path) {
        sel.paths = only(path);
    }
    sel.focused = Some(text::own(path));
    sel.anchor = Some(text::own(path));
    if sel.paths.len() > 1 {
        text::copy_texts(&sel.paths)
    } else {
        only(path)
    }
}

/// The four arrow keys.
#[derive(Clone, Copy, PartialEq, Eq, Structural)]
pub enum Arrow {
    Left,
    Right,
    Up,
    Down,
}

/// The item that an arrow key leads to from the one at `i` of `n`, in `cols` columns.
pub open spec fn arrow_target(arrow: Arrow, i: int, cols: int, n: int) -> int {
    match arrow {
        Arrow::Left => if i >= 1 {
            i - 1
        } else {
            0
        },
        Arrow::Right => grid::lesser(i + 1, n - 1),
        Arrow::Up => if i >= cols {
            i - cols
        } else {
            0
        },
        Arrow::Down => grid::lesser(i + cols, n - 1),
    }
}

/// The selection after an arrow key; `lay` is the layout of the items.
pub open spec fn stepped(
    sel: SelectionView,
    items: Seq<Seq<char>>,
    lay: Layout,
    arrow: Arrow,
    shift: bool,
) -> SelectionView {
    match sel.focused {
        None => sel,
        Some(f) => match text::first_index(items, f) {
            None => sel,
            Some(i) => {
                let to = arrow_target(arrow, i, lay.cols as int, items.len() as int);
                let path = items[to];
                if shift {
                    let from = range_start(sel, items, i);
                    SelectionView {
                        paths: with_texts(
                            Seq::empty(),
                            paths_at(
                                items,
                                grid::in_view(
                                    lay,
                                    grid::lesser(from, to),
                                    if from < to {
                                        to
                                    } else {
                                        from
                                    },
                                ),
                            ),
                        ),
                        focused: Some(path),
                        anchor: sel.anchor,
                    }
                } else {
                    SelectionView { paths: seq![path], focused: Some(path), anchor: Some(path) }
                }
            },
        },
    }
}

/// Moves the selection by an arrow key. False where no shown item has the focus.
pub fn step_selection(
    sel: &mut Selection,
    items: &Vec<FileItem>,
    lay: &Layout,
    arrow: Arrow,
    shift: bool,
) -> (r: bool)
    requires
        items.len() + lay.cols <= usize::MAX,
        lay.first_index + lay.visible <= usize::MAX,
    ensures
        final(sel)@ == stepped(old(sel)@, model::paths_of(items@), *lay, arrow, shift),
        r == (old(sel)@.focused is Some && text::first_index(
            model::paths_of(items@),
            old(sel)@.focused->0,
        ) is Some),
{
    let ghost all = model::paths_of(items@);
    let n: usize = items.len();
    let i: usize = match &sel.focused {
        None => {
            return false;
        },
        Some(f) => match item_position(items, f.as_str()) {
            None => {
                return false;
            },
            Some(i) => i,
        },
    };
    let to: usize = match arrow {
        Arrow::Left => if i >= 1 {
            i - 1
        } else {
            0
        },
        Arrow::Right => if i + 1 < n - 1 {
            i + 1
        } else {
            n - 1
        },
        Arrow::Up => if i >= lay.cols {
            i - lay.cols
        } else {
            0
        },
        Arrow::Down => if i + lay.cols < n - 1 {
            i + lay.cols
        } else {
            n - 1
        },
    };
    assert(to == arrow_target(arrow, i as int, lay.cols as int, n as int));
    let path = items[to].path.clone();
    if shift {
        let from: usize = start_of_range(sel, items, i);
        let at = grid::indices_between(lay, from, to, n);
        let more = items_at(items, &at);
        sel.paths = Vec::new();
        assert(text::texts(sel.paths@) =~= Seq::empty());
        add_texts(&mut sel.paths, &more);
    } else {
        sel.paths = only(path.as_str());
        sel.anchor = Some(path.clone());
    }
    sel.focused = Some(path);
    true
}

/// The selection of all items.
pub open spec fn all_selected(items: Seq<Seq<char>>) -> SelectionView {
    let first = if items.len() > 0 {
        Some(items[0])
    } else {
        None
    };
    SelectionView { paths: with_texts(Seq::empty(), items), focused: first, anchor: first }
}

/// Selects all items.
pub fn select_all(sel: &mut Selection, items: &Vec<FileItem>)
    ensures
        final(sel)@ == all_selected(model::paths_of(items@)),
{
    let all = item_paths(items);
    sel.paths = Vec::new();
    assert(text::texts(sel.paths@) =~= Seq::empty());
    add_texts(&mut sel.paths, &all);
    if items.len() > 0 {
        sel.focused = Some(items[0].path.clone());
        sel.anchor = Some(items[0].path.clone());
    } else {
        sel.focused = None;
        sel.anchor = None;
    }
}

/// A hit falls on the recycle bin's icon.
pub open spec fn on_bin(hit: Hit, items: Seq<Seq<char>>) -> bool {
    match hit {
        Hit::Icon(j) => j < items.len() && model::bin_path(items[j as int]),
        _ => false,
    }
}

/// Whether a hit falls on the recycle bin's icon.
pub fn over_bin(hit: Hit, items: &Vec<FileItem>) -> (r: bool)
    ensures
        r == on_bin(hit, model::paths_of(items@)),
{
    match hit {
        Hit::Icon(j) => j < items.len() && model::is_recycle_bin(items[j].path.as_str()),
        _ => false,
    }
}

// ---------------------------------------------------------------- laws

pub proof fn lemma_with_texts(s: Seq<Seq<char>>, more: Seq<Seq<char>>)
    ensures
        s.no_duplicates() ==> with_texts(s, more).no_duplicates(),
        forall|x: Seq<char>| #[trigger]
            with_texts(s, more).contains(x) <==> s.contains(x) || more.contains(x),
    decreases more.len(),
{
    if more.len() > 0 {
        let m = more.drop_last();
        lemma_with_texts(s, m);
        let w = with_texts(s, m);
        let out = with_texts(s, more);
        assert(more =~= m.push(more.last()));
        assert forall|x: Seq<char>| #[trigger] out.contains(x) <==> s.contains(x) || more.contains(
            x,
        ) by {
            lemma_push_contains(m, more.last(), x);
            lemma_push_contains(w, more.last(), x);
            assert(w.contains(x) <==> s.contains(x) || m.contains(x));
        }
    } else {
        assert forall|x: Seq<char>| #[trigger] with_texts(s, more).contains(x) <==> s.contains(x)
            || more.contains(x) by {}
    }
}

pub proof fn lemma_push_contains(s: Seq<Seq<char>>, y: Seq<char>, x: Seq<char>)
    ensures
        s.push(y).contains(x) <==> s.contains(x) || x == y,
{
    if s.contains(x) {
        let i = choose|i: int| 0 <= i < s.len() && s[i] == x;
        assert(s.push(y)[i] == x);
    }
    assert(s.push(y)[s.len() as int] == y);
}

pub proof fn lemma_without_text(s: Seq<Seq<char>>, x: Seq<char>)
    ensures
        s.no_duplicates() ==> without_text(s, x).no_duplicates(),
        forall|y: Seq<char>| #[trigger]
            without_text(s, x).contains(y) <==> s.contains(y) && y != x,
    decreases s.len(),
{
    if s.len() > 0 {
        let p = s.drop_last();
        lemma_without_text(p, x);
        assert(s =~= p.push(s.last()));
        let w = without_text(p, x);
        assert forall|y: Seq<char>| #[trigger] without_text(s, x).contains(y) <==> s.contains(y)
            && y != x by {
            lemma_push_contains(p, s.last(), y);
            lemma_push_contains(w, s.last(), y);
            assert(w.contains(y) <==> p.contains(y) && y != x);
        }
        if s.no_duplicates() {
            assert(p.no_duplicates());
            assert(!p.contains(s.last()));
            assert(!w.contains(s.last()));
        }
    }
}

/// Whatever the user does, no file is selected twice.
pub proof fn law_nothing_is_selected_twice(
    sel: SelectionView,
    items: Seq<Seq<char>>,
    i: int,
    hits: Seq<usize>,
    lay: Layout,
    arrow: Arrow,
    ctrl: bool,
    shift: bool,
)
    requires
        sel.paths.no_duplicates(),
        0 <= i < items.len(),
    ensures
        pressed(sel, items, i, ctrl, shift).paths.no_duplicates(),
        pressed_blank(sel, ctrl).paths.no_duplicates(),
        marqueed(sel, items, hits, ctrl).paths.no_duplicates(),
        right_clicked(sel, items[i]).paths.no_duplicates(),
        stepped(sel, items, lay, arrow, shift).paths.no_duplicates(),
        all_selected(items).paths.no_duplicates(),
{
    let base = if ctrl {
        sel.paths
    } else {
        Seq::empty()
    };
    lemma_with_texts(base, run(items, range_start(sel, items, i), i));
    lemma_without_text(sel.paths, items[i]);
    lemma_with_texts(base, paths_at(items, hits));
    lemma_with_texts(Seq::empty(), items);
    if let Some(f) = sel.focused {
        if let Some(k) = text::first_index(items, f) {
            let to = arrow_target(arrow, k, lay.cols as int, items.len() as int);
            let from = range_start(sel, items, k);
            lemma_with_texts(
                Seq::empty(),
                paths_at(
                    items,
                    grid::in_view(
                        lay,
                        grid::lesser(from, to),
                        if from < to {
                            to
                        } else {
                            from
                        },
                    ),
                ),
            );
        }
    }
}

/// Two presses with Ctrl on one item select what was selected before.
pub proof fn law_ctrl_press_twice_undoes_itself(
    sel: SelectionView,
    items: Seq<Seq<char>>,
    i: int,
    x: Seq<char>,
)
    requires
        sel.paths.no_duplicates(),
        0 <= i < items.len(),
    ensures
        pressed(pressed(sel, items, i, true, false), items, i, true, false).paths.contains(x)
            == sel.paths.contains(x),
{
    let once = pressed(sel, items, i, true, false).paths;
    lemma_without_text(sel.paths, items[i]);
    lemma_push_contains(sel.paths, items[i], items[i]);
    lemma_push_contains(once, items[i], x);
    lemma_push_contains(sel.paths, items[i], x);
    lemma_without_text(once, items[i]);
    assert(once.contains(x) || !once.contains(x));
    assert(without_text(sel.paths, items[i]).contains(x) <==> sel.paths.contains(x) && x
        != items[i]);
    assert(without_text(once, items[i]).contains(x) <==> once.contains(x) && x != items[i]);
    assert(without_text(sel.paths, items[i]).contains(items[i]) <==> false);
}

/// Every item is selected by selecting all.
pub proof fn law_select_all_selects_all(items: Seq<Seq<char>>, x: Seq<char>)
    ensures
        all_selected(items).paths.contains(x) == items.contains(x),
{
    lemma_with_texts(Seq::empty(), items);
    assert(with_texts(Seq::empty(), items).contains(x) || !with_texts(
        Seq::empty(),
        items,
    ).contains(x));
}

proof fn lemma_run_holds(items: Seq<Seq<char>>, a: int, b: int, x: Seq<char>)
    requires
        0 <= a < items.len(),
        0 <= b < items.len(),
    ensures
        run(items, a, b).contains(x) <==> exists|k: int|
            (a <= k <= b || b <= k <= a) && #[trigger] items[k] == x,
{
    let r = run(items, a, b);
    let lo = if a < b {
        a
    } else {
        b
    };
    if r.contains(x) {
        let j = choose|j: int| 0 <= j < r.len() && r[j] == x;
        assert(items[lo + j] == x);
    }
    if exists|k: int| (a <= k <= b || b <= k <= a) && #[trigger] items[k] == x {
        let k = choose|k: int| (a <= k <= b || b <= k <= a) && #[trigger] items[k] == x;
        assert(r[k - lo] == x);
    }
}

/// A press with Shift selects the items between the anchor and the pressed one, both
/// among them and whichever comes first, and with Ctrl what was selected before too.
/// The anchor stays.
pub proof fn law_shift_press_selects_the_range(
    sel: SelectionView,
    items: Seq<Seq<char>>,
    a: int,
    i: int,
    ctrl: bool,
    x: Seq<char>,
)
    requires
        0 <= a < items.len(),
        0 <= i < items.len(),
        sel.anchor == Some(items[a]),
        forall|j: int| 0 <= j < a ==> #[trigger] items[j] != items[a],
    ensures
        ({
            let s = pressed(sel, items, i, ctrl, true);
            &&& s.paths.contains(x) <==> (exists|k: int|
                (a <= k <= i || i <= k <= a) && #[trigger] items[k] == x) || (ctrl
                && sel.paths.contains(x))
            &&& s.paths.contains(items[a])
            &&& s.paths.contains(items[i])
            &&& s.focused == Some(items[i])
            &&& s.anchor == sel.anchor
        }),
{
    text::lemma_first_index_at(items, items[a], a);
    let base = if ctrl {
        sel.paths
    } else {
        Seq::empty()
    };
    let r = run(items, a, i);
    lemma_with_texts(base, r);
    lemma_run_holds(items, a, i, x);
    lemma_run_holds(items, a, i, items[a]);
    lemma_run_holds(items, a, i, items[i]);
    assert(with_texts(base, r).contains(x) <==> base.contains(x) || r.contains(x));
    assert(with_texts(base, r).contains(items[a]) <==> base.contains(items[a]) || r.contains(
        items[a],
    ));
    assert(with_texts(base, r).contains(items[i]) <==> base.contains(items[i]) || r.contains(
        items[i],
    ));
}

/// A range is the same from either end: pressing `i` with the anchor at `a` selects
/// what pressing `a` with the anchor at `i` does.
pub proof fn law_range_is_the_same_from_either_end(
    sel: SelectionView,
    other: SelectionView,
    items: Seq<Seq<char>>,
    a: int,
    i: int,
    ctrl: bool,
    x: Seq<char>,
)
    requires
        0 <= a < items.len(),
        0 <= i < items.len(),
        items.no_duplicates(),
        sel.anchor == Some(items[a]),
        other.anchor == Some(items[i]),
        sel.paths == other.paths,
    ensures
        pressed(sel, items, i, ctrl, true).paths.contains(x) == pressed(
            other,
            items,
            a,
            ctrl,
            true,
        ).paths.contains(x),
{
    law_shift_press_selects_the_range(sel, items, a, i, ctrl, x);
    law_shift_press_selects_the_range(other, items, i, a, ctrl, x);
}

/// Without an anchor that is shown, a press with Shift selects the pressed item, and
/// with Ctrl what was selected before too.
pub proof fn law_shift_press_without_anchor(
    sel: SelectionView,
    items: Seq<Seq<char>>,
    i: int,
    ctrl: bool,
    x: Seq<char>,
)
    requires
        0 <= i < items.len(),
        sel.anchor matches Some(a) ==> !items.contains(a),
    ensures
        pressed(sel, items, i, ctrl, true).paths.contains(x) <==> x == items[i] || (ctrl
            && sel.paths.contains(x)),
{
    if let Some(a) = sel.anchor {
        text::lemma_first_index(items, a);
    }
    let base = if ctrl {
        sel.paths
    } else {
        Seq::empty()
    };
    let r = run(items, i, i);
    assert(r =~= seq![items[i]]);
    assert(r.contains(x) <==> x == items[i]) by {
        assert(r[0] == items[i]);
    }
    lemma_with_texts(base, r);
    assert(with_texts(base, r).contains(x) <==> base.contains(x) || r.contains(x));
}

/// A press without Shift: with Ctrl the pressed item changes sides and every other
/// stays, else the pressed item alone is selected. It has the focus and is the anchor.
pub proof fn law_press_selects_the_item(
    sel: SelectionView,
    items: Seq<Seq<char>>,
    i: int,
    ctrl: bool,
    x: Seq<char>,
)
    requires
        0 <= i < items.len(),
    ensures
        ({
            let s = pressed(sel, items, i, ctrl, false);
            &&& s.paths.contains(x) <==> (if ctrl {
                sel.paths.contains(x) != (x == items[i])
            } else {
                x == items[i]
            })
            &&& s.focused == Some(items[i])
            &&& s.anchor == Some(items[i])
        }),
{
    let path = items[i];
    lemma_without_text(sel.paths, path);
    lemma_push_contains(sel.paths, path, x);
    assert(without_text(sel.paths, path).contains(x) <==> sel.paths.contains(x) && x != path);
    assert(seq![path].contains(x) <==> x == path) by {
        assert(seq![path][0] == path);
    }
}

proof fn lemma_paths_at(items: Seq<Seq<char>>, at: Seq<usize>, x: Seq<char>)
    ensures
        paths_at(items, at).contains(x) <==> exists|k: int|
            0 <= k < at.len() && #[trigger] at[k] < items.len() && items[at[k] as int] == x,
    decreases at.len(),
{
    if at.len() > 0 {
        let p = at.drop_last();
        let r = paths_at(items, p);
        lemma_paths_at(items, p, x);
        lemma_push_contains(r, items[at.last() as int], x);
        if r.contains(x) {
            let k = choose|k: int|
                0 <= k < p.len() && #[trigger] p[k] < items.len() && items[p[k] as int] == x;
            assert(at[k] == p[k]);
        }
        assert(at[at.len() - 1] == at.last());
        if exists|k: int|
            0 <= k < at.len() && #[trigger] at[k] < items.len() && items[at[k] as int] == x {
            let k = choose|k: int|
                0 <= k < at.len() && #[trigger] at[k] < items.len() && items[at[k] as int] == x;
            if k < p.len() {
                assert(p[k] == at[k]);
            }
        }
    }
}

/// A rectangle selects the items in it, and with Ctrl what was selected before too.
pub proof fn law_rectangle_selects_what_it_holds(
    sel: SelectionView,
    items: Seq<Seq<char>>,
    hits: Seq<usize>,
    ctrl: bool,
    x: Seq<char>,
)
    ensures
        ({
            let s = marqueed(sel, items, hits, ctrl);
            &&& s.paths.contains(x) <==> (exists|k: int|
                0 <= k < hits.len() && #[trigger] hits[k] < items.len() && items[hits[k] as int]
                    == x) || (ctrl && sel.paths.contains(x))
            &&& s.anchor == sel.anchor
            &&& s.paths.len() == 0 ==> s.focused == sel.focused
            &&& s.paths.len() > 0 ==> s.focused is Some && s.paths.contains(s.focused->0)
            &&& ctrl && sel.paths.len() > 0 ==> s.focused == Some(sel.paths[0])
        }),
{
    let base = if ctrl {
        sel.paths
    } else {
        Seq::empty()
    };
    let more = paths_at(items, hits);
    lemma_with_texts(base, more);
    lemma_paths_at(items, hits, x);
    lemma_with_texts_starts(base, more);
    let w = with_texts(base, more);
    assert(w.contains(x) <==> base.contains(x) || more.contains(x));
    if w.len() > 0 {
        assert(w.contains(w[0]));
    }
}

/// What is added to a list comes behind it.
pub proof fn lemma_with_texts_starts(s: Seq<Seq<char>>, more: Seq<Seq<char>>)
    ensures
        s.is_prefix_of(with_texts(s, more)),
    decreases more.len(),
{
    if more.len() > 0 {
        lemma_with_texts_starts(s, more.drop_last());
    }
}

/// A right click on a selected item leaves the selection, and on another one selects
/// that alone. The item has the focus and is the anchor.
pub proof fn law_right_click_keeps_a_selection(sel: SelectionView, path: Seq<char>, x: Seq<char>)
    ensures
        ({
            let s = right_clicked(sel, path);
            &&& s.paths.contains(x) <==> (if sel.paths.contains(path) {
                sel.paths.contains(x)
            } else {
                x == path
            })
            &&& s.focused == Some(path)
            &&& s.anchor == Some(path)
        }),
{
    assert(seq![path].contains(x) <==> x == path) by {
        assert(seq![path][0] == path);
    }
}

/// A press on an empty place selects nothing, and with Ctrl changes nothing.
pub proof fn law_press_on_nothing(sel: SelectionView, ctrl: bool, x: Seq<char>)
    ensures
        ctrl ==> pressed_blank(sel, ctrl) == sel,
        !ctrl ==> !pressed_blank(sel, ctrl).paths.contains(x) && pressed_blank(
            sel,
            ctrl,
        ).focused is None && pressed_blank(sel, ctrl).anchor is None,
{
}

/// What is chosen of a list are its entries that are selected, in the order of the
/// list.
pub proof fn law_chosen_are_filtered(list: Seq<Seq<char>>, chosen: Seq<Seq<char>>)
    ensures
        chosen_of(list, chosen) == list.filter(|x: Seq<char>| chosen.contains(x)),
    decreases list.len(),
{
    reveal(Seq::filter);
    if list.len() > 0 {
        law_chosen_are_filtered(list.drop_last(), chosen);
    } else {
        assert(chosen_of(list, chosen) =~= list.filter(|x: Seq<char>| chosen.contains(x)));
    }
}

/// An arrow key without Shift selects the item it leads to: the one before, the one
/// behind, or the one a row above or below, and the first or the last where there is
/// none.
pub proof fn law_arrow_leads_to_a_neighbour(
    sel: SelectionView,
    items: Seq<Seq<char>>,
    lay: Layout,
    arrow: Arrow,
    i: int,
    shift: bool,
)
    requires
        0 <= i < items.len(),
        sel.focused == Some(items[i]),
        forall|j: int| 0 <= j < i ==> #[trigger] items[j] != items[i],
    ensures
        ({
            let s = stepped(sel, items, lay, arrow, shift);
            let last = items.len() - 1;
            let to = match arrow {
                Arrow::Left => i - 1,
                Arrow::Right => i + 1,
                Arrow::Up => i - lay.cols,
                Arrow::Down => i + lay.cols,
            };
            &&& to < 0 ==> s.focused == Some(items[0])
            &&& 0 <= to <= last ==> s.focused == Some(items[to])
            &&& to > last ==> s.focused == Some(items[last])
            &&& !shift ==> s.paths == seq![s.focused->0] && s.anchor == s.focused
            &&& shift ==> s.anchor == sel.anchor
        }),
{
    text::lemma_first_index_at(items, items[i], i);
}

/// Entries that are added to a list come behind it, in their order.
pub proof fn law_added_texts_come_last(s: Seq<Seq<char>>, more: Seq<Seq<char>>)
    requires
        more.no_duplicates(),
        forall|i: int| 0 <= i < more.len() ==> !s.contains(#[trigger] more[i]),
    ensures
        with_texts(s, more) == s + more,
    decreases more.len(),
{
    if more.len() > 0 {
        let m = more.drop_last();
        assert forall|i: int| 0 <= i < m.len() implies !s.contains(#[trigger] m[i]) by {
            assert(m[i] == more[i]);
        }
        law_added_texts_come_last(s, m);
        lemma_with_texts(s, m);
        assert(!s.contains(more[more.len() - 1]));
        assert(!with_texts(s, m).contains(more.last())) by {
            if m.contains(more.last()) {
                let i = choose|i: int| 0 <= i < m.len() && m[i] == more.last();
                assert(more[i] == more[more.len() - 1]);
            }
        }
        assert((s + m).push(more.last()) =~= s + more);
    } else {
        assert(s + more =~= s);
    }
}

/// What is taken out of a list is out of it, and the others stay in their order.
pub proof fn law_dropped_text_is_gone(s: Seq<Seq<char>>, x: Seq<char>)
    ensures
        without_text(s, x) == s.filter(|y: Seq<char>| y != x),
    decreases s.len(),
{
    reveal(Seq::filter);
    if s.len() > 0 {
        law_dropped_text_is_gone(s.drop_last(), x);
    } else {
        assert(without_text(s, x) =~= s.filter(|y: Seq<char>| y != x));
    }
}

/// A range is listed in the order in which the items stand, wherever the anchor is.
pub proof fn law_range_is_in_order(
    sel: SelectionView,
    items: Seq<Seq<char>>,
    a: int,
    i: int,
)
    requires
        0 <= a < items.len(),
        0 <= i < items.len(),
        items.no_duplicates(),
        sel.anchor == Some(items[a]),
    ensures
        a <= i ==> pressed(sel, items, i, false, true).paths == items.subrange(a, i + 1),
        i <= a ==> pressed(sel, items, i, false, true).paths == items.subrange(i, a + 1),
{
    text::lemma_first_index_at(items, items[a], a);
    let r = run(items, a, i);
    let none = Seq::<Seq<char>>::empty();
    law_added_texts_come_last(none, r);
    assert(none + r =~= r);
}

/// An arrow key with Shift selects the items in view between the anchor and the item it
/// leads to, both ends among them.
pub proof fn law_arrow_with_shift_selects_the_range(
    sel: SelectionView,
    items: Seq<Seq<char>>,
    lay: Layout,
    arrow: Arrow,
    a: int,
    i: int,
    x: Seq<char>,
)
    requires
        items.no_duplicates(),
        items.len() <= usize::MAX,
        lay.first_index + lay.visible <= usize::MAX,
        0 <= a < items.len(),
        0 <= i < items.len(),
        sel.anchor == Some(items[a]),
        sel.focused == Some(items[i]),
    ensures
        ({
            let s = stepped(sel, items, lay, arrow, true);
            let to = match arrow {
                Arrow::Left => i - 1,
                Arrow::Right => i + 1,
                Arrow::Up => i - lay.cols,
                Arrow::Down => i + lay.cols,
            };
            let end = if to < 0 {
                0
            } else if to < items.len() {
                to
            } else {
                items.len() - 1
            };
            s.paths.contains(x) <==> exists|k: int|
                (a <= k <= end || end <= k <= a) && lay.first_index <= k < lay.first_index
                    + lay.visible && #[trigger] items[k] == x
        }),
{
    text::lemma_first_index_at(items, items[a], a);
    text::lemma_first_index_at(items, items[i], i);
    let n = items.len() as int;
    let end = arrow_target(arrow, i, lay.cols as int, n);
    let (lo, hi) = if a < end {
        (a, end)
    } else {
        (end, a)
    };
    let at = grid::in_view(lay, lo, hi);
    let none = Seq::<Seq<char>>::empty();
    lemma_with_texts(none, paths_at(items, at));
    lemma_paths_at(items, at, x);
    assert(with_texts(none, paths_at(items, at)).contains(x) <==> none.contains(x) || paths_at(
        items,
        at,
    ).contains(x));
    if exists|k: int| 0 <= k < at.len() && #[trigger] at[k] < items.len() && items[at[k] as int]
        == x {
        let k = choose|k: int|
            0 <= k < at.len() && #[trigger] at[k] < items.len() && items[at[k] as int] == x;
        grid::law_in_view_are_the_shown(lay, lo, hi, at[k]);
        assert(at.contains(at[k]));
        assert(items[at[k] as int] == x);
    }
    if exists|k: int|
        (a <= k <= end || end <= k <= a) && lay.first_index <= k < lay.first_index + lay.visible
            && #[trigger] items[k] == x {
        let k = choose|k: int|
            (a <= k <= end || end <= k <= a) && lay.first_index <= k < lay.first_index + lay.visible
                && #[trigger] items[k] == x;
        grid::law_in_view_are_the_shown(lay, lo, hi, k as usize);
        let m = choose|m: int| 0 <= m < at.len() && at[m] == k as usize;
        assert(at[m] < items.len() && items[at[m] as int] == x);
    }
}

/// Without a focus that is shown, an arrow key changes nothing.
pub proof fn law_arrow_without_focus(
    sel: SelectionView,
    items: Seq<Seq<char>>,
    lay: Layout,
    arrow: Arrow,
    shift: bool,
)
    requires
        sel.focused matches Some(f) ==> !items.contains(f),
    ensures
        stepped(sel, items, lay, arrow, shift) == sel,
{
    if let Some(f) = sel.focused {
        text::lemma_first_index(items, f);
    }
}

/// Selecting all selects every item, in the order of the fence; the first has the focus
/// and is the anchor.
pub proof fn law_all_are_selected_in_order(items: Seq<Seq<char>>)
    requires
        items.no_duplicates(),
    ensures
        all_selected(items).paths == items,
        items.len() > 0 ==> all_selected(items).focused == Some(items[0])
            && all_selected(items).anchor == Some(items[0]),
        items.len() == 0 ==> all_selected(items).focused is None && all_selected(items).anchor is None,
{
    law_added_texts_come_last(Seq::empty(), items);
    assert(Seq::<Seq<char>>::empty() + items =~= items);
}

/// The recycle bin is hit where the item that is hit is the recycle bin.
pub proof fn law_bin_is_an_item(hit: Hit, items: Seq<Seq<char>>)
    ensures
        on_bin(hit, items) <==> (hit matches Hit::Icon(i) && i < items.len() && items[i as int]
            == "::{645FF040-5081-101B-9F08-00AA002F954E}"@),
{
}

/// A press with Ctrl puts an item that was not selected behind the others, and leaves the
/// others in their order where it was.
pub proof fn law_ctrl_press_keeps_the_order(
    sel: SelectionView,
    items: Seq<Seq<char>>,
    i: int,
    x: Seq<char>,
)
    requires
        0 <= i < items.len(),
        items[i] == x,
    ensures
        !sel.paths.contains(x) ==> pressed(sel, items, i, true, false).paths == sel.paths.push(x),
        sel.paths.contains(x) ==> pressed(sel, items, i, true, false).paths == sel.paths.filter(
            |y: Seq<char>| y != x,
        ),
{
    law_dropped_text_is_gone(sel.paths, x);
}

/// A rectangle selects its items in the order in which they are hit, and the first of them
/// has the focus.
pub proof fn law_rectangle_keeps_the_order(
    sel: SelectionView,
    items: Seq<Seq<char>>,
    hits: Seq<usize>,
)
    requires
        items.no_duplicates(),
        hits.no_duplicates(),
        forall|k: int| 0 <= k < hits.len() ==> #[trigger] hits[k] < items.len(),
    ensures
        ({
            let s = marqueed(sel, items, hits, false);
            &&& s.paths == Seq::new(hits.len(), |k: int| items[hits[k] as int])
            &&& hits.len() > 0 ==> s.focused == Some(items[hits[0] as int])
            &&& hits.len() == 0 ==> s.focused == sel.focused
        }),
{
    let want = Seq::new(hits.len(), |k: int| items[hits[k] as int]);
    lemma_all_paths_at(items, hits);
    assert(want.no_duplicates()) by {
        assert forall|i: int, j: int| 0 <= i < j < want.len() implies want[i] != want[j] by {
            assert(hits[i] != hits[j]);
        }
    }
    law_added_texts_come_last(Seq::empty(), want);
    assert(Seq::<Seq<char>>::empty() + want =~= want);
}

proof fn lemma_all_paths_at(items: Seq<Seq<char>>, at: Seq<usize>)
    requires
        forall|k: int| 0 <= k < at.len() ==> #[trigger] at[k] < items.len(),
    ensures
        paths_at(items, at) == Seq::new(at.len(), |k: int| items[at[k] as int]),
    decreases at.len(),
{
    let want = Seq::new(at.len(), |k: int| items[at[k] as int]);
    if at.len() > 0 {
        let h = at.drop_last();
        assert forall|k: int| 0 <= k < h.len() implies #[trigger] h[k] < items.len() by {
            assert(h[k] == at[k]);
        }
        lemma_all_paths_at(items, h);
        assert(at[at.len() - 1] < items.len());
        assert(paths_at(items, at) =~= want);
    } else {
        assert(paths_at(items, at) =~= want);
    }
}

} // verus!

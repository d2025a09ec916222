//! The place of the fences among the windows of the desktop: above the window that
//! carries the wallpaper, below every other window.
use crate::text;
use vstd::prelude::*;

verus! {

/// A window above the desktop's own window.
#[derive(Clone, Copy, PartialEq, Eq, Structural, Debug)]
pub struct AnchorWindow {
    pub handle: isize,
    /// A fence.
    pub own: bool,
    /// Not seen: hidden, minimised, off the screen, tiny or cloaked.
    pub invisible: bool,
    /// A helper window, which may stand among the fences.
    pub auxiliary: bool,
    pub topmost: bool,
    /// Placing a window below it was refused lately.
    pub bad: bool,
}

impl Default for AnchorWindow {
    fn default() -> (r: Self)
        ensures
            r == (AnchorWindow {
                handle: 0,
                own: false,
                invisible: false,
                auxiliary: false,
                topmost: false,
                bad: false,
            }),
    {
        AnchorWindow {
            handle: 0,
            own: false,
            invisible: false,
            auxiliary: false,
            topmost: false,
            bad: false,
        }
    }
}

/// The search ends at the desktop's own window and at a topmost window.
pub open spec fn is_wall(w: AnchorWindow, host: isize) -> bool {
    w.handle == 0 || w.handle == host || w.topmost
}

/// A window that is seen and neither a fence nor a helper.
pub open spec fn is_foreign(w: AnchorWindow, skip: isize) -> bool {
    w.handle != skip && !w.own && !w.invisible && !w.auxiliary
}

/// A window that is not seen, or a helper, below which a fence can be placed.
pub open spec fn is_padding(w: AnchorWindow, skip: isize) -> bool {
    w.handle != skip && !w.own && (w.invisible || w.auxiliary) && !w.bad
}

/// Another fence below which a fence can be placed.
pub open spec fn is_sibling(w: AnchorWindow, skip: isize) -> bool {
    w.handle != skip && w.own && !w.bad
}

/// How far the search goes: up to the first wall or the first foreign window.
pub open spec fn search_end(host: isize, skip: isize, ws: Seq<AnchorWindow>) -> int
    decreases ws.len(),
{
    if ws.len() == 0 || is_wall(ws[0], host) || is_foreign(ws[0], skip) {
        0
    } else {
        1 + search_end(host, skip, ws.drop_first())
    }
}

/// The highest padding.
pub open spec fn last_padding(skip: isize, ws: Seq<AnchorWindow>) -> Option<isize>
    decreases ws.len(),
{
    if ws.len() == 0 {
        None
    } else if is_padding(ws.last(), skip) {
        Some(ws.last().handle)
    } else {
        last_padding(skip, ws.drop_last())
    }
}

/// The lowest sibling.
pub open spec fn first_sibling(skip: isize, ws: Seq<AnchorWindow>) -> Option<isize>
    decreases ws.len(),
{
    if ws.len() == 0 {
        None
    } else {
        match first_sibling(skip, ws.drop_last()) {
            Some(h) => Some(h),
            None => if is_sibling(ws.last(), skip) {
                Some(ws.last().handle)
            } else {
                None
            },
        }
    }
}

/// The window below which a fence is placed: the first foreign window, unless a
/// wall comes before it or it refuses; else the highest padding, else the lowest
/// sibling, before that point.
pub open spec fn band_anchor(host: isize, skip: isize, ws: Seq<AnchorWindow>) -> Option<isize> {
    let n = search_end(host, skip, ws);
    if n < ws.len() && !is_wall(ws[n], host) && !ws[n].bad {
        Some(ws[n].handle)
    } else {
        match last_padding(skip, ws.take(n)) {
            Some(h) => Some(h),
            None => first_sibling(skip, ws.take(n)),
        }
    }
}

/// The end of the search is where the windows say it is.
pub proof fn lemma_search_end(host: isize, skip: isize, ws: Seq<AnchorWindow>)
    ensures
        0 <= search_end(host, skip, ws) <= ws.len(),
        forall|i: int|
            0 <= i < search_end(host, skip, ws) ==> !is_wall(#[trigger] ws[i], host) && !is_foreign(
                ws[i],
                skip,
            ),
        search_end(host, skip, ws) < ws.len() ==> is_wall(
            ws[search_end(host, skip, ws)],
            host,
        ) || is_foreign(ws[search_end(host, skip, ws)], skip),
    decreases ws.len(),
{
    if ws.len() > 0 && !is_wall(ws[0], host) && !is_foreign(ws[0], skip) {
        let t = ws.drop_first();
        lemma_search_end(host, skip, t);
        assert forall|i: int| 0 <= i < search_end(host, skip, ws) implies !is_wall(
            #[trigger] ws[i],
            host,
        ) && !is_foreign(ws[i], skip) by {
            if i > 0 {
                assert(t[i - 1] == ws[i]);
            }
        }
    }
}

proof fn lemma_search_end_is(host: isize, skip: isize, ws: Seq<AnchorWindow>, n: int)
    requires
        0 <= n <= ws.len(),
        forall|i: int|
            0 <= i < n ==> !is_wall(#[trigger] ws[i], host) && !is_foreign(ws[i], skip),
        n == ws.len() || is_wall(ws[n], host) || is_foreign(ws[n], skip),
    ensures
        search_end(host, skip, ws) == n,
{
    lemma_search_end(host, skip, ws);
    let k = search_end(host, skip, ws);
    if k < n {
        assert(!is_wall(ws[k], host));
    } else if k > n {
        assert(!is_wall(ws[n], host));
    }
}

/// The window below which a fence is placed. `windows` are those above the
/// desktop's own window `host`, from the lowest up; `skip` is the fence itself.
pub fn resolve_band_anchor(host: isize, skip: isize, windows: &Vec<AnchorWindow>) -> (r: Option<
    isize,
>)
    ensures
        r == band_anchor(host, skip, windows@),
{
    let mut padding: Option<isize> = None;
    let mut sibling: Option<isize> = None;
    let mut i: usize = 0;
    while i < windows.len()
        invariant
            i <= windows.len(),
            forall|k: int|
                0 <= k < i ==> !is_wall(#[trigger] windows@[k], host) && !is_foreign(
                    windows@[k],
                    skip,
                ),
            padding == last_padding(skip, windows@.take(i as int)),
            sibling == first_sibling(skip, windows@.take(i as int)),
        decreases windows.len() - i,
    {
        let w = windows[i];
        proof {
            let t = windows@.take(i + 1);
            assert(t.drop_last() =~= windows@.take(i as int));
            assert(t.last() == w);
        }
        if w.handle == 0 || w.handle == host || w.topmost {
            proof {
                lemma_search_end_is(host, skip, windows@, i as int);
            }
            return if padding.is_some() {
                padding
            } else {
                sibling
            };
        }
        if w.handle != skip {
            if w.own {
                if !w.bad && sibling.is_none() {
                    sibling = Some(w.handle);
                }
            } else if w.invisible || w.auxiliary {
                if !w.bad {
                    padding = Some(w.handle);
                }
            } else {
                proof {
                    lemma_search_end_is(host, skip, windows@, i as int);
                }
                if !w.bad {
                    return Some(w.handle);
                }
                return if padding.is_some() {
                    padding
                } else {
                    sibling
                };
            }
        }
        i = i + 1;
    }
    proof {
        lemma_search_end_is(host, skip, windows@, windows@.len() as int);
    }
    if padding.is_some() {
        padding
    } else {
        sibling
    }
}

proof fn lemma_last_padding(skip: isize, ws: Seq<AnchorWindow>)
    ensures
        last_padding(skip, ws) matches Some(h) ==> exists|i: int|
            0 <= i < ws.len() && is_padding(#[trigger] ws[i], skip) && ws[i].handle == h,
    decreases ws.len(),
{
    if ws.len() > 0 {
        if is_padding(ws.last(), skip) {
            assert(is_padding(ws[ws.len() - 1], skip));
        } else {
            lemma_last_padding(skip, ws.drop_last());
            if let Some(h) = last_padding(skip, ws.drop_last()) {
                let i = choose|i: int|
                    0 <= i < ws.len() - 1 && is_padding(#[trigger] ws.drop_last()[i], skip)
                        && ws.drop_last()[i].handle == h;
                assert(is_padding(ws[i], skip));
            }
        }
    }
}

proof fn lemma_first_sibling(skip: isize, ws: Seq<AnchorWindow>)
    ensures
        first_sibling(skip, ws) matches Some(h) ==> exists|i: int|
            0 <= i < ws.len() && is_sibling(#[trigger] ws[i], skip) && ws[i].handle == h,
    decreases ws.len(),
{
    if ws.len() > 0 {
        lemma_first_sibling(skip, ws.drop_last());
        if let Some(h) = first_sibling(skip, ws.drop_last()) {
            let i = choose|i: int|
                0 <= i < ws.len() - 1 && is_sibling(#[trigger] ws.drop_last()[i], skip)
                    && ws.drop_last()[i].handle == h;
            assert(is_sibling(ws[i], skip));
        } else if is_sibling(ws.last(), skip) {
            assert(is_sibling(ws[ws.len() - 1], skip));
        }
    }
}

/// A fence is never placed below the desktop's own window, itself, a topmost
/// window or one that refuses, nor above the first foreign window.
pub proof fn law_anchor_is_safe(host: isize, skip: isize, ws: Seq<AnchorWindow>, h: isize)
    requires
        band_anchor(host, skip, ws) == Some(h),
    ensures
        h != 0,
        h != host,
        h != skip,
        exists|i: int|
            0 <= i < ws.len() && i <= search_end(host, skip, ws) && (#[trigger] ws[i]).handle == h
                && !ws[i].topmost && !ws[i].bad,
        forall|j: int|
            0 <= j < search_end(host, skip, ws) ==> !is_foreign(#[trigger] ws[j], skip),
{
    let n = search_end(host, skip, ws);
    lemma_search_end(host, skip, ws);
    if n < ws.len() && !is_wall(ws[n], host) && !ws[n].bad {
        assert(ws[n].handle == h);
    } else {
        let t = ws.take(n);
        lemma_last_padding(skip, t);
        lemma_first_sibling(skip, t);
        match last_padding(skip, t) {
            Some(p) => {
                let i = choose|i: int|
                    0 <= i < t.len() && is_padding(#[trigger] t[i], skip) && t[i].handle == p;
                assert(ws[i] == t[i]);
                assert(!is_wall(ws[i], host));
            },
            None => {
                let i = choose|i: int|
                    0 <= i < t.len() && is_sibling(#[trigger] t[i], skip) && t[i].handle == h;
                assert(ws[i] == t[i]);
                assert(!is_wall(ws[i], host));
            },
        }
    }
}

/// Where a window refuses, the next choice is not above it.
pub proof fn law_refusal_never_raises_a_fence(
    host: isize,
    skip: isize,
    ws: Seq<AnchorWindow>,
    k: int,
)
    requires
        0 <= k < ws.len(),
    ensures
        search_end(host, skip, ws.update(k, AnchorWindow { bad: true, ..ws[k] })) == search_end(
            host,
            skip,
            ws,
        ),
{
    let v = ws.update(k, AnchorWindow { bad: true, ..ws[k] });
    let n = search_end(host, skip, ws);
    lemma_search_end(host, skip, ws);
    assert forall|i: int| 0 <= i < n implies !is_wall(#[trigger] v[i], host) && !is_foreign(
        v[i],
        skip,
    ) by {
        assert(!is_wall(ws[i], host) && !is_foreign(ws[i], skip));
    }
    lemma_search_end_is(host, skip, v, n);
}

// ---------------------------------------------------------------- refusals

/// How long a refusal is remembered, in milliseconds.
pub const BAD_ANCHOR_TTL_MS: u64 = 60_000;

/// The windows that refused, and when.
pub struct BadAnchors {
    pub entries: Vec<(isize, u64)>,
}

/// A refusal at `then` still counts at `now`.
pub open spec fn counts(then: u64, now: u64) -> bool {
    now - then < BAD_ANCHOR_TTL_MS
}

fn still_counts(then: u64, now: u64) -> (r: bool)
    ensures
        r == counts(then, now),
{
    now < then || now - then < BAD_ANCHOR_TTL_MS
}

/// The refusals that count at `now`, without those of `h`.
pub open spec fn others(e: Seq<(isize, u64)>, h: isize, now: u64) -> Seq<(isize, u64)>
    decreases e.len(),
{
    if e.len() == 0 {
        Seq::empty()
    } else {
        let r = others(e.drop_last(), h, now);
        if counts(e.last().1, now) && e.last().0 != h {
            r.push(e.last())
        } else {
            r
        }
    }
}

/// `h` refused within the time that is remembered.
pub open spec fn refused(e: Seq<(isize, u64)>, h: isize, now: u64) -> bool {
    exists|i: int| 0 <= i < e.len() && (#[trigger] e[i]).0 == h && counts(e[i].1, now)
}

/// Forgets the refusals of `h`, and those of long ago.
pub fn bad_anchor_clear(bad: &mut BadAnchors, h: isize, now: u64)
    ensures
        final(bad).entries@ == others(old(bad).entries@, h, now),
{
    let ghost e = bad.entries@;
    let mut out: Vec<(isize, u64)> = Vec::new();
    let mut i: usize = 0;
    assert(out@ =~= others(e.take(0), h, now));
    while i < bad.entries.len()
        invariant
            i <= bad.entries.len(),
            bad.entries@ == e,
            out@ == others(e.take(i as int), h, now),
        decreases bad.entries.len() - i,
    {
        let x = bad.entries[i];
        assert(e.take(i + 1).drop_last() =~= e.take(i as int));
        assert(e.take(i + 1).last() == x);
        if still_counts(x.1, now) && x.0 != h {
            out.push(x);
        }
        i = i + 1;
    }
    assert(e.take(e.len() as int) =~= e);
    bad.entries = out;
}

/// Remembers that `h` refused at `now`.
pub fn bad_anchor_mark(bad: &mut BadAnchors, h: isize, now: u64)
    ensures
        final(bad).entries@ == others(old(bad).entries@, h, now).push((h, now)),
{
    bad_anchor_clear(bad, h, now);
    bad.entries.push((h, now));
}

/// Whether `h` refused lately.
pub fn bad_anchor_recent(bad: &BadAnchors, h: isize, now: u64) -> (r: bool)
    ensures
        r == refused(bad.entries@, h, now),
{
    let mut i: usize = 0;
    while i < bad.entries.len()
        invariant
            i <= bad.entries.len(),
            forall|k: int|
                0 <= k < i ==> (#[trigger] bad.entries@[k]).0 != h || !counts(
                    bad.entries@[k].1,
                    now,
                ),
        decreases bad.entries.len() - i,
    {
        if bad.entries[i].0 == h && still_counts(bad.entries[i].1, now) {
            assert(bad.entries@[i as int].0 == h);
            return true;
        }
        i = i + 1;
    }
    false
}

proof fn lemma_others(e: Seq<(isize, u64)>, h: isize, now: u64)
    ensures
        forall|i: int|
            0 <= i < others(e, h, now).len() ==> (#[trigger] others(e, h, now)[i]).0 != h
                && e.contains(others(e, h, now)[i]),
        forall|i: int|
            0 <= i < e.len() && counts((#[trigger] e[i]).1, now) && e[i].0 != h ==> others(
                e,
                h,
                now,
            ).contains(e[i]),
    decreases e.len(),
{
    if e.len() > 0 {
        let p = e.drop_last();
        lemma_others(p, h, now);
        let (was, out) = (others(p, h, now), others(e, h, now));
        assert forall|i: int| 0 <= i < out.len() implies (#[trigger] out[i]).0 != h && e.contains(
            out[i],
        ) by {
            if i < was.len() {
                assert(out[i] == was[i]);
                let j = choose|j: int| 0 <= j < p.len() && p[j] == was[i];
                assert(e[j] == out[i]);
            } else {
                assert(e[e.len() - 1] == out[i]);
            }
        }
        assert forall|i: int|
            0 <= i < e.len() && counts((#[trigger] e[i]).1, now) && e[i].0 != h implies out.contains(
            e[i],
        ) by {
            if i < p.len() {
                assert(p[i] == e[i]);
                let j = choose|j: int| 0 <= j < was.len() && was[j] == e[i];
                assert(out[j] == e[i]);
            } else {
                assert(out[out.len() - 1] == e[i]);
            }
        }
    }
}

/// A refusal is remembered for its time and no longer; forgetting it takes effect
/// at once; and neither touches what is remembered of other windows.
pub proof fn law_refusals_expire(e: Seq<(isize, u64)>, h: isize, other: isize, now: u64, later: u64)
    requires
        now <= later,
        h != other,
    ensures
        refused(others(e, h, now).push((h, now)), h, later) <==> later - now < BAD_ANCHOR_TTL_MS,
        !refused(others(e, h, now), h, later),
        refused(others(e, h, now), other, later) <==> refused(e, other, later),
{
    lemma_others(e, h, now);
    let o = others(e, h, now);
    let m = o.push((h, now));
    if later - now < BAD_ANCHOR_TTL_MS {
        assert(m[o.len() as int].0 == h);
    }
    if refused(m, h, later) {
        let i = choose|i: int| 0 <= i < m.len() && (#[trigger] m[i]).0 == h && counts(
            m[i].1,
            later,
        );
        if i < o.len() {
            assert(o[i] == m[i]);
        }
    }
    if refused(o, other, later) {
        let i = choose|i: int| 0 <= i < o.len() && (#[trigger] o[i]).0 == other && counts(
            o[i].1,
            later,
        );
        let j = choose|j: int| 0 <= j < e.len() && e[j] == o[i];
        assert(e[j].0 == other);
    }
    if refused(e, other, later) {
        let i = choose|i: int| 0 <= i < e.len() && (#[trigger] e[i]).0 == other && counts(
            e[i].1,
            later,
        );
        assert(counts(e[i].1, now));
        let j = choose|j: int| 0 <= j < o.len() && o[j] == e[i];
        assert(o[j].0 == other);
    }
}

// ---------------------------------------------------------------- raising a dragged fence

/// How many windows are looked at when a dragged fence is raised.
pub const ELEVATE_STEPS: usize = 64;

/// The highest of the fences that stand together above the desktop's own window,
/// `dragged` apart. A window is its handle and whether it is a fence.
pub open spec fn top_sibling(dragged: isize, ws: Seq<(isize, bool)>, best: Option<isize>) -> Option<
    isize,
>
    decreases ws.len(),
{
    if ws.len() == 0 || ws[0].0 == 0 {
        best
    } else if ws[0].0 == dragged {
        top_sibling(dragged, ws.drop_first(), best)
    } else if !ws[0].1 {
        best
    } else {
        top_sibling(dragged, ws.drop_first(), Some(ws[0].0))
    }
}

/// The first `n` of a list.
pub open spec fn at_most(ws: Seq<(isize, bool)>, n: int) -> Seq<(isize, bool)> {
    if ws.len() <= n {
        ws
    } else {
        ws.take(n)
    }
}

/// The window below which a dragged fence is placed so that it covers the other
/// fences and no other window; none where no other fence stands there.
pub fn drag_elevate_anchor(dragged: isize, windows: &Vec<(isize, bool)>) -> (r: Option<isize>)
    ensures
        r == top_sibling(dragged, at_most(windows@, ELEVATE_STEPS as int), None),
{
    let n: usize = if windows.len() < ELEVATE_STEPS {
        windows.len()
    } else {
        ELEVATE_STEPS
    };
    let ghost ws = at_most(windows@, ELEVATE_STEPS as int);
    let mut best: Option<isize> = None;
    let mut i: usize = 0;
    assert(ws.skip(0) =~= ws);
    while i < n
        invariant
            i <= n == ws.len(),
            n <= windows.len(),
            ws == at_most(windows@, ELEVATE_STEPS as int),
            forall|k: int| 0 <= k < n ==> #[trigger] ws[k] == windows@[k],
            top_sibling(dragged, ws, None) == top_sibling(dragged, ws.skip(i as int), best),
        decreases n - i,
    {
        let w = windows[i];
        proof {
            let t = ws.skip(i as int);
            assert(t[0] == w);
            assert(t.drop_first() =~= ws.skip(i + 1));
        }
        if w.0 == 0 {
            return best;
        }
        if w.0 != dragged {
            if !w.1 {
                return best;
            }
            best = Some(w.0);
        }
        i = i + 1;
    }
    best
}

// ---------------------------------------------------------------- what a window is

/// A rectangle of whole pixels by its sides.
#[derive(Clone, Copy, PartialEq, Eq, Structural, Debug)]
pub struct Sides {
    pub left: i32,
    pub top: i32,
    pub right: i32,
    pub bottom: i32,
}

/// The rectangle that all screens together take.
#[derive(Clone, Copy, PartialEq, Eq, Structural, Debug)]
pub struct VirtualScreen {
    pub x: i32,
    pub y: i32,
    pub w: i32,
    pub h: i32,
}

/// A rectangle is tiny or off the screen.
pub open spec fn unseen_rect(r: Sides, vs: VirtualScreen) -> bool {
    ||| r.right - r.left <= 2
    ||| r.bottom - r.top <= 2
    ||| r.right <= vs.x
    ||| r.bottom <= vs.y
    ||| r.left >= vs.x + vs.w
    ||| r.top >= vs.y + vs.h
}

/// Whether a window is not seen. `rect` is where it stands, if that is known.
pub fn band_invisible(
    rect: Option<Sides>,
    iconic: bool,
    visible: bool,
    cloaked: bool,
    vs: VirtualScreen,
) -> (r: bool)
    ensures
        r == (iconic || !visible || cloaked || match rect {
            None => true,
            Some(s) => unseen_rect(s, vs),
        }),
{
    match rect {
        None => true,
        Some(s) => iconic || !visible || s.right as i64 - s.left as i64 <= 2 || s.bottom as i64
            - s.top as i64 <= 2 || s.right <= vs.x || s.bottom <= vs.y || s.left as i64 >= vs.x as i64
            + vs.w as i64 || s.top as i64 >= vs.y as i64 + vs.h as i64 || cloaked,
    }
}

/// The class name of a menu.
pub const MENU_CLASS: &'static str = "#32768";

/// The class name of the task bar.
pub const TRAY_CLASS: &'static str = "Shell_TrayWnd";

/// The class name of the touch strip at the edge of a screen.
pub const EDGEUI_CLASS: &'static str = "EdgeUiInputTopWndClass";

/// The class name of the candidates of an input method.
pub const MSCTFIME_CLASS: &'static str = "MSCTFIME UI";

/// The class name of the host of the input method of a thread.
pub const DEFAULT_IME_CLASS: &'static str = "Default IME";

/// The class name of any other input method.
pub const GENERIC_IME_CLASS: &'static str = "IME";

/// The class name of the frame of an input method of another maker.
pub const SOIME_TSF_CLASS: &'static str = "SoImeBS_TSF_UI";

/// The class name of the status of that input method.
pub const SOBS_UI_CLASS: &'static str = "SoBS_UI";

/// The class name of a hint of that input method.
pub const SOBS_HINT_CLASS: &'static str = "SoBS_Hint";

/// The class name of the panel of the categories.
pub const CATS_PANEL_CLASS: &'static str = "DeskFenceCatsPanel";

/// The class name of a fence.
pub const FENCE_CLASS: &'static str = "DeskFenceFence";

/// The class names of the helper windows that may stand among the fences: menus,
/// the task bar, touch and input helpers, and the panel of the categories.
pub open spec fn helper_class(name: Seq<char>) -> bool {
    ||| name == MENU_CLASS@
    ||| name == TRAY_CLASS@
    ||| name == EDGEUI_CLASS@
    ||| name == MSCTFIME_CLASS@
    ||| name == DEFAULT_IME_CLASS@
    ||| name == GENERIC_IME_CLASS@
    ||| name == SOIME_TSF_CLASS@
    ||| name == SOBS_UI_CLASS@
    ||| name == SOBS_HINT_CLASS@
    ||| name == CATS_PANEL_CLASS@
}

/// Whether a window is a helper: the program's own menu or tray window, or one of
/// a known class.
pub fn band_aux(own_helper: bool, class_name: &str) -> (r: bool)
    ensures
        r == (own_helper || helper_class(class_name@)),
{
    own_helper || text::same(class_name, MENU_CLASS)
        || text::same(class_name, TRAY_CLASS)
        || text::same(class_name, EDGEUI_CLASS)
        || text::same(class_name, MSCTFIME_CLASS)
        || text::same(class_name, DEFAULT_IME_CLASS)
        || text::same(class_name, GENERIC_IME_CLASS)
        || text::same(class_name, SOIME_TSF_CLASS)
        || text::same(class_name, SOBS_UI_CLASS)
        || text::same(class_name, SOBS_HINT_CLASS)
        || text::same(class_name, CATS_PANEL_CLASS)
}

/// Whether a window is a fence.
pub fn is_own_fence_window(class_name: &str) -> (r: bool)
    ensures
        r == (class_name@ == FENCE_CLASS@),
{
    text::same(class_name, FENCE_CLASS)
}

// ---------------------------------------------------------------- the desktop's windows

/// A window of the system that holds the desktop.
#[derive(Clone, Copy)]
pub struct Host {
    pub handle: isize,
    pub primary: bool,
    pub visible: bool,
}

/// The windows, the primary ones first.
pub open spec fn primary_first(hosts: Seq<Host>) -> Seq<Host> {
    with_primary(hosts, true) + with_primary(hosts, false)
}

/// The windows that are primary, or those that are not.
pub open spec fn with_primary(hosts: Seq<Host>, primary: bool) -> Seq<Host>
    decreases hosts.len(),
{
    if hosts.len() == 0 {
        Seq::empty()
    } else {
        let r = with_primary(hosts.drop_last(), primary);
        if hosts.last().primary == primary {
            r.push(hosts.last())
        } else {
            r
        }
    }
}

/// The windows with the shell's own, which is primary, where it was not found among
/// them; 0 stands for no window.
pub open spec fn with_shell(hosts: Seq<Host>, shell: isize, visible: bool) -> Seq<Host> {
    if shell != 0 && !(exists|i: int|
        0 <= i < hosts.len() && (#[trigger] hosts[i]).handle == shell) {
        hosts.push(Host { handle: shell, primary: true, visible })
    } else {
        hosts
    }
}

fn pick_primary(hosts: &Vec<Host>, primary: bool) -> (r: Vec<Host>)
    ensures
        r@ == with_primary(hosts@, primary),
{
    let mut out: Vec<Host> = Vec::new();
    let mut i: usize = 0;
    assert(hosts@.take(0) =~= Seq::empty());
    while i < hosts.len()
        invariant
            i <= hosts.len(),
            out@ == with_primary(hosts@.take(i as int), primary),
        decreases hosts.len() - i,
    {
        assert(hosts@.take(i + 1).drop_last() =~= hosts@.take(i as int));
        if hosts[i].primary == primary {
            out.push(hosts[i]);
        }
        i = i + 1;
    }
    assert(hosts@.take(hosts@.len() as int) =~= hosts@);
    out
}

/// The windows that hold the desktop, of those that were `found` and the shell's own,
/// the primary ones first.
pub fn refresh_hosts(found: Vec<Host>, shell: isize, visible: bool) -> (r: Vec<Host>)
    ensures
        r@ == primary_first(with_shell(found@, shell, visible)),
{
    let mut all = found;
    let mut known = false;
    let mut i: usize = 0;
    while i < all.len()
        invariant
            i <= all.len(),
            all@ == found@,
            known == (exists|j: int| 0 <= j < i && (#[trigger] all@[j]).handle == shell),
        decreases all.len() - i,
    {
        if all[i].handle == shell {
            known = true;
        }
        i = i + 1;
    }
    if shell != 0 && !known {
        all.push(Host { handle: shell, primary: true, visible });
    }
    let mut out = pick_primary(&all, true);
    let mut rest = pick_primary(&all, false);
    out.append(&mut rest);
    out
}

/// The window under the middle of a fence: the first that is shown and, as `inside`
/// tells, there.
pub open spec fn host_under(hosts: Seq<Host>, inside: Seq<bool>) -> Option<int>
    decreases hosts.len(),
{
    if hosts.len() == 0 {
        None
    } else {
        match host_under(hosts.drop_last(), inside) {
            Some(i) => Some(i),
            None => if hosts.last().visible && inside[hosts.len() - 1] {
                Some(hosts.len() - 1)
            } else {
                None
            },
        }
    }
}

/// The window under the middle of a fence.
pub fn host_for_rect(hosts: &Vec<Host>, inside: &Vec<bool>) -> (r: Option<usize>)
    requires
        inside.len() == hosts.len(),
    ensures
        match r {
            Some(i) => host_under(hosts@, inside@) == Some(i as int) && i < hosts.len(),
            None => host_under(hosts@, inside@) is None,
        },
{
    let mut i: usize = 0;
    let mut found: Option<usize> = None;
    assert(hosts@.take(0) =~= Seq::empty());
    while i < hosts.len()
        invariant
            i <= hosts.len() == inside.len(),
            match found {
                Some(k) => host_under(hosts@.take(i as int), inside@) == Some(k as int) && k < i,
                None => host_under(hosts@.take(i as int), inside@) is None,
            },
        decreases hosts.len() - i,
    {
        assert(hosts@.take(i + 1).drop_last() =~= hosts@.take(i as int));
        if found.is_none() && hosts[i].visible && inside[i] {
            found = Some(i);
        }
        i = i + 1;
    }
    assert(hosts@.take(hosts@.len() as int) =~= hosts@);
    found
}

/// Whether what is known of the windows is recent enough: younger than a second.
pub fn hosts_are_fresh(age_ms: u64) -> (r: bool)
    ensures
        r == (age_ms < 1000),
{
    age_ms < 1000
}

// ---------------------------------------------------------------- what the answers mean

proof fn lemma_last_padding_is(skip: isize, ws: Seq<AnchorWindow>, i: int)
    requires
        -1 <= i < ws.len(),
        i >= 0 ==> is_padding(ws[i], skip),
        forall|j: int| i < j < ws.len() ==> !is_padding(#[trigger] ws[j], skip),
    ensures
        i >= 0 ==> last_padding(skip, ws) == Some(ws[i].handle),
        i < 0 ==> last_padding(skip, ws) is None,
    decreases ws.len(),
{
    if ws.len() > 0 && i < ws.len() - 1 {
        let h = ws.drop_last();
        assert(!is_padding(ws[ws.len() - 1], skip));
        assert forall|j: int| i < j < h.len() implies !is_padding(#[trigger] h[j], skip) by {
            assert(h[j] == ws[j]);
        }
        if i >= 0 {
            assert(h[i] == ws[i]);
        }
        lemma_last_padding_is(skip, h, i);
    }
}

proof fn lemma_first_sibling_is(skip: isize, ws: Seq<AnchorWindow>, i: int)
    requires
        0 <= i <= ws.len(),
        i < ws.len() ==> is_sibling(ws[i], skip),
        forall|j: int| 0 <= j < i ==> !is_sibling(#[trigger] ws[j], skip),
    ensures
        i < ws.len() ==> first_sibling(skip, ws) == Some(ws[i].handle),
        i == ws.len() ==> first_sibling(skip, ws) is None,
    decreases ws.len(),
{
    if ws.len() > 0 {
        let h = ws.drop_last();
        if i < h.len() {
            assert(h[i] == ws[i]);
            assert forall|j: int| 0 <= j < i implies !is_sibling(#[trigger] h[j], skip) by {
                assert(h[j] == ws[j]);
            }
            lemma_first_sibling_is(skip, h, i);
        } else {
            assert forall|j: int| 0 <= j < h.len() implies !is_sibling(#[trigger] h[j], skip) by {
                assert(h[j] == ws[j]);
            }
            lemma_first_sibling_is(skip, h, h.len() as int);
            if i == ws.len() {
                assert(!is_sibling(ws[ws.len() - 1], skip));
            }
        }
    }
}

/// The search goes on below the own windows, the unseen ones and the helpers, up to the
/// first other window, or to the end: nothing, the host itself or a window that is always on
/// top. The first other window is the anchor unless it was refused lately.
pub proof fn law_first_other_window_is_the_anchor(
    host: isize,
    skip: isize,
    ws: Seq<AnchorWindow>,
    n: int,
)
    requires
        0 <= n < ws.len(),
        forall|j: int|
            0 <= j < n ==> {
                let w = #[trigger] ws[j];
                &&& w.handle != 0 && w.handle != host && !w.topmost
                &&& w.handle == skip || w.own || w.invisible || w.auxiliary
            },
        ws[n].handle != 0,
        ws[n].handle != host,
        ws[n].handle != skip,
        !ws[n].topmost,
        !ws[n].own,
        !ws[n].invisible,
        !ws[n].auxiliary,
        !ws[n].bad,
    ensures
        band_anchor(host, skip, ws) == Some(ws[n].handle),
{
    assert forall|j: int| 0 <= j < n implies !is_wall(#[trigger] ws[j], host) && !is_foreign(
        ws[j],
        skip,
    ) by {
        let w = ws[j];
        assert(w.handle != 0 && w.handle != host && !w.topmost);
    }
    lemma_search_end_is(host, skip, ws, n);
}

/// Without such a window the anchor is the lowest unseen window or helper above the end of
/// the search, else the highest other fence, neither of them refused lately, and else there
/// is none.
pub proof fn law_anchor_without_other_windows(
    host: isize,
    skip: isize,
    ws: Seq<AnchorWindow>,
    n: int,
    i: int,
    k: int,
)
    requires
        0 <= n <= ws.len(),
        forall|j: int|
            0 <= j < n ==> {
                let w = #[trigger] ws[j];
                &&& w.handle != 0 && w.handle != host && !w.topmost
                &&& w.handle == skip || w.own || w.invisible || w.auxiliary
            },
        n < ws.len() ==> {
            let w = ws[n];
            ||| w.handle == 0 || w.handle == host || w.topmost
            ||| w.handle != skip && !w.own && !w.invisible && !w.auxiliary && w.bad
        },
        -1 <= i < n,
        i >= 0 ==> ws[i].handle != skip && !ws[i].own && (ws[i].invisible || ws[i].auxiliary)
            && !ws[i].bad,
        forall|j: int|
            i < j < n ==> {
                let w = #[trigger] ws[j];
                w.handle == skip || w.own || !(w.invisible || w.auxiliary) || w.bad
            },
        0 <= k <= n,
        k < n ==> ws[k].handle != skip && ws[k].own && !ws[k].bad,
        forall|j: int|
            0 <= j < k ==> {
                let w = #[trigger] ws[j];
                w.handle == skip || !w.own || w.bad
            },
    ensures
        i >= 0 ==> band_anchor(host, skip, ws) == Some(ws[i].handle),
        i < 0 && k < n ==> band_anchor(host, skip, ws) == Some(ws[k].handle),
        i < 0 && k == n ==> band_anchor(host, skip, ws) is None,
{
    assert forall|j: int| 0 <= j < n implies !is_wall(#[trigger] ws[j], host) && !is_foreign(
        ws[j],
        skip,
    ) by {
        let w = ws[j];
        assert(w.handle != 0 && w.handle != host && !w.topmost);
    }
    lemma_search_end_is(host, skip, ws, n);
    let t = ws.take(n);
    assert forall|j: int| i < j < t.len() implies !is_padding(#[trigger] t[j], skip) by {
        assert(t[j] == ws[j]);
    }
    if i >= 0 {
        assert(t[i] == ws[i]);
    }
    lemma_last_padding_is(skip, t, i);
    assert forall|j: int| 0 <= j < k implies !is_sibling(#[trigger] t[j], skip) by {
        assert(t[j] == ws[j]);
    }
    if k < n {
        assert(t[k] == ws[k]);
    }
    lemma_first_sibling_is(skip, t, k);
}

/// A refusal counts for a minute. What is kept of the refusals are those that count, of
/// other windows, in their order.
pub proof fn law_refusals_count_for_a_minute(e: Seq<(isize, u64)>, h: isize, now: u64)
    ensures
        others(e, h, now) == e.filter(|x: (isize, u64)| now - x.1 < 60_000 && x.0 != h),
        refused(e, h, now) <==> exists|i: int|
            0 <= i < e.len() && (#[trigger] e[i]).0 == h && now < e[i].1 + 60_000,
    decreases e.len(),
{
    reveal(Seq::filter);
    if e.len() > 0 {
        law_refusals_count_for_a_minute(e.drop_last(), h, now);
    } else {
        assert(others(e, h, now) =~= e.filter(
            |x: (isize, u64)| now - x.1 < 60_000 && x.0 != h,
        ));
    }
}

proof fn lemma_top_sibling_is(dragged: isize, ws: Seq<(isize, bool)>, best: Option<isize>, n: int, i: int)
    requires
        0 <= n <= ws.len(),
        forall|j: int|
            0 <= j < n ==> (#[trigger] ws[j]).0 != 0 && (ws[j].0 == dragged || ws[j].1),
        n < ws.len() ==> ws[n].0 == 0 || (ws[n].0 != dragged && !ws[n].1),
        -1 <= i < n,
        i >= 0 ==> ws[i].0 != dragged,
        forall|j: int| i < j < n ==> (#[trigger] ws[j]).0 == dragged,
    ensures
        i >= 0 ==> top_sibling(dragged, ws, best) == Some(ws[i].0),
        i < 0 ==> top_sibling(dragged, ws, best) == best,
    decreases ws.len(),
{
    if n > 0 {
        let t = ws.drop_first();
        assert(ws[0].0 != 0);
        assert forall|j: int| 0 <= j < n - 1 implies (#[trigger] t[j]).0 != 0 && (t[j].0 == dragged
            || t[j].1) by {
            assert(t[j] == ws[j + 1]);
        }
        if n < ws.len() {
            assert(t[n - 1] == ws[n]);
        }
        let k = if i > 0 {
            i - 1
        } else {
            -1
        };
        assert forall|j: int| k < j < n - 1 implies (#[trigger] t[j]).0 == dragged by {
            assert(t[j] == ws[j + 1]);
        }
        if i > 0 {
            assert(t[i - 1] == ws[i]);
        }
        let next = if ws[0].0 == dragged {
            best
        } else {
            Some(ws[0].0)
        };
        lemma_top_sibling_is(dragged, t, next, n - 1, k);
    }
}

/// A dragged fence is raised above the highest of the fences that stand right above it,
/// itself left out, as far as 64 windows are looked at; and not at all where there is none.
pub proof fn law_dragged_fence_rises_above_its_siblings(
    dragged: isize,
    windows: Seq<(isize, bool)>,
    n: int,
    i: int,
)
    requires
        0 <= n <= windows.len(),
        n <= 64,
        forall|j: int|
            0 <= j < n ==> (#[trigger] windows[j]).0 != 0 && (windows[j].0 == dragged
                || windows[j].1),
        n < windows.len() && n < 64 ==> windows[n].0 == 0 || (windows[n].0 != dragged
            && !windows[n].1),
        -1 <= i < n,
        i >= 0 ==> windows[i].0 != dragged,
        forall|j: int| i < j < n ==> (#[trigger] windows[j]).0 == dragged,
    ensures
        ({
            let r = top_sibling(dragged, at_most(windows, ELEVATE_STEPS as int), None);
            &&& i >= 0 ==> r == Some(windows[i].0)
            &&& i < 0 ==> r is None
        }),
{
    let ws = at_most(windows, ELEVATE_STEPS as int);
    assert forall|j: int| 0 <= j < n implies (#[trigger] ws[j]).0 != 0 && (ws[j].0 == dragged
        || ws[j].1) by {
        assert(ws[j] == windows[j]);
    }
    assert forall|j: int| i < j < n implies (#[trigger] ws[j]).0 == dragged by {
        assert(ws[j] == windows[j]);
    }
    lemma_top_sibling_is(dragged, ws, None, n, i);
}

/// A window can be seen where it is wider and higher than two pixels and some part of it is
/// on the screen.
pub proof fn law_seen_windows_are_on_the_screen(r: Sides, vs: VirtualScreen)
    ensures
        !unseen_rect(r, vs) <==> r.right > r.left + 2 && r.bottom > r.top + 2 && r.right > vs.x
            && r.left < vs.x + vs.w && r.bottom > vs.y && r.top < vs.y + vs.h,
{
}

/// The helpers are the windows of menus, the task bar, input methods and the category panel.
pub proof fn law_helpers_are_known_by_class(name: Seq<char>)
    ensures
        helper_class(name) <==> seq![
            "#32768"@,
            "Shell_TrayWnd"@,
            "EdgeUiInputTopWndClass"@,
            "MSCTFIME UI"@,
            "Default IME"@,
            "IME"@,
            "SoImeBS_TSF_UI"@,
            "SoBS_UI"@,
            "SoBS_Hint"@,
            "DeskFenceCatsPanel"@,
        ].contains(name),
{
    let s = seq![
        "#32768"@,
        "Shell_TrayWnd"@,
        "EdgeUiInputTopWndClass"@,
        "MSCTFIME UI"@,
        "Default IME"@,
        "IME"@,
        "SoImeBS_TSF_UI"@,
        "SoBS_UI"@,
        "SoBS_Hint"@,
        "DeskFenceCatsPanel"@,
    ];
    if helper_class(name) {
        assert(s[0] == "#32768"@ && s[1] == "Shell_TrayWnd"@ && s[2] == "EdgeUiInputTopWndClass"@);
        assert(s[3] == "MSCTFIME UI"@ && s[4] == "Default IME"@ && s[5] == "IME"@);
        assert(s[6] == "SoImeBS_TSF_UI"@ && s[7] == "SoBS_UI"@ && s[8] == "SoBS_Hint"@);
        assert(s[9] == "DeskFenceCatsPanel"@);
    }
}

/// The hosts are listed with the primary ones first, each kind in its order; the shell's
/// own window is added where it is missing.
pub proof fn law_primary_hosts_come_first(hosts: Seq<Host>, shell: isize, visible: bool)
    ensures
        primary_first(hosts) == hosts.filter(|h: Host| h.primary) + hosts.filter(
            |h: Host| !h.primary,
        ),
        shell == 0 ==> with_shell(hosts, shell, visible) == hosts,
        (exists|i: int| 0 <= i < hosts.len() && (#[trigger] hosts[i]).handle == shell)
            ==> with_shell(hosts, shell, visible) == hosts,
        shell != 0 && (forall|i: int|
            0 <= i < hosts.len() ==> (#[trigger] hosts[i]).handle != shell) ==> with_shell(
            hosts,
            shell,
            visible,
        ) == hosts.push(Host { handle: shell, primary: true, visible }),
{
    lemma_hosts_filtered(hosts);
}

proof fn lemma_hosts_filtered(hosts: Seq<Host>)
    ensures
        with_primary(hosts, true) == hosts.filter(|h: Host| h.primary),
        with_primary(hosts, false) == hosts.filter(|h: Host| !h.primary),
    decreases hosts.len(),
{
    reveal(Seq::filter);
    if hosts.len() > 0 {
        lemma_hosts_filtered(hosts.drop_last());
    } else {
        assert(with_primary(hosts, true) =~= hosts.filter(|h: Host| h.primary));
        assert(with_primary(hosts, false) =~= hosts.filter(|h: Host| !h.primary));
    }
}

/// A fence belongs to the first host that is seen and that it is in, and to none only where
/// there is none.
pub proof fn law_first_host_takes_the_fence(hosts: Seq<Host>, inside: Seq<bool>)
    ensures
        match host_under(hosts, inside) {
            Some(i) => 0 <= i < hosts.len() && hosts[i].visible && inside[i] && forall|j: int|
                0 <= j < i ==> !(#[trigger] hosts[j]).visible || !inside[j],
            None => forall|j: int|
                0 <= j < hosts.len() ==> !(#[trigger] hosts[j]).visible || !inside[j],
        },
    decreases hosts.len(),
{
    if hosts.len() > 0 {
        let h = hosts.drop_last();
        law_first_host_takes_the_fence(h, inside);
        match host_under(h, inside) {
            Some(i) => {
                assert(hosts[i] == h[i]);
                assert forall|j: int| 0 <= j < i implies !(#[trigger] hosts[j]).visible
                    || !inside[j] by {
                    assert(hosts[j] == h[j]);
                }
            },
            None => {
                assert forall|j: int| 0 <= j < h.len() implies !(#[trigger] hosts[j]).visible
                    || !inside[j] by {
                    assert(hosts[j] == h[j]);
                }
                assert(hosts[hosts.len() - 1] == hosts.last());
            },
        }
    }
}

/// A fence's own window is known by its class.
pub proof fn law_fences_are_known_by_class()
    ensures
        FENCE_CLASS@ == "DeskFenceFence"@,
{
}

} // verus!

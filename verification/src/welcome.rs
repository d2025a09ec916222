//! The window that welcomes the user: what is chosen there, and when it comes back.
use crate::settings;
use crate::settings::{CacheView, Settings, SettingsCache, SettingsView};
use vstd::prelude::*;

verus! {

/// Whether the window opens: it is not open, and the user has not asked it to stay
/// away.
pub fn should_show(already_open: bool, first_run_done: bool) -> (r: bool)
    ensures
        r == (!already_open && !first_run_done),
{
    !already_open && !first_run_done
}

/// `want`, where it is not as it is.
pub open spec fn change(want: bool, is: bool) -> Option<bool> {
    if want != is {
        Some(want)
    } else {
        None
    }
}

/// Which of the two choices, the frames and the start with the system, change
/// anything.
pub fn diff_choices(chrome_cb: bool, chrome_cur: bool, auto_cb: bool, auto_cur: bool) -> (r: (
    Option<bool>,
    Option<bool>,
))
    ensures
        r == (change(chrome_cb, chrome_cur), change(auto_cb, auto_cur)),
{
    let chrome = if chrome_cb != chrome_cur {
        Some(chrome_cb)
    } else {
        None
    };
    let auto_start = if auto_cb != auto_cur {
        Some(auto_cb)
    } else {
        None
    };
    (chrome, auto_start)
}

/// Carries out the choice of the frames, and gives what the start with the system is
/// to be changed to. `redraw` of the result tells whether the frames changed.
pub fn apply_choices(
    cache: &mut SettingsCache,
    stored: &mut Settings,
    chrome_cb: bool,
    auto_cb: bool,
    auto_cur: bool,
) -> (r: Choices)
    requires
        old(stored).wf(),
    ensures
        final(stored).wf(),
        r.redraw == (chrome_cb != old(cache)@.show_chrome),
        r.autostart == change(auto_cb, auto_cur),
        final(cache)@ == (if r.redraw {
            CacheView { show_chrome: chrome_cb, ..old(cache)@ }
        } else {
            old(cache)@
        }),
        final(stored)@ == (if r.redraw {
            SettingsView { show_chrome: chrome_cb, ..old(stored)@ }
        } else {
            old(stored)@
        }),
{
    let (chrome, auto_start) = diff_choices(
        chrome_cb,
        settings::chrome_always_on(cache),
        auto_cb,
        auto_cur,
    );
    match chrome {
        Some(on) => {
            settings::set_show_chrome_stored(cache, stored, on);
            Choices { redraw: true, autostart: auto_start }
        },
        None => Choices { redraw: false, autostart: auto_start },
    }
}

/// What the choices lead to.
#[derive(Clone, Copy)]
pub struct Choices {
    pub redraw: bool,
    pub autostart: Option<bool>,
}

/// What happens to the window.
#[derive(Clone, Copy, PartialEq, Eq, Structural)]
pub enum WelcomeEvent {
    /// A control was used, by its number.
    Command(isize),
    /// The user closes it.
    Close,
    /// It is gone, with the box that keeps it away checked or not.
    Gone { stay_away: bool },
}

/// What the window does.
#[derive(Clone, Copy, PartialEq, Eq, Structural)]
pub enum WelcomeAction {
    Nothing,
    /// It carries out the choices and goes.
    ApplyAndGo,
    Go,
    /// It remembers that it is not to come back.
    StayAway,
}

/// The number of the button that starts.
pub const IDC_OK: isize = 0x318;

/// What the window does.
pub fn welcome_action(e: WelcomeEvent) -> (r: WelcomeAction)
    ensures
        r == (match e {
            WelcomeEvent::Command(id) => if id == IDC_OK {
                WelcomeAction::ApplyAndGo
            } else {
                WelcomeAction::Nothing
            },
            WelcomeEvent::Close => WelcomeAction::Go,
            WelcomeEvent::Gone { stay_away } => if stay_away {
                WelcomeAction::StayAway
            } else {
                WelcomeAction::Nothing
            },
        }),
{
    match e {
        WelcomeEvent::Command(id) => {
            if id == IDC_OK {
                WelcomeAction::ApplyAndGo
            } else {
                WelcomeAction::Nothing
            }
        },
        WelcomeEvent::Close => WelcomeAction::Go,
        WelcomeEvent::Gone { stay_away } => {
            if stay_away {
                WelcomeAction::StayAway
            } else {
                WelcomeAction::Nothing
            }
        },
    }
}

/// Remembers that the window is not to come back, where the user asked for that.
pub fn dismissed(stored: &mut Settings, stay_away: bool)
    requires
        old(stored).wf(),
    ensures
        final(stored).wf(),
        final(stored)@ == (if stay_away {
            SettingsView { first_run_done: true, ..old(stored)@ }
        } else {
            old(stored)@
        }),
{
    if stay_away {
        stored.first_run_done = true;
    }
}

/// A part of the window: its height, and the space below it.
#[derive(Clone, Copy)]
pub struct Part {
    pub height: i32,
    pub space: i32,
}

/// The top of the part `i`, the first one being at `pad`.
pub open spec fn part_top(pad: int, parts: Seq<Part>, i: int) -> int
    decreases i,
{
    if i <= 0 {
        pad
    } else {
        part_top(pad, parts, i - 1) + parts[i - 1].height + parts[i - 1].space
    }
}

/// 32 bits hold the tops of all parts.
pub open spec fn tops_fit(pad: int, parts: Seq<Part>) -> bool {
    forall|i: int|
        0 <= i < parts.len() ==> i32::MIN <= #[trigger] part_top(pad, parts, i) <= i32::MAX
}

/// The tops of the parts, below each other.
pub fn stack_parts(pad: i32, parts: &Vec<Part>) -> (r: Vec<i32>)
    requires
        tops_fit(pad as int, parts@),
    ensures
        r@.len() == parts@.len(),
        forall|i: int| 0 <= i < r@.len() ==> #[trigger] r@[i] == part_top(pad as int, parts@, i),
{
    let mut out: Vec<i32> = Vec::new();
    let mut y: i64 = pad as i64;
    let mut i: usize = 0;
    while i < parts.len()
        invariant
            i <= parts.len(),
            tops_fit(pad as int, parts@),
            y == part_top(pad as int, parts@, i as int),
            out@.len() == i,
            forall|k: int| 0 <= k < i ==> #[trigger] out@[k] == part_top(pad as int, parts@, k),
        decreases parts.len() - i,
    {
        assert(i32::MIN <= part_top(pad as int, parts@, i as int) <= i32::MAX);
        out.push(y as i32);
        let p = parts[i];
        assert(p == parts@[i as int]);
        y = y + p.height as i64 + p.space as i64;
        i = i + 1;
    }
    out
}

/// Only what was changed is to be changed, and to what was chosen.
pub proof fn law_only_changes_are_applied(want: bool, is: bool)
    ensures
        want == is ==> change(want, is) is None,
        want != is ==> change(want, is) == Some(want),
{
}

/// The parts stand below each other, the first at the padding and each behind the height and
/// the space of the one before it.
pub proof fn law_parts_are_stacked(pad: int, parts: Seq<Part>, i: int)
    requires
        0 <= i < parts.len(),
    ensures
        part_top(pad, parts, 0) == pad,
        part_top(pad, parts, i + 1) - part_top(pad, parts, i) == parts[i].height + parts[i].space,
{
}

/// The button that takes the choices over has its own number.
pub proof fn law_ok_has_its_number()
    ensures
        IDC_OK == 0x318,
{
}

} // verus!

//! Starting with the system: through a scheduled task, or, where the system refuses
//! one, through a value of the user's start-up list.
use crate::text;
use vstd::prelude::*;

verus! {

/// What is known of the setting. Asking the system is slow, so the answer is kept.
#[derive(Clone, Copy, PartialEq, Eq, Structural)]
pub enum AutostartCache {
    Unknown,
    On,
    Off,
}

/// What is kept of an answer.
pub open spec fn kept(on: bool) -> AutostartCache {
    if on {
        AutostartCache::On
    } else {
        AutostartCache::Off
    }
}

fn keep(on: bool) -> (r: AutostartCache)
    ensures
        r == kept(on),
{
    if on {
        AutostartCache::On
    } else {
        AutostartCache::Off
    }
}

/// The kept answer, if there is one.
pub fn autostart_known(cache: AutostartCache) -> (r: Option<bool>)
    ensures
        r == (match cache {
            AutostartCache::On => Some(true),
            AutostartCache::Off => Some(false),
            AutostartCache::Unknown => None,
        }),
{
    match cache {
        AutostartCache::On => Some(true),
        AutostartCache::Off => Some(false),
        AutostartCache::Unknown => None,
    }
}

/// Whether the program starts with the system: as the kept answer tells, else if the
/// start-up list has its value or there is a task.
pub fn get_autostart(cache: &mut AutostartCache, run_value: bool, task: bool) -> (r: bool)
    ensures
        r == (match *old(cache) {
            AutostartCache::On => true,
            AutostartCache::Off => false,
            AutostartCache::Unknown => run_value || task,
        }),
        *final(cache) == kept(r),
{
    match *cache {
        AutostartCache::On => true,
        AutostartCache::Off => false,
        AutostartCache::Unknown => {
            let on = run_value || task;
            *cache = keep(on);
            on
        },
    }
}

/// Keeps that the setting was changed to `on`, where that went well.
pub fn set_autostart(cache: &mut AutostartCache, on: bool, done: bool) -> (r: bool)
    ensures
        r == done,
        *final(cache) == (if done {
            kept(on)
        } else {
            *old(cache)
        }),
{
    if done {
        *cache = keep(on);
    }
    done
}

/// What is done at the start of the program about an older way to start it.
#[derive(Clone, Copy, PartialEq, Eq, Structural)]
pub enum Migration {
    Nothing,
    /// The value of the start-up list goes: there is a task.
    DropRunValue,
    /// A task is tried.
    TryTask,
}

/// What is done about the value of the start-up list: nothing where a task has
/// failed before, or where there is no value.
pub fn migrate_autostart_to_task(failed_before: bool, run_value: bool, task: bool) -> (r: Migration)
    ensures
        r == (if failed_before || !run_value {
            Migration::Nothing
        } else if task {
            Migration::DropRunValue
        } else {
            Migration::TryTask
        }),
{
    if failed_before || !run_value {
        Migration::Nothing
    } else if task {
        Migration::DropRunValue
    } else {
        Migration::TryTask
    }
}

/// A step of changing the setting: what the system is asked to do next.
#[derive(Clone, Copy, PartialEq, Eq, Structural)]
pub enum Step {
    /// Drop the value of an older program from the start-up list.
    DropLegacy { on: bool },
    CreateTask,
    /// Look whether the task is there.
    QueryTask,
    /// Note that this machine allows no tasks.
    MarkFailed,
    OpenRunKey,
    WriteRunValue,
    DeleteTask,
    DropRunValue,
    ClearMark,
    /// Done, well or not.
    Done { well: bool },
}

/// The first step.
pub fn set_autostart_first(exe: &str, on: bool) -> (r: Step)
    ensures
        r == (if exe@.len() == 0 {
            Step::Done { well: false }
        } else {
            Step::DropLegacy { on }
        }),
{
    if text::chars_of(exe).len() == 0 {
        Step::Done { well: false }
    } else {
        Step::DropLegacy { on }
    }
}

/// The step after `s`, which went well where `ok` is set.
pub open spec fn step_after(s: Step, ok: bool) -> Step {
    match s {
        Step::DropLegacy { on } => if on {
            Step::CreateTask
        } else {
            Step::DeleteTask
        },
        Step::CreateTask => if ok {
            Step::QueryTask
        } else {
            Step::MarkFailed
        },
        Step::QueryTask => if ok {
            Step::DropRunValue
        } else {
            Step::MarkFailed
        },
        Step::MarkFailed => Step::OpenRunKey,
        Step::OpenRunKey => if ok {
            Step::WriteRunValue
        } else {
            Step::Done { well: false }
        },
        Step::WriteRunValue => Step::Done { well: ok },
        Step::DeleteTask => Step::DropRunValue,
        Step::DropRunValue => Step::ClearMark,
        Step::ClearMark => Step::Done { well: true },
        Step::Done { well } => Step::Done { well },
    }
}

/// The step after `s`, which went well where `ok` is set.
pub fn set_autostart_next(s: Step, ok: bool) -> (r: Step)
    ensures
        r == step_after(s, ok),
{
    match s {
        Step::DropLegacy { on } => {
            if on {
                Step::CreateTask
            } else {
                Step::DeleteTask
            }
        },
        Step::CreateTask => {
            if ok {
                Step::QueryTask
            } else {
                Step::MarkFailed
            }
        },
        Step::QueryTask => {
            if ok {
                Step::DropRunValue
            } else {
                Step::MarkFailed
            }
        },
        Step::MarkFailed => Step::OpenRunKey,
        Step::OpenRunKey => {
            if ok {
                Step::WriteRunValue
            } else {
                Step::Done { well: false }
            }
        },
        Step::WriteRunValue => Step::Done { well: ok },
        Step::DeleteTask => Step::DropRunValue,
        Step::DropRunValue => Step::ClearMark,
        Step::ClearMark => Step::Done { well: true },
        Step::Done { well } => Step::Done { well },
    }
}

/// The steps from `s` on, where the answers of the system are `oks`.
pub open spec fn steps(s: Step, oks: Seq<bool>) -> Seq<Step>
    decreases oks.len(),
{
    if oks.len() == 0 {
        seq![s]
    } else {
        let p = steps(s, oks.drop_last());
        p.push(step_after(p.last(), oks.last()))
    }
}

/// How many steps are left at most.
pub open spec fn steps_left(s: Step) -> nat {
    match s {
        Step::DropLegacy { .. } => 6,
        Step::CreateTask => 5,
        Step::QueryTask => 4,
        Step::MarkFailed => 3,
        Step::OpenRunKey => 2,
        Step::WriteRunValue => 1,
        Step::DeleteTask => 3,
        Step::DropRunValue => 2,
        Step::ClearMark => 1,
        Step::Done { .. } => 0,
    }
}

/// Changing the setting comes to an end, whatever the system answers: after six
/// steps it is done.
pub proof fn law_setting_comes_to_an_end(on: bool, oks: Seq<bool>)
    requires
        oks.len() >= 6,
    ensures
        steps(Step::DropLegacy { on }, oks).last() is Done,
{
    lemma_steps_left(Step::DropLegacy { on }, oks);
}

proof fn lemma_steps_left(s: Step, oks: Seq<bool>)
    ensures
        steps(s, oks).len() == oks.len() + 1,
        steps_left(steps(s, oks).last()) <= if oks.len() <= steps_left(s) {
            steps_left(s) - oks.len()
        } else {
            0
        },
    decreases oks.len(),
{
    if oks.len() > 0 {
        lemma_steps_left(s, oks.drop_last());
    }
}

/// What the system has in store for the next start.
pub struct Machine {
    pub task: bool,
    pub run_value: bool,
    pub failed_mark: bool,
}

/// A machine after a step that it answered with `ok`. A step that is refused does
/// nothing.
pub open spec fn machine_after(m: Machine, s: Step, ok: bool) -> Machine {
    if !ok {
        m
    } else {
        match s {
            Step::CreateTask => Machine { task: true, ..m },
            Step::DeleteTask => Machine { task: false, ..m },
            Step::DropRunValue => Machine { run_value: false, ..m },
            Step::WriteRunValue => Machine { run_value: true, ..m },
            Step::MarkFailed => Machine { failed_mark: true, ..m },
            Step::ClearMark => Machine { failed_mark: false, ..m },
            _ => m,
        }
    }
}

/// A machine after the steps from `s` on.
pub open spec fn run(m: Machine, s: Step, oks: Seq<bool>) -> Machine
    decreases oks.len(),
{
    if oks.len() == 0 {
        m
    } else {
        machine_after(
            run(m, s, oks.drop_last()),
            steps(s, oks.drop_last()).last(),
            oks.last(),
        )
    }
}

/// Every answer of the system is a yes.
pub open spec fn all_well(oks: Seq<bool>) -> bool {
    forall|i: int| 0 <= i < oks.len() ==> #[trigger] oks[i]
}

/// Where the system does all it is asked, switching on leaves the task and nothing
/// else, so that the program starts once, and switching off leaves nothing.
pub proof fn law_one_way_to_start(m: Machine, on: bool, oks: Seq<bool>)
    requires
        oks.len() == 6,
        all_well(oks),
    ensures
        run(m, Step::DropLegacy { on }, oks) == (Machine {
            task: on,
            run_value: false,
            failed_mark: false,
        }),
        steps(Step::DropLegacy { on }, oks).last() == (Step::Done { well: true }),
{
    let s = Step::DropLegacy { on };
    assert(forall|i: int| 0 <= i < 6 ==> #[trigger] oks[i]);
    let (a, b, c, d, e) = (oks.take(1), oks.take(2), oks.take(3), oks.take(4), oks.take(5));
    assert(a.drop_last() =~= Seq::empty());
    assert(b.drop_last() =~= a);
    assert(c.drop_last() =~= b);
    assert(d.drop_last() =~= c);
    assert(e.drop_last() =~= d);
    assert(oks.drop_last() =~= e);
    assert(steps(s, a.drop_last()).last() == s);
    assert(run(m, s, a.drop_last()) == m);
    assert(a.last() && b.last() && c.last() && d.last() && e.last() && oks.last());
    assert(steps(s, a).last() == step_after(s, true));
    assert(steps(s, b).last() == step_after(steps(s, a).last(), true));
    assert(steps(s, c).last() == step_after(steps(s, b).last(), true));
    assert(steps(s, d).last() == step_after(steps(s, c).last(), true));
    assert(steps(s, e).last() == step_after(steps(s, d).last(), true));
    assert(steps(s, oks).last() == step_after(steps(s, e).last(), true));
    assert(run(m, s, a) == machine_after(m, s, true));
    assert(run(m, s, b) == machine_after(run(m, s, a), steps(s, a).last(), true));
    assert(run(m, s, c) == machine_after(run(m, s, b), steps(s, b).last(), true));
    assert(run(m, s, d) == machine_after(run(m, s, c), steps(s, c).last(), true));
    assert(run(m, s, e) == machine_after(run(m, s, d), steps(s, d).last(), true));
    assert(run(m, s, oks) == machine_after(run(m, s, e), steps(s, e).last(), true));
}

/// The command line that runs the system's task planner with `args`.
pub open spec fn task_line(windir: Seq<char>, args: Seq<Seq<char>>) -> Seq<char> {
    "\""@ + windir + "\\System32\\schtasks.exe\" "@ + text::joined(args, " "@)
}

/// The command line that runs the system's task planner with `args`.
pub fn schtasks_line(windir: &str, args: &Vec<String>) -> (r: String)
    ensures
        r@ == task_line(windir@, text::texts(args@)),
{
    let quoted = text::join2("\"", windir);
    let program = text::join2(quoted.as_str(), "\\System32\\schtasks.exe\" ");
    let rest = text::join(args, " ");
    text::join2(program.as_str(), rest.as_str())
}

/// What tells one wallpaper from another: the colour, the placement, and of each
/// screen the picture and the screen's name.
pub fn wallpaper_signature(background: &str, position: &str, parts: &Vec<String>) -> (r: String)
    ensures
        r@ == background@ + "|"@ + position@ + "|"@ + text::joined(text::texts(parts@), "\u{1}"@),
{
    let a = text::join2(background, "|");
    let b = text::join2(a.as_str(), position);
    let c = text::join2(b.as_str(), "|");
    let d = text::join(parts, "\u{1}");
    text::join2(c.as_str(), d.as_str())
}

/// What follows each step: a failed task leads to the mark and the run value, a failed query
/// likewise; taking a start away deletes the task, the run value and the mark, whether or not
/// each goes well.
pub proof fn law_steps_follow_each_other(ok: bool)
    ensures
        step_after(Step::DropLegacy { on: true }, ok) is CreateTask,
        step_after(Step::DropLegacy { on: false }, ok) is DeleteTask,
        step_after(Step::CreateTask, true) is QueryTask,
        step_after(Step::CreateTask, false) is MarkFailed,
        step_after(Step::QueryTask, true) is DropRunValue,
        step_after(Step::QueryTask, false) is MarkFailed,
        step_after(Step::MarkFailed, ok) is OpenRunKey,
        step_after(Step::OpenRunKey, true) is WriteRunValue,
        step_after(Step::OpenRunKey, false) == (Step::Done { well: false }),
        step_after(Step::WriteRunValue, ok) == (Step::Done { well: ok }),
        step_after(Step::DeleteTask, ok) is DropRunValue,
        step_after(Step::DropRunValue, ok) is ClearMark,
        step_after(Step::ClearMark, ok) == (Step::Done { well: true }),
        step_after(Step::Done { well: ok }, ok) == (Step::Done { well: ok }),
{
}

/// Where the task cannot be made, the run value starts the program, and the mark tells so.
pub proof fn law_failed_task_falls_back(m: Machine, legacy: bool)
    ensures
        ({
            let oks = seq![legacy, false, true, true, true];
            let last = steps(Step::DropLegacy { on: true }, oks).last();
            let n = run(m, Step::DropLegacy { on: true }, oks);
            &&& last == (Step::Done { well: true })
            &&& n.run_value
            &&& n.failed_mark
            &&& n.task == m.task
        }),
{
    let s = Step::DropLegacy { on: true };
    let o5 = seq![legacy, false, true, true, true];
    let o4 = seq![legacy, false, true, true];
    let o3 = seq![legacy, false, true];
    let o2 = seq![legacy, false];
    let o1 = seq![legacy];
    let o0 = Seq::<bool>::empty();
    assert(o5.drop_last() =~= o4);
    assert(o4.drop_last() =~= o3);
    assert(o3.drop_last() =~= o2);
    assert(o2.drop_last() =~= o1);
    assert(o1.drop_last() =~= o0);
    assert(steps(s, o0).last() == s);
    assert(steps(s, o1).last() == step_after(s, legacy));
    assert(steps(s, o2).last() is MarkFailed);
    assert(steps(s, o3).last() is OpenRunKey);
    assert(steps(s, o4).last() is WriteRunValue);
    assert(run(m, s, o0) == m);
    assert(run(m, s, o1) == m);
    assert(run(m, s, o2) == m);
    assert(run(m, s, o3) == (Machine { failed_mark: true, ..m }));
    assert(run(m, s, o4) == (Machine { failed_mark: true, ..m }));
}

/// What is kept of the start is what was found.
pub proof fn law_start_is_kept(on: bool)
    ensures
        kept(on) is On <==> on,
        kept(on) is Off <==> !on,
{
}

/// The line that calls the task scheduler names it by its full path in quotes, and then its
/// arguments with blanks between them.
pub proof fn law_scheduler_is_called_by_its_path(windir: Seq<char>, a: Seq<char>, b: Seq<char>)
    ensures
        task_line(windir, seq![a, b]) == "\""@ + windir + "\\System32\\schtasks.exe\" "@ + (a + " "@
            + b),
{
    text::law_parts_are_joined(seq![a], " "@, b);
    text::law_parts_are_joined(seq![a], " "@, a);
    assert(seq![a].push(b) =~= seq![a, b]);
}

} // verus!

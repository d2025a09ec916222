//! Renaming in place: the title of a fence, and the name of a file.
use crate::desk;
use crate::desk::{Desk, DeskView};
use crate::model;
use crate::model::{Fence, FenceView, FileItem, FileView};
use crate::scan;
use crate::selection;
use crate::selection::{Selection, SelectionView};
use crate::text;
use crate::utf16;
use vstd::prelude::*;

verus! {

// ---------------------------------------------------------------- the editors

/// The open editors: at most one for the title of a fence, and one for the name of
/// a file.
pub struct Editors {
    /// The fence whose title is edited.
    pub title: Option<u32>,
    /// The path of the file whose name is edited.
    pub file: Option<String>,
    /// Whether a new name is being carried out.
    pub committing: bool,
}

/// The contents of an `Editors`.
pub struct EditorsView {
    pub title: Option<u32>,
    pub file: Option<Seq<char>>,
    pub committing: bool,
}

impl View for Editors {
    type V = EditorsView;

    open spec fn view(&self) -> EditorsView {
        EditorsView {
            title: self.title,
            file: text::opt_text(self.file),
            committing: self.committing,
        }
    }
}

impl Editors {
    /// No editor is open.
    pub fn new() -> (r: Editors)
        ensures
            r@ == (EditorsView { title: None, file: None, committing: false }),
    {
        Editors { title: None, file: None, committing: false }
    }
}

/// Which editors take over what was typed.
#[derive(Clone, Copy, PartialEq, Eq, Structural)]
pub struct Commits {
    pub title: bool,
    pub file: bool,
}

/// The editors that a click anywhere on the screen commits: those it falls outside
/// of. A click in the title's editor commits none. `in_title` and `in_file` tell
/// where the click falls.
pub fn rename_click_outside_hit(ed: &Editors, in_title: bool, in_file: bool) -> (r: Commits)
    ensures
        r.title == (ed.title is Some && !in_title),
        r.file == (ed.file is Some && !in_file && !(ed.title is Some && in_title)),
{
    if ed.title.is_some() && in_title {
        return Commits { title: false, file: false };
    }
    Commits { title: ed.title.is_some(), file: ed.file.is_some() && !in_file }
}

/// The editors that a press on a fence commits: the title's, and the file's where
/// the press falls outside of it.
pub fn press_commits(ed: &Editors, in_file: bool) -> (r: Commits)
    ensures
        r.title == (ed.title is Some),
        r.file == (ed.file is Some && !in_file),
{
    Commits { title: ed.title.is_some(), file: ed.file.is_some() && !in_file }
}

/// The name of a fence without one.
pub const UNTITLED: &'static str = "栅栏";

/// The text with which the editor for the title of a fence opens; none where one is
/// open already.
pub fn start_rename(ed: &Editors, fences: &Vec<Fence>, fence_id: u32) -> (r: Option<String>)
    ensures
        text::opt_text(r) == (if ed.title is Some {
            None
        } else {
            Some(
                match model::fence_at(model::fence_views(fences@), fence_id) {
                    Some(i) => fences@[i].title@,
                    None => UNTITLED@,
                },
            )
        }),
{
    if ed.title.is_some() {
        return None;
    }
    match model::fence_position(fences, fence_id) {
        Some(i) => Some(fences[i].title.clone()),
        None => Some(text::own(UNTITLED)),
    }
}

/// The editor for the title of a fence has opened.
pub fn title_editor_opened(ed: &mut Editors, fence_id: u32)
    ensures
        final(ed)@ == (EditorsView { title: Some(fence_id), ..old(ed)@ }),
{
    ed.title = Some(fence_id);
}

/// The title that a typed text gives: without the space around it, and never empty.
pub open spec fn title_from(typed: Seq<char>) -> Seq<char> {
    if text::trimmed(typed).len() == 0 {
        UNTITLED@
    } else {
        text::trimmed(typed)
    }
}

/// Gives the fence the title that stands in the buffer `typed` of its editor, and
/// closes the editor.
pub fn commit_rename(
    ed: &mut Editors,
    fences: &mut Vec<Fence>,
    fence_id: u32,
    typed: &Vec<u16>,
)
    ensures
        final(ed)@ == (EditorsView { title: None, ..old(ed)@ }),
        model::fence_views(final(fences)@) == desk::with_fence(
            model::fence_views(old(fences)@),
            fence_id,
            |f: FenceView|
                FenceView {
                    title: title_from(utf16::utf16_text(utf16::until_nul(typed@))),
                    ..f
                },
        ),
{
    let ghost was = model::fence_views(fences@);
    let raw = utf16::text_in(typed);
    let short = text::trim(raw.as_str());
    let title = if text::chars_of(short.as_str()).len() == 0 {
        text::own(UNTITLED)
    } else {
        short
    };
    let ghost t = title@;
    match model::fence_position(fences, fence_id) {
        None => {},
        Some(i) => {
            fences[i].title = title;
            assert(model::fence_views(fences@) =~= was.update(
                i as int,
                FenceView { title: t, ..was[i as int] },
            ));
        },
    }
    ed.title = None;
}

/// Closes the editor for a title and leaves the title.
pub fn cancel_rename(ed: &mut Editors)
    ensures
        final(ed)@ == (EditorsView { title: None, ..old(ed)@ }),
{
    ed.title = None;
}

/// What happens to an editor.
#[derive(Clone, Copy, PartialEq, Eq, Structural)]
pub enum EditEvent {
    Return,
    Escape,
    /// Another key.
    Key,
    /// A character, by its number.
    Character(u32),
    /// An input method has composed text.
    Composed,
    /// Text is pasted.
    Paste,
    /// Time to see whether the text has grown.
    Timer,
    FocusLost,
    /// The system takes the input away.
    ModeLost,
    Deactivated,
    Activated,
    Other,
}

/// What an editor does.
#[derive(Clone, Copy, PartialEq, Eq, Structural)]
pub enum EditAction {
    Commit,
    Cancel,
    /// What every text field does.
    Usual,
    /// What every text field does, and then the size is fitted.
    UsualThenFit,
    /// The cleaned text is put in, and the size is fitted.
    InsertClean,
    Fit,
    Nothing,
}

/// What the editor for a title does.
pub open spec fn title_editing(e: EditEvent) -> EditAction {
    match e {
        EditEvent::Return => EditAction::Commit,
        EditEvent::Escape => EditAction::Cancel,
        EditEvent::FocusLost => EditAction::Commit,
        EditEvent::ModeLost => EditAction::Cancel,
        EditEvent::Deactivated => EditAction::Cancel,
        EditEvent::Activated => EditAction::Nothing,
        _ => EditAction::Usual,
    }
}

/// What the editor for a title does.
pub fn title_edit_action(e: EditEvent) -> (r: EditAction)
    ensures
        r == title_editing(e),
{
    match e {
        EditEvent::Return => EditAction::Commit,
        EditEvent::Escape => EditAction::Cancel,
        EditEvent::FocusLost => EditAction::Commit,
        EditEvent::ModeLost => EditAction::Cancel,
        EditEvent::Deactivated => EditAction::Cancel,
        EditEvent::Activated => EditAction::Nothing,
        _ => EditAction::Usual,
    }
}

/// What the editor for a file's name does; `clipboard` tells whether the clipboard
/// holds text.
pub open spec fn file_editing(e: EditEvent, clipboard: bool) -> EditAction {
    match e {
        EditEvent::Return => EditAction::Commit,
        EditEvent::Escape => EditAction::Cancel,
        EditEvent::Key => EditAction::UsualThenFit,
        EditEvent::Composed => EditAction::UsualThenFit,
        EditEvent::Timer => EditAction::Fit,
        EditEvent::Character(c) => if c == 0x0D || c == 0x0A {
            EditAction::Commit
        } else {
            EditAction::UsualThenFit
        },
        EditEvent::Paste => if clipboard {
            EditAction::InsertClean
        } else {
            EditAction::UsualThenFit
        },
        EditEvent::FocusLost => EditAction::Commit,
        EditEvent::ModeLost => EditAction::Commit,
        EditEvent::Deactivated => EditAction::Commit,
        EditEvent::Activated => EditAction::Nothing,
        EditEvent::Other => EditAction::Usual,
    }
}

/// What the editor for a file's name does.
pub fn file_edit_action(e: EditEvent, clipboard: bool) -> (r: EditAction)
    ensures
        r == file_editing(e, clipboard),
{
    match e {
        EditEvent::Return => EditAction::Commit,
        EditEvent::Escape => EditAction::Cancel,
        EditEvent::Key => EditAction::UsualThenFit,
        EditEvent::Composed => EditAction::UsualThenFit,
        EditEvent::Timer => EditAction::Fit,
        EditEvent::Character(c) => {
            if c == 0x0D || c == 0x0A {
                EditAction::Commit
            } else {
                EditAction::UsualThenFit
            }
        },
        EditEvent::Paste => {
            if clipboard {
                EditAction::InsertClean
            } else {
                EditAction::UsualThenFit
            }
        },
        EditEvent::FocusLost => EditAction::Commit,
        EditEvent::ModeLost => EditAction::Commit,
        EditEvent::Deactivated => EditAction::Commit,
        EditEvent::Activated => EditAction::Nothing,
        EditEvent::Other => EditAction::Usual,
    }
}

// ---------------------------------------------------------------- a file's name

/// The place of the last dot.
pub open spec fn last_dot(s: Seq<char>) -> Option<int>
    decreases s.len(),
{
    if s.len() == 0 {
        None
    } else if s.last() == '.' {
        Some(s.len() - 1)
    } else {
        last_dot(s.drop_last())
    }
}

/// Where the preselected part of a name ends, in UTF-16 units: before the last dot,
/// unless that is the first character; -1 stands for the whole name.
pub open spec fn selection_end(name: Seq<char>) -> int {
    match last_dot(name) {
        Some(p) => if p > 0 {
            utf16::encoded(name.take(p)).len() as int
        } else {
            -1
        },
        None => -1,
    }
}

fn dot_at(v: &Vec<char>) -> (r: Option<usize>)
    ensures
        match r {
            Some(i) => last_dot(v@) == Some(i as int) && i < v.len(),
            None => last_dot(v@) is None,
        },
{
    let mut i: usize = v.len();
    assert(v@.take(i as int) =~= v@);
    while i > 0
        invariant
            i <= v.len(),
            last_dot(v@) == last_dot(v@.take(i as int)),
        decreases i,
    {
        assert(v@.take(i as int).drop_last() =~= v@.take(i - 1));
        if v[i - 1] == '.' {
            return Some(i - 1);
        }
        i = i - 1;
    }
    None
}

/// The end of the preselected part of a name.
pub fn preselected(name: &str) -> (r: isize)
    requires
        2 * name@.len() <= isize::MAX,
    ensures
        r == selection_end(name@),
{
    let v = text::chars_of(name);
    match dot_at(&v) {
        None => -1,
        Some(p) => {
            if p == 0 {
                return -1;
            }
            let mut stem: Vec<char> = Vec::new();
            let mut i: usize = 0;
            while i < p
                invariant
                    i <= p < v.len(),
                    stem@ == v@.take(i as int),
                decreases p - i,
            {
                stem.push(v[i]);
                assert(stem@ =~= v@.take(i + 1));
                i = i + 1;
            }
            let mut units: Vec<u16> = Vec::new();
            utf16::push_text(&mut units, &stem);
            proof {
                lemma_encoded_len(stem@);
                assert(units@ =~= utf16::encoded(stem@));
            }
            units.len() as isize
        },
    }
}

proof fn lemma_encoded_len(s: Seq<char>)
    ensures
        utf16::encoded(s).len() <= 2 * s.len(),
    decreases s.len(),
{
    if s.len() > 0 {
        lemma_encoded_len(s.drop_last());
    }
}

/// Whether the editor for the name of a file may open: no editor is open, and the
/// file is not the recycle bin.
pub fn start_file_rename(ed: &Editors, path: &str) -> (r: bool)
    ensures
        r == (ed.title is None && ed.file is None && !model::bin_path(path@)),
{
    ed.title.is_none() && ed.file.is_none() && !model::is_recycle_bin(path)
}

/// The editor for the name of a file has opened.
pub fn file_editor_opened(ed: &mut Editors, path: &str)
    ensures
        final(ed)@ == (EditorsView { file: Some(path@), ..old(ed)@ }),
{
    ed.file = Some(text::own(path));
}

/// The editor for the name of a file has closed.
pub fn file_editor_closed(ed: &mut Editors)
    ensures
        final(ed)@ == (EditorsView { file: None, ..old(ed)@ }),
{
    ed.file = None;
}

/// A character that no file name may hold.
pub open spec fn forbidden(c: char) -> bool {
    text::control_char(c) || c == '\\' || c == '/' || c == ':' || c == '*' || c == '?' || c == '"'
        || c == '<' || c == '>' || c == '|'
}

fn is_forbidden(c: char) -> (r: bool)
    ensures
        r == forbidden(c),
{
    text::is_control(c) || c == '\\' || c == '/' || c == ':' || c == '*' || c == '?' || c == '"'
        || c == '<' || c == '>' || c == '|'
}

/// What a committed name leads to.
pub enum Commit {
    /// Another commit is being carried out.
    Busy,
    /// The editor closes, and nothing changes.
    Close,
    /// The name cannot be: the editor stays open, with a sound.
    Refuse,
    /// The file is to be renamed.
    Rename { name: String },
}

/// The contents of a `Commit`.
pub enum CommitView {
    Busy,
    Close,
    Refuse,
    Rename { name: Seq<char> },
}

impl View for Commit {
    type V = CommitView;

    open spec fn view(&self) -> CommitView {
        match self {
            Commit::Busy => CommitView::Busy,
            Commit::Close => CommitView::Close,
            Commit::Refuse => CommitView::Refuse,
            Commit::Rename { name } => CommitView::Rename { name: name@ },
        }
    }
}

/// What the name `typed` leads to for the file `path`, whose name is `old_name`.
pub open spec fn commit_of(path: Option<Seq<char>>, old_name: Seq<char>, typed: Seq<char>) ->
    CommitView {
    let name = text::trimmed(typed);
    if path is None || path->0.len() == 0 || name.len() == 0 || name == old_name {
        CommitView::Close
    } else if exists|i: int| 0 <= i < name.len() && forbidden(#[trigger] name[i]) {
        CommitView::Refuse
    } else {
        CommitView::Rename { name }
    }
}

/// What the name in the buffer `typed` of the editor leads to; `old_name` is the
/// file's name. While a rename is carried out, every further commit is let go; after
/// one, `file_rename_done` opens the way again.
pub fn commit_file_rename(ed: &mut Editors, old_name: &str, typed: &Vec<u16>) -> (r: Commit)
    ensures
        old(ed).committing ==> r is Busy && final(ed)@ == old(ed)@,
        !old(ed).committing ==> r@ == commit_of(
            old(ed)@.file,
            old_name@,
            utf16::utf16_text(utf16::until_nul(typed@)),
        ) && final(ed)@ == (EditorsView { committing: r is Rename, ..old(ed)@ }),
{
    if ed.committing {
        return Commit::Busy;
    }
    let known = match &ed.file {
        None => false,
        Some(p) => text::chars_of(p.as_str()).len() > 0,
    };
    if !known {
        return Commit::Close;
    }
    let raw = utf16::text_in(typed);
    let name = text::trim(raw.as_str());
    let v = text::chars_of(name.as_str());
    if v.len() == 0 || text::same(name.as_str(), old_name) {
        return Commit::Close;
    }
    let mut i: usize = 0;
    while i < v.len()
        invariant
            i <= v.len(),
            v@ == name@,
            forall|j: int| 0 <= j < i ==> !forbidden(#[trigger] v@[j]),
            ed@ == old(ed)@,
            ed@.file is Some,
            ed@.file->0.len() > 0,
            !ed.committing,
            name@ == text::trimmed(utf16::utf16_text(utf16::until_nul(typed@))),
            name@.len() > 0,
            name@ != old_name@,
        decreases v.len() - i,
    {
        if is_forbidden(v[i]) {
            assert(forbidden(name@[i as int]));
            return Commit::Refuse;
        }
        i = i + 1;
    }
    ed.committing = true;
    Commit::Rename { name }
}

/// A rename was carried out, well or not.
pub fn file_rename_done(ed: &mut Editors)
    ensures
        final(ed)@ == (EditorsView { committing: false, ..old(ed)@ }),
{
    ed.committing = false;
}

/// What the file system is asked for to rename a file.
#[derive(Clone, Copy, PartialEq, Eq, Structural)]
pub enum RenameCall {
    /// Nothing: the file has that name.
    Already,
    /// Nothing: another file has that name, or there is no place for it.
    Refused,
    Move,
}

/// What the file system is asked for to rename `path` to `to`, which exists where
/// `exists` is set. A change of case alone finds the file itself there.
pub fn rename_path(path: &str, to: Option<&str>, exists: bool) -> (r: RenameCall)
    ensures
        r == (match to {
            None => RenameCall::Refused,
            Some(t) => if t@ == path@ {
                RenameCall::Already
            } else if exists && !scan::same_ascii(t@, path@) {
                RenameCall::Refused
            } else {
                RenameCall::Move
            },
        }),
{
    match to {
        None => RenameCall::Refused,
        Some(t) => {
            if text::same(t, path) {
                RenameCall::Already
            } else if exists && !scan::same_ignoring_case(t, path) {
                RenameCall::Refused
            } else {
                RenameCall::Move
            }
        },
    }
}

// ---------------------------------------------------------------- after a rename

/// `s` with `to` in the place of `from`, wherever it stands.
pub open spec fn replaced(s: Seq<Seq<char>>, from: Seq<char>, to: Seq<char>) -> Seq<Seq<char>> {
    Seq::new(
        s.len(),
        |i: int|
            if s[i] == from {
                to
            } else {
                s[i]
            },
    )
}

/// The fences after a file got another path.
pub open spec fn repathed_fences(
    f: Seq<FenceView>,
    from: Seq<char>,
    to: Seq<char>,
) -> Seq<FenceView> {
    Seq::new(
        f.len(),
        |i: int|
            FenceView {
                pinned: replaced(f[i].pinned, from, to),
                item_order: replaced(f[i].item_order, from, to),
                ..f[i]
            },
    )
}

/// The selection after a file got another path.
pub open spec fn repathed_selection(
    s: SelectionView,
    from: Seq<char>,
    to: Seq<char>,
) -> SelectionView {
    SelectionView {
        paths: if s.paths.contains(from) {
            selection::with_text(selection::without_text(s.paths, from), to)
        } else {
            s.paths
        },
        focused: if s.focused == Some(from) {
            Some(to)
        } else {
            s.focused
        },
        anchor: if s.anchor == Some(from) {
            Some(to)
        } else {
            s.anchor
        },
    }
}

/// Where the file `path` stands in the list.
pub open spec fn file_at(f: Seq<FileView>, path: Seq<char>) -> Option<int> {
    text::first_index(Seq::new(f.len(), |i: int| f[i].path), path)
}

/// The category that a renamed file gets.
pub open spec fn new_category(d: DeskView, from: Seq<char>, name: Seq<char>) -> Seq<char> {
    model::category_of(
        d.table,
        name,
        match file_at(d.files, from) {
            Some(i) => d.files[i].is_dir,
            None => false,
        },
    )
}

/// A renamed file comes into another category.
pub open spec fn category_changes(d: DeskView, from: Seq<char>, name: Seq<char>) -> bool {
    match file_at(d.files, from) {
        Some(i) => d.files[i].category != new_category(d, from, name),
        None => false,
    }
}

/// The files after the file `from` got the path `to`, the name `name` and the
/// category `cat`.
pub open spec fn repathed_files(
    f: Seq<FileView>,
    from: Seq<char>,
    to: Seq<char>,
    name: Seq<char>,
    cat: Seq<char>,
) -> Seq<FileView> {
    Seq::new(
        f.len(),
        |i: int|
            if f[i].path == from {
                FileView { path: to, name, category: cat, ..f[i] }
            } else {
                f[i]
            },
    )
}

/// The desk after the file `from` was renamed. A file that comes into a category
/// brings back the fence that the user had deleted.
pub open spec fn desk_after_rename(
    d: DeskView,
    from: Seq<char>,
    to: Seq<char>,
    name: Seq<char>,
) -> DeskView {
    DeskView {
        fences: repathed_fences(d.fences, from, to),
        files: repathed_files(d.files, from, to, name, new_category(d, from, name)),
        deleted_at: if category_changes(d, from, name) {
            d.deleted_at.remove(new_category(d, from, name))
        } else {
            d.deleted_at
        },
        ..d
    }
}

fn replace_all(v: &mut Vec<String>, from: &str, to: &str)
    ensures
        text::texts(final(v)@) == replaced(text::texts(old(v)@), from@, to@),
{
    let ghost was = text::texts(v@);
    let mut out: Vec<String> = Vec::new();
    let mut i: usize = 0;
    while i < v.len()
        invariant
            i <= v.len(),
            was == text::texts(v@),
            out@.len() == i,
            forall|k: int| 0 <= k < i ==> (#[trigger] out@[k])@ == replaced(was, from@, to@)[k],
        decreases v.len() - i,
    {
        assert(was[i as int] == v@[i as int]@);
        if text::same(v[i].as_str(), from) {
            out.push(text::own(to));
        } else {
            out.push(v[i].clone());
        }
        i = i + 1;
    }
    assert(text::texts(out@) =~= replaced(was, from@, to@));
    *v = out;
}

fn repath_fences(fences: &mut Vec<Fence>, from: &str, to: &str)
    ensures
        model::fence_views(final(fences)@) == repathed_fences(
            model::fence_views(old(fences)@),
            from@,
            to@,
        ),
{
    let ghost was = model::fence_views(fences@);
    let n: usize = fences.len();
    let mut i: usize = 0;
    while i < n
        invariant
            i <= n == fences@.len() == was.len(),
            forall|k: int|
                0 <= k < i ==> (#[trigger] fences@[k])@ == repathed_fences(was, from@, to@)[k],
            forall|k: int| i <= k < n ==> (#[trigger] fences@[k])@ == was[k],
        decreases n - i,
    {
        assert(fences@[i as int]@ == was[i as int]);
        let mut pinned = text::copy_texts(&fences[i].pinned);
        replace_all(&mut pinned, from, to);
        let mut order = text::copy_texts(&fences[i].item_order);
        replace_all(&mut order, from, to);
        fences[i].pinned = pinned;
        fences[i].item_order = order;
        i = i + 1;
    }
    assert(model::fence_views(fences@) =~= repathed_fences(was, from@, to@));
}

fn names(o: &Option<String>, path: &str) -> (r: bool)
    ensures
        r == (text::opt_text(*o) == Some(path@)),
{
    match o {
        Some(s) => text::same(s.as_str(), path),
        None => false,
    }
}

/// Follows a renamed file in the selection.
pub fn repath_selection(sel: &mut Selection, from: &str, to: &str)
    ensures
        final(sel)@ == repathed_selection(old(sel)@, from@, to@),
{
    if text::has_text(&sel.paths, from) {
        sel.paths = selection::drop_text(&sel.paths, from);
        selection::add_text(&mut sel.paths, to);
    }
    if names(&sel.focused, from) {
        sel.focused = Some(text::own(to));
    }
    if names(&sel.anchor, from) {
        sel.anchor = Some(text::own(to));
    }
}

/// Carries through that the file `from` has the path `to` and the name `name` now.
/// Returns whether it came into another category.
pub fn apply_file_rename(
    desk: &mut Desk,
    sel: &mut Selection,
    from: &str,
    to: &str,
    name: &str,
) -> (r: bool)
    requires
        old(desk).wf(),
    ensures
        final(desk).wf(),
        final(desk)@ == desk_after_rename(old(desk)@, from@, to@, name@),
        final(sel)@ == repathed_selection(old(sel)@, from@, to@),
        r == category_changes(old(desk)@, from@, name@),
{
    let ghost d = desk@;
    repath_fences(&mut desk.fences, from, to);
    repath_selection(sel, from, to);
    let at = selection::item_position(&desk.files, from);
    proof {
        assert(model::paths_of(desk.files@) =~= Seq::new(
            d.files.len(),
            |i: int| d.files[i].path,
        ));
    }
    let is_dir = match at {
        Some(i) => desk.files[i].is_dir,
        None => false,
    };
    let cat = model::categorize_with(&desk.table, name, is_dir);
    let changed = match at {
        Some(i) => !text::same(desk.files[i].category.as_str(), cat.as_str()),
        None => false,
    };
    if changed {
        desk.deleted_at.remove(cat.as_str());
    }
    let n: usize = desk.files.len();
    let mut i: usize = 0;
    let ghost fences = desk@.fences;
    let ghost deleted = desk@.deleted_at;
    while i < n
        invariant
            i <= n == desk.files@.len() == d.files.len(),
            cat@ == new_category(d, from@, name@),
            desk.wf(),
            desk@.fences == fences,
            desk@.table == d.table,
            desk@.deleted_at == deleted,
            desk@.epoch == d.epoch,
            forall|k: int|
                0 <= k < i ==> (#[trigger] desk.files@[k])@ == repathed_files(
                    d.files,
                    from@,
                    to@,
                    name@,
                    cat@,
                )[k],
            forall|k: int| i <= k < n ==> (#[trigger] desk.files@[k])@ == d.files[k],
        decreases n - i,
    {
        assert(desk.files@[i as int]@ == d.files[i as int]);
        if text::same(desk.files[i].path.as_str(), from) {
            let f = FileItem {
                name: text::own(name),
                path: text::own(to),
                is_dir: desk.files[i].is_dir,
                ext: desk.files[i].ext.clone(),
                category: cat.clone(),
                mtime_ms: desk.files[i].mtime_ms,
            };
            desk.files.set(i, f);
        }
        i = i + 1;
    }
    assert(desk@.files =~= repathed_files(d.files, from@, to@, name@, cat@));
    changed
}

/// After a rename nothing on the desk speaks of the old path.
pub proof fn law_old_path_is_forgotten(
    d: DeskView,
    s: SelectionView,
    from: Seq<char>,
    to: Seq<char>,
    name: Seq<char>,
)
    requires
        from != to,
    ensures
        ({
            let e = desk_after_rename(d, from, to, name);
            &&& forall|i: int|
                0 <= i < e.fences.len() ==> !(#[trigger] e.fences[i]).pinned.contains(from)
                    && !e.fences[i].item_order.contains(from)
            &&& forall|i: int| 0 <= i < e.files.len() ==> (#[trigger] e.files[i]).path != from
        }),
        !repathed_selection(s, from, to).paths.contains(from),
        repathed_selection(s, from, to).focused != Some(from),
        repathed_selection(s, from, to).anchor != Some(from),
{
    let e = desk_after_rename(d, from, to, name);
    assert forall|i: int| 0 <= i < e.fences.len() implies !(
    #[trigger] e.fences[i]).pinned.contains(from) && !e.fences[i].item_order.contains(from) by {
        let f = d.fences[i];
        assert forall|k: int| 0 <= k < f.pinned.len() implies #[trigger] replaced(
            f.pinned,
            from,
            to,
        )[k] != from by {}
        assert forall|k: int| 0 <= k < f.item_order.len() implies #[trigger] replaced(
            f.item_order,
            from,
            to,
        )[k] != from by {}
    }
    selection::lemma_without_text(s.paths, from);
    let w = selection::without_text(s.paths, from);
    assert(!w.contains(from));
    selection::lemma_push_contains(w, to, from);
}

/// A renamed file is shown by the fence of its new category: its category is the one
/// that its new name has, and that category is not held back.
pub proof fn law_renamed_file_is_recategorized(
    d: DeskView,
    from: Seq<char>,
    to: Seq<char>,
    name: Seq<char>,
    i: int,
)
    requires
        file_at(d.files, from) == Some(i),
    ensures
        ({
            let e = desk_after_rename(d, from, to, name);
            &&& e.files[i].path == to
            &&& e.files[i].name == name
            &&& e.files[i].category == model::category_of(d.table, name, d.files[i].is_dir)
            &&& d.files[i].category != e.files[i].category ==> !e.deleted_at.contains_key(
                e.files[i].category,
            )
        }),
{
    text::lemma_first_index(Seq::new(d.files.len(), |k: int| d.files[k].path), from);
}

// ---------------------------------------------------------------- pasted text

/// A pasted text as far as a name can hold it: line breaks and tabs become spaces,
/// other control characters go, and spaces in a row become one.
pub open spec fn collapsed(s: Seq<char>) -> (Seq<char>, bool)
    decreases s.len(),
{
    if s.len() == 0 {
        (Seq::empty(), false)
    } else {
        let (out, space) = collapsed(s.drop_last());
        let c = s.last();
        if c == '\r' || c == '\n' || c == '\t' || c == ' ' {
            if space {
                (out, true)
            } else {
                (out.push(' '), true)
            }
        } else if text::control_char(c) {
            (out, space)
        } else {
            (out.push(c), false)
        }
    }
}

/// A pasted text as far as a name can hold it.
pub fn collapse_for_filename(s: &str) -> (r: String)
    ensures
        r@ == text::trimmed(collapsed(s@).0),
{
    let v = text::chars_of(s);
    let mut out: Vec<char> = Vec::new();
    let mut space = false;
    let mut i: usize = 0;
    assert(v@.take(0) =~= Seq::empty());
    while i < v.len()
        invariant
            i <= v.len(),
            (out@, space) == collapsed(v@.take(i as int)),
        decreases v.len() - i,
    {
        assert(v@.take(i + 1).drop_last() =~= v@.take(i as int));
        let c = v[i];
        if c == '\r' || c == '\n' || c == '\t' || c == ' ' {
            if !space {
                out.push(' ');
                space = true;
            }
        } else if !text::is_control(c) {
            out.push(c);
            space = false;
        }
        i = i + 1;
    }
    assert(v@.take(v@.len() as int) =~= v@);
    let whole = text::string_of(&out, 0, out.len());
    assert(out@.subrange(0, out@.len() as int) =~= out@);
    text::trim(whole.as_str())
}

/// A cleaned text has no control character and no two spaces in a row.
pub proof fn law_collapsed_text_is_clean(s: Seq<char>)
    ensures
        forall|i: int|
            0 <= i < collapsed(s).0.len() ==> !text::control_char(#[trigger] collapsed(s).0[i]),
        forall|i: int|
            0 < i < collapsed(s).0.len() ==> !(#[trigger] collapsed(s).0[i] == ' ' && collapsed(
                s,
            ).0[i - 1] == ' '),
{
    lemma_collapsed(s);
}

proof fn lemma_collapsed(s: Seq<char>)
    ensures
        collapsed(s).1 == (collapsed(s).0.len() > 0 && collapsed(s).0.last() == ' '),
        forall|i: int|
            0 <= i < collapsed(s).0.len() ==> !text::control_char(#[trigger] collapsed(s).0[i]),
        forall|i: int|
            0 < i < collapsed(s).0.len() ==> !(#[trigger] collapsed(s).0[i] == ' ' && collapsed(
                s,
            ).0[i - 1] == ' '),
    decreases s.len(),
{
    if s.len() > 0 {
        lemma_collapsed(s.drop_last());
    }
}

// ---------------------------------------------------------------- the editor's size

/// What is measured to fit the editor of a file's name, in pixels.
#[derive(Clone, Copy)]
pub struct EditorMeasure {
    /// The width at which the text breaks.
    pub break_w: i32,
    /// The width of a cell, without its border.
    pub cell_w: i32,
    /// Where the editor stands.
    pub left: i32,
    pub top: i32,
    pub right: i32,
    pub bottom: i32,
    /// The height of the part that holds text, where it is known.
    pub format_h: Option<i32>,
    /// The height of a line, and of all lines.
    pub line_h: i32,
    pub lines_h: i32,
    /// The least border above and below the text, and the one where nothing is known.
    pub least_pad: i32,
    pub usual_pad: i32,
    /// The screen.
    pub screen_left: i32,
    pub screen_top: i32,
    pub screen_right: i32,
    pub screen_bottom: i32,
    /// The middle of the cell, where it is known.
    pub center: Option<i32>,
}

/// `v`, at least `lo` and at most `hi`.
pub open spec fn within(v: int, lo: int, hi: int) -> int {
    if v < lo {
        lo
    } else if v > hi {
        hi
    } else {
        v
    }
}

/// The greater of two numbers.
pub open spec fn greater(a: int, b: int) -> int {
    if a < b {
        b
    } else {
        a
    }
}

/// A number that 32 bits hold.
pub open spec fn fits(v: int) -> bool {
    i32::MIN <= v <= i32::MAX
}

/// The width of the editor: the text's, within the cell, and the border.
pub open spec fn editor_w(m: EditorMeasure) -> int {
    within(m.break_w as int, 66, m.cell_w as int) + 10
}

/// The height of the editor: that of its lines and the border, on the screen.
pub open spec fn editor_h(m: EditorMeasure) -> int {
    let screen = greater(m.screen_bottom - m.screen_top, 1);
    let client = greater(m.bottom - m.top, 1);
    let format = match m.format_h {
        Some(h) => h as int,
        None => greater(client - m.usual_pad, 1),
    };
    let pad = greater(client - format, m.least_pad as int);
    let least = m.line_h + pad;
    within(
        m.lines_h + pad,
        if least < screen {
            least
        } else {
            screen
        },
        screen,
    )
}

/// The halves of a number, towards zero.
pub open spec fn half(v: int) -> int {
    if v >= 0 {
        v / 2
    } else {
        -((-v) / 2)
    }
}

/// Where the editor goes: under the middle of its cell, and back onto the screen.
pub open spec fn editor_place(m: EditorMeasure) -> (int, int) {
    let middle = match m.center {
        Some(c) => c as int,
        None => m.left + half(m.right - m.left),
    };
    (
        within(
            middle - editor_w(m) / 2,
            m.screen_left as int,
            greater(m.screen_right - editor_w(m), m.screen_left as int),
        ),
        within(
            m.top as int,
            m.screen_top as int,
            greater(m.screen_bottom - editor_h(m), m.screen_top as int),
        ),
    )
}

/// The cell leaves room for the shortest text, and 32 bits hold the editor's size and
/// its place.
pub open spec fn measured(m: EditorMeasure) -> bool {
    &&& 66 <= m.cell_w
    &&& fits(editor_w(m))
    &&& fits(editor_h(m))
    &&& fits(editor_place(m).1)
}

pub(crate) fn clamp(v: i64, lo: i64, hi: i64) -> (r: i64)
    requires
        lo <= hi,
    ensures
        r == within(v as int, lo as int, hi as int),
{
    if v < lo {
        lo
    } else if v > hi {
        hi
    } else {
        v
    }
}

pub(crate) fn larger(a: i64, b: i64) -> (r: i64)
    ensures
        r == greater(a as int, b as int),
{
    if a < b {
        b
    } else {
        a
    }
}

pub(crate) fn halved(v: i64) -> (r: i64)
    requires
        v > i64::MIN,
    ensures
        r == half(v as int),
{
    if v >= 0 {
        v / 2
    } else {
        -((-v) / 2)
    }
}

/// The place and the size of the editor: left, top, width and height.
pub fn adjust_rename_edit_height(m: &EditorMeasure) -> (r: (i32, i32, i32, i32))
    requires
        measured(*m),
    ensures
        r.0 == editor_place(*m).0,
        r.1 == editor_place(*m).1,
        r.2 == editor_w(*m),
        r.3 == editor_h(*m),
{
    let w: i64 = clamp(m.break_w as i64, 66, m.cell_w as i64) + 10;
    let screen: i64 = larger(m.screen_bottom as i64 - m.screen_top as i64, 1);
    let client: i64 = larger(m.bottom as i64 - m.top as i64, 1);
    let format: i64 = match m.format_h {
        Some(h) => h as i64,
        None => larger(client - m.usual_pad as i64, 1),
    };
    let pad: i64 = larger(client - format, m.least_pad as i64);
    let least: i64 = m.line_h as i64 + pad;
    let floor: i64 = if least < screen {
        least
    } else {
        screen
    };
    let h: i64 = clamp(m.lines_h as i64 + pad, floor, screen);
    let middle: i64 = match m.center {
        Some(c) => c as i64,
        None => m.left as i64 + halved(m.right as i64 - m.left as i64),
    };
    let left: i64 = clamp(
        middle - w / 2,
        m.screen_left as i64,
        larger(m.screen_right as i64 - w, m.screen_left as i64),
    );
    let top: i64 = clamp(
        m.top as i64,
        m.screen_top as i64,
        larger(m.screen_bottom as i64 - h, m.screen_top as i64),
    );
    (left as i32, top as i32, w as i32, h as i32)
}

/// The editor stands on the screen: its corner always, and all of it where the screen
/// is not empty and as wide as the editor.
pub proof fn law_editor_stays_on_the_screen(m: EditorMeasure)
    requires
        m.screen_top < m.screen_bottom,
        m.screen_left <= m.screen_right,
    ensures
        m.screen_left <= editor_place(m).0,
        m.screen_top <= editor_place(m).1,
        editor_place(m).1 + editor_h(m) <= m.screen_bottom,
        editor_w(m) <= m.screen_right - m.screen_left ==> editor_place(m).0 + editor_w(m)
            <= m.screen_right,
{
}

// ---------------------------------------------------------------- what renaming means

/// A typed title is taken without the white space around it; an empty one is `栅栏`.
pub proof fn law_title_is_never_empty(typed: Seq<char>)
    ensures
        text::trimmed(typed).len() > 0 ==> title_from(typed) == text::trimmed(typed),
        text::trimmed(typed).len() == 0 ==> title_from(typed) == "栅栏"@,
{
}

/// What ends the editing of a title: Return and the loss of the focus take it over, Escape
/// and the loss of the input drop it. Of a file's name everything but Escape takes it over.
pub proof fn law_editing_ends(e: EditEvent, clipboard: bool)
    ensures
        title_editing(e) is Commit <==> e is Return || e is FocusLost,
        title_editing(e) is Cancel <==> e is Escape || e is ModeLost || e is Deactivated,
        title_editing(e) is Nothing <==> e is Activated,
        title_editing(e) is Commit || title_editing(e) is Cancel || title_editing(e) is Nothing
            || title_editing(e) is Usual,
        file_editing(e, clipboard) is Cancel <==> e is Escape,
        file_editing(e, clipboard) is Commit <==> e is Return || e is FocusLost || e is ModeLost
            || e is Deactivated || e == EditEvent::Character(13) || e == EditEvent::Character(10),
        file_editing(e, clipboard) is Nothing <==> e is Activated,
        file_editing(e, clipboard) is InsertClean <==> e is Paste && clipboard,
        file_editing(e, clipboard) is Fit <==> e is Timer,
        file_editing(e, clipboard) is Usual <==> e is Other,
{
}

proof fn lemma_last_dot(p: Seq<char>, e: Seq<char>)
    requires
        !e.contains('.'),
    ensures
        last_dot(p + seq!['.'] + e) == Some(p.len() as int),
        last_dot(e) is None,
    decreases e.len(),
{
    let s = p + seq!['.'] + e;
    if e.len() > 0 {
        let h = e.drop_last();
        assert(!h.contains('.')) by {
            if h.contains('.') {
                let i = choose|i: int| 0 <= i < h.len() && h[i] == '.';
                assert(e[i] == '.');
            }
        }
        lemma_last_dot(p, h);
        assert(s.drop_last() =~= p + seq!['.'] + h);
        assert(e[e.len() - 1] == e.last());
        assert(s.last() == e.last());
    } else {
        assert(s.last() == '.');
    }
}

/// The editor of a file's name preselects what stands before its extension; a name without
/// one, or that begins with its only dot, is preselected whole.
pub proof fn law_extension_is_not_preselected(p: Seq<char>, e: Seq<char>)
    requires
        !e.contains('.'),
    ensures
        p.len() > 0 ==> selection_end(p + seq!['.'] + e) == utf16::encoded(p).len(),
        selection_end(seq!['.'] + e) == -1,
        selection_end(e) == -1,
{
    lemma_last_dot(p, e);
    assert((p + seq!['.'] + e).take(p.len() as int) =~= p);
    let none = Seq::<char>::empty();
    lemma_last_dot(none, e);
    assert(none + seq!['.'] + e =~= seq!['.'] + e);
}

/// A name is refused for a control character or one of nine signs; one that is empty,
/// unchanged or of no file closes the editor; every other renames the file, without the
/// white space around it.
pub proof fn law_names_hold_no_signs(
    path: Option<Seq<char>>,
    old_name: Seq<char>,
    typed: Seq<char>,
)
    ensures
        ({
            let name = text::trimmed(typed);
            let r = commit_of(path, old_name, typed);
            let idle = path is None || path->0.len() == 0 || name.len() == 0 || name == old_name;
            let bad = exists|i: int|
                0 <= i < name.len() && {
                    let c = #[trigger] name[i];
                    (c as int) < 32 || 127 <= (c as int) < 160 || c == '\\' || c == '/' || c == ':'
                        || c == '*' || c == '?' || c == '"' || c == '<' || c == '>' || c == '|'
                };
            &&& r is Close <==> idle
            &&& r is Refuse <==> !idle && bad
            &&& r is Rename <==> !idle && !bad
            &&& r is Rename ==> r->name == name
        }),
{
    let name = text::trimmed(typed);
    if exists|i: int| 0 <= i < name.len() && forbidden(#[trigger] name[i]) {
        let i = choose|i: int| 0 <= i < name.len() && forbidden(#[trigger] name[i]);
        let c = name[i];
        assert((c as int) < 32 || 127 <= (c as int) < 160 || c == '\\' || c == '/' || c == ':' || c
            == '*' || c == '?' || c == '"' || c == '<' || c == '>' || c == '|');
    }
    if exists|i: int|
        0 <= i < name.len() && {
            let c = #[trigger] name[i];
            (c as int) < 32 || 127 <= (c as int) < 160 || c == '\\' || c == '/' || c == ':' || c
                == '*' || c == '?' || c == '"' || c == '<' || c == '>' || c == '|'
        } {
        let i = choose|i: int|
            0 <= i < name.len() && {
                let c = #[trigger] name[i];
                (c as int) < 32 || 127 <= (c as int) < 160 || c == '\\' || c == '/' || c == ':' || c
                    == '*' || c == '?' || c == '"' || c == '<' || c == '>' || c == '|'
            };
        assert(forbidden(name[i]));
    }
}

/// A renamed file keeps its place everywhere: in the lists and the order of every fence its
/// new path stands where the old one stood, it has its new name and the category that the
/// name gives it, and nothing else changes.
pub proof fn law_renamed_file_keeps_its_place(
    d: DeskView,
    from: Seq<char>,
    to: Seq<char>,
    name: Seq<char>,
    i: int,
    k: int,
)
    ensures
        ({
            let e = desk_after_rename(d, from, to, name);
            &&& (e.table, e.epoch) == (d.table, d.epoch)
            &&& e.fences.len() == d.fences.len()
            &&& e.files.len() == d.files.len()
            &&& 0 <= i < d.fences.len() ==> {
                let (f, g) = (d.fences[i], e.fences[i]);
                &&& g == (FenceView { pinned: g.pinned, item_order: g.item_order, ..f })
                &&& g.pinned.len() == f.pinned.len()
                &&& g.item_order.len() == f.item_order.len()
                &&& 0 <= k < f.pinned.len() ==> g.pinned[k] == (if f.pinned[k] == from {
                    to
                } else {
                    f.pinned[k]
                })
                &&& 0 <= k < f.item_order.len() ==> g.item_order[k] == (if f.item_order[k] == from {
                    to
                } else {
                    f.item_order[k]
                })
            }
            &&& 0 <= i < d.files.len() && d.files[i].path != from ==> e.files[i] == d.files[i]
            &&& 0 <= i < d.files.len() && d.files[i].path == from ==> e.files[i].path == to
                && e.files[i].name == name && e.files[i].is_dir == d.files[i].is_dir
                && e.files[i].mtime_ms == d.files[i].mtime_ms && e.files[i].ext == d.files[i].ext
        }),
{
}

/// A renamed file stays selected where it was; the focus and the anchor follow it.
pub proof fn law_renamed_file_stays_selected(
    s: SelectionView,
    from: Seq<char>,
    to: Seq<char>,
    x: Seq<char>,
)
    requires
        from != to,
    ensures
        ({
            let t = repathed_selection(s, from, to);
            &&& x != from && x != to ==> (t.paths.contains(x) <==> s.paths.contains(x))
            &&& t.paths.contains(to) <==> s.paths.contains(to) || s.paths.contains(from)
            &&& !t.paths.contains(from)
            &&& s.focused == Some(from) ==> t.focused == Some(to)
            &&& s.focused != Some(from) ==> t.focused == s.focused
            &&& s.anchor == Some(from) ==> t.anchor == Some(to)
            &&& s.anchor != Some(from) ==> t.anchor == s.anchor
        }),
{
    selection::lemma_without_text(s.paths, from);
    let w = selection::without_text(s.paths, from);
    assert(w.contains(x) <==> s.paths.contains(x) && x != from);
    assert(w.contains(to) <==> s.paths.contains(to) && to != from);
    assert(w.contains(from) <==> s.paths.contains(from) && from != from);
    selection::lemma_push_contains(w, to, x);
    selection::lemma_push_contains(w, to, to);
    selection::lemma_push_contains(w, to, from);
}

proof fn lemma_collapsed_flag(s: Seq<char>)
    ensures
        collapsed(s).1 <==> collapsed(s).0.len() > 0 && collapsed(s).0.last() == ' ',
    decreases s.len(),
{
    if s.len() > 0 {
        lemma_collapsed_flag(s.drop_last());
    }
}

/// Pasted text is taken character by character: blanks, tabs and line ends in a row become
/// one blank, other control characters are left out, and everything else stays.
pub proof fn law_pasted_text_is_collapsed(s: Seq<char>, c: char)
    ensures
        ({
            let was = collapsed(s).0;
            let now = collapsed(s.push(c)).0;
            let blank = c == ' ' || c == '\t' || c == '\n' || c == '\r';
            &&& collapsed(Seq::empty()).0.len() == 0
            &&& blank && was.len() > 0 && was.last() == ' ' ==> now == was
            &&& blank && !(was.len() > 0 && was.last() == ' ') ==> now == was.push(' ')
            &&& !blank && ((c as int) < 32 || 127 <= (c as int) < 160) ==> now == was
            &&& !blank && !((c as int) < 32 || 127 <= (c as int) < 160) ==> now == was.push(c)
        }),
{
    lemma_collapsed_flag(s);
    assert(s.push(c).drop_last() =~= s);
}

/// The editor is as wide as the text, from 66 to a cell, and ten pixels for its border; it
/// is as high as the lines with the border, one line at least and the screen at most.
pub proof fn law_editor_fits_its_text(m: EditorMeasure)
    requires
        66 <= m.cell_w,
        m.screen_top < m.screen_bottom,
    ensures
        66 <= m.break_w <= m.cell_w ==> editor_w(m) == m.break_w + 10,
        m.break_w < 66 ==> editor_w(m) == 76,
        m.break_w > m.cell_w ==> editor_w(m) == m.cell_w + 10,
        ({
            let client = if m.bottom - m.top > 1 {
                m.bottom - m.top
            } else {
                1
            };
            let format = match m.format_h {
                Some(h) => h as int,
                None => if client - m.usual_pad > 1 {
                    client - m.usual_pad
                } else {
                    1
                },
            };
            let pad = if client - format > m.least_pad {
                client - format
            } else {
                m.least_pad as int
            };
            let screen = m.screen_bottom - m.screen_top;
            &&& editor_h(m) <= screen
            &&& m.lines_h + pad >= screen ==> editor_h(m) == screen
            &&& m.line_h <= m.lines_h && m.lines_h + pad <= screen ==> editor_h(m) == m.lines_h
                + pad
            &&& m.lines_h < m.line_h && m.line_h + pad <= screen ==> editor_h(m) == m.line_h + pad
        }),
{
}

/// The editor stands in the middle of the name where the screen has room for that, and else
/// at the side of the screen; it keeps its top where it fits below it.
pub proof fn law_editor_stands_in_the_middle(m: EditorMeasure, c: i32)
    requires
        m.center == Some(c),
        66 <= m.cell_w,
    ensures
        ({
            let w = editor_w(m);
            let x = c - w / 2;
            let y = editor_place(m).1;
            &&& m.screen_left <= x && x + w <= m.screen_right ==> editor_place(m).0 == x
            &&& x < m.screen_left ==> editor_place(m).0 == m.screen_left
            &&& x >= m.screen_left && x + w > m.screen_right && m.screen_left + w
                <= m.screen_right ==> editor_place(m).0 == m.screen_right - w
            &&& m.screen_top <= m.top && m.top + editor_h(m) <= m.screen_bottom ==> y == m.top
            &&& m.top < m.screen_top ==> y == m.screen_top
        }),
{
}

/// Without a middle of its own the editor keeps that of its frame.
pub proof fn law_editor_keeps_its_middle(m: EditorMeasure)
    requires
        m.center is None,
        66 <= m.cell_w,
        m.left <= m.right,
    ensures
        ({
            let x = m.left + (m.right - m.left) / 2 - editor_w(m) / 2;
            m.screen_left <= x && x + editor_w(m) <= m.screen_right ==> editor_place(m).0 == x
        }),
{
}

/// A number is kept within two bounds.
pub proof fn law_numbers_are_kept_within_bounds(v: int, lo: int, hi: int, a: int)
    requires
        lo <= hi,
    ensures
        lo <= v <= hi ==> within(v, lo, hi) == v,
        v < lo ==> within(v, lo, hi) == lo,
        v > hi ==> within(v, lo, hi) == hi,
        greater(v, a) >= v && greater(v, a) >= a && (greater(v, a) == v || greater(v, a) == a),
        v >= 0 ==> half(v) == v / 2,
        v < 0 ==> half(v) == -((-v) / 2),
        fits(v) <==> -0x8000_0000 <= v <= 0x7fff_ffff,
{
}

/// A renamed file that comes into another category brings back that category's fence, which
/// may have been deleted; other categories keep what is noted of them, and so do all where the
/// file stays in its own.
pub proof fn law_deletions_stay_noted(
    d: DeskView,
    from: Seq<char>,
    to: Seq<char>,
    name: Seq<char>,
    i: int,
    cat: Seq<char>,
)
    requires
        0 <= i < d.files.len(),
        d.files[i].path == from,
        forall|j: int| 0 <= j < i ==> (#[trigger] d.files[j]).path != from,
    ensures
        ({
            let e = desk_after_rename(d, from, to, name);
            let c = model::category_of(d.table, name, d.files[i].is_dir);
            &&& e.files[i].category == c
            &&& c == d.files[i].category ==> e.deleted_at == d.deleted_at
            &&& c != d.files[i].category ==> e.deleted_at == d.deleted_at.remove(c)
        }),
{
    let paths = Seq::new(d.files.len(), |k: int| d.files[k].path);
    assert forall|j: int| 0 <= j < i implies #[trigger] paths[j] != from by {
        assert(d.files[j].path != from);
    }
    text::lemma_first_index_at(paths, from, i);
}

} // verus!

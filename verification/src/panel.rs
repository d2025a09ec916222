//! The panel of the categories: a row for each, with its name, its extensions and a
//! button that deletes it.
use crate::desk;
use crate::desk::{Cleaned, Desk, DeskView};
use crate::keys;
use crate::lang;
use crate::lang::Lang;
use crate::model;
use crate::model::{CategoryDef, CategoryView};
use crate::rename;
use crate::selection;
use crate::text;
use vstd::prelude::*;

verus! {

/// A row of the panel.
pub struct PanelRow {
    pub name: String,
    /// The extensions, as the row shows them.
    pub exts: String,
    pub locked_name: bool,
    pub locked_exts: bool,
}

/// The contents of a `PanelRow`.
pub struct RowView {
    pub name: Seq<char>,
    pub exts: Seq<char>,
    pub locked_name: bool,
    pub locked_exts: bool,
}

impl View for PanelRow {
    type V = RowView;

    open spec fn view(&self) -> RowView {
        RowView {
            name: self.name@,
            exts: self.exts@,
            locked_name: self.locked_name,
            locked_exts: self.locked_exts,
        }
    }
}

/// The contents of the rows.
pub open spec fn row_views(v: Seq<PanelRow>) -> Seq<RowView> {
    Seq::new(v.len(), |i: int| v[i]@)
}

/// The row of a category. The category for everything else keeps its name, and it
/// and the one for folders have no extensions to change.
pub open spec fn row_of(c: CategoryView, l: Lang) -> RowView {
    let fallback = c.name == model::FALLBACK_CATEGORY@;
    RowView {
        name: c.name,
        exts: if c.dirs {
            lang::pick(l, "(目录)"@, "(dirs)"@)
        } else {
            text::joined(c.exts, ";"@)
        },
        locked_name: fallback,
        locked_exts: fallback || c.dirs,
    }
}

/// The rows of the table.
pub open spec fn rows_of(t: Seq<CategoryView>, l: Lang) -> Seq<RowView> {
    Seq::new(t.len(), |i: int| row_of(t[i], l))
}

/// The rows with which the panel opens.
pub fn panel_rows(table: &Vec<CategoryDef>, l: Lang) -> (r: Vec<PanelRow>)
    ensures
        row_views(r@) == rows_of(model::table_view(table@), l),
{
    let ghost t = model::table_view(table@);
    let mut out: Vec<PanelRow> = Vec::new();
    let mut i: usize = 0;
    while i < table.len()
        invariant
            i <= table.len(),
            t == model::table_view(table@),
            out@.len() == i,
            forall|k: int| 0 <= k < i ==> (#[trigger] out@[k])@ == rows_of(t, l)[k],
        decreases table.len() - i,
    {
        let c = &table[i];
        assert(t[i as int] == c@);
        let fallback = text::same(c.name.as_str(), model::FALLBACK_CATEGORY);
        let exts = if c.dirs {
            text::own(lang::dirs_marker(l))
        } else {
            text::join(&c.exts, ";")
        };
        out.push(
            PanelRow {
                name: c.name.clone(),
                exts,
                locked_name: fallback,
                locked_exts: fallback || c.dirs,
            },
        );
        i = i + 1;
    }
    assert(row_views(out@) =~= rows_of(t, l));
    out
}

// ---------------------------------------------------------------- controls

/// The number of the button that adds a category.
pub const ID_ADD: isize = 0x2FF;

/// The number of rows at which no more are added.
pub const ROW_LIMIT: usize = 130;

/// The numbers of the controls of the row `i`: its name, its extensions and its
/// button.
pub fn control_ids(i: usize) -> (r: (isize, isize, isize))
    requires
        0x102 + 3 * i <= isize::MAX,
    ensures
        r.0 == 0x100 + 3 * i,
        r.1 == 0x101 + 3 * i,
        r.2 == 0x102 + 3 * i,
{
    let k: isize = i as isize;
    (0x100 + 3 * k, 0x101 + 3 * k, 0x102 + 3 * k)
}

/// What a button of the panel does.
#[derive(Clone, Copy, PartialEq, Eq, Structural)]
pub enum Click {
    Add,
    Delete(usize),
    Nothing,
}

/// What the button `id` does in a panel of `n` rows.
pub open spec fn click_of(id: int, n: int) -> Click {
    if id == ID_ADD {
        Click::Add
    } else if id >= 0x102 && (id - 0x102) % 3 == 0 && (id - 0x102) / 3 < n {
        Click::Delete(((id - 0x102) / 3) as usize)
    } else {
        Click::Nothing
    }
}

/// What the button `id` does in a panel of `n` rows.
pub fn clicked(id: isize, n: usize) -> (r: Click)
    ensures
        r == click_of(id as int, n as int),
{
    if id == ID_ADD {
        return Click::Add;
    }
    if id >= 0x102 {
        let k: usize = (id - 0x102) as usize;
        if k % 3 == 0 && k / 3 < n {
            return Click::Delete(k / 3);
        }
    }
    Click::Nothing
}

/// The button of a row deletes that row, and a name's field does nothing. Nor does a
/// field of extensions, as long as rows can still be added.
pub proof fn law_buttons_are_told_apart(i: int, n: int)
    requires
        0 <= i < n,
    ensures
        click_of(0x102 + 3 * i, n) == Click::Delete(i as usize),
        click_of(0x100 + 3 * i, n) == Click::Nothing,
        n <= ROW_LIMIT ==> click_of(0x101 + 3 * i, n) == Click::Nothing,
{
}

/// What a key does in the panel.
#[derive(Clone, Copy, PartialEq, Eq, Structural)]
pub enum PanelKey {
    Close,
    /// What is edited is taken over.
    Commit,
    /// The key is not the panel's.
    Pass,
}

/// What a message does to an open panel: only a key pressed in one of its controls
/// does anything.
pub fn panel_message(open: bool, key_down: bool, in_panel: bool, vk: u32) -> (r: PanelKey)
    ensures
        r == (if !open || !key_down || !in_panel {
            PanelKey::Pass
        } else if vk == keys::VK_ESCAPE {
            PanelKey::Close
        } else if vk == keys::VK_RETURN {
            PanelKey::Commit
        } else {
            PanelKey::Pass
        }),
{
    if !open || !key_down || !in_panel {
        PanelKey::Pass
    } else if vk == keys::VK_ESCAPE {
        PanelKey::Close
    } else if vk == keys::VK_RETURN {
        PanelKey::Commit
    } else {
        PanelKey::Pass
    }
}

// ---------------------------------------------------------------- changing a name

/// What a row's field is to show, where that is not what was typed.
pub open spec fn shown(r: Option<String>) -> Option<Seq<char>> {
    text::opt_text(r)
}

/// The panel, the desk and the text of the field after the name `typed` of the row
/// `i` was taken over.
pub open spec fn name_committed(
    rows: Seq<RowView>,
    d: DeskView,
    i: int,
    typed: Seq<char>,
) -> (Seq<RowView>, DeskView, Option<Seq<char>>) {
    let was = rows[i].name;
    let name = text::trimmed(typed);
    if name == was {
        (rows, d, None)
    } else if rows[i].locked_name || name.len() == 0 || !desk::rename_allowed(
        was,
        name,
        d.table,
    ) {
        (rows, d, Some(was))
    } else {
        (
            rows.update(i, RowView { name, ..rows[i] }),
            desk::renamed_desk(d, was, text::trimmed(name)),
            None,
        )
    }
}

/// Takes over the name `typed` of the row `i`. Returns what the field shows instead,
/// where the name is refused.
pub fn commit_row(rows: &mut Vec<PanelRow>, desk: &mut Desk, i: usize, typed: &str) -> (r: Option<
    String,
>)
    requires
        old(desk).wf(),
        i < old(rows).len(),
    ensures
        final(desk).wf(),
        (row_views(final(rows)@), final(desk)@, shown(r)) == name_committed(
            row_views(old(rows)@),
            old(desk)@,
            i as int,
            typed@,
        ),
        final(rows).len() == old(rows).len(),
{
    let ghost was = row_views(rows@);
    let name = text::trim(typed);
    let from = rows[i].name.clone();
    assert(was[i as int] == rows@[i as int]@);
    if text::same(name.as_str(), from.as_str()) {
        return None;
    }
    if rows[i].locked_name || text::chars_of(name.as_str()).len() == 0 {
        return Some(from);
    }
    if !desk::apply_category_rename(desk, from.as_str(), name.as_str()) {
        return Some(from);
    }
    let ghost n = name@;
    rows[i].name = name;
    assert(row_views(rows@) =~= was.update(i as int, RowView { name: n, ..was[i as int] }));
    None
}

// ---------------------------------------------------------------- changing the extensions

/// A character that separates extensions.
pub open spec fn separates(c: char) -> bool {
    c == ',' || c == '，' || c == ' ' || c == '；' || c == ';'
}

/// The pieces of a text between its separators.
pub open spec fn pieces(s: Seq<char>) -> Seq<Seq<char>>
    decreases s.len(),
{
    if s.len() == 0 {
        seq![Seq::<char>::empty()]
    } else {
        let p = pieces(s.drop_last());
        if separates(s.last()) {
            p.push(Seq::empty())
        } else {
            p.update(p.len() - 1, p.last().push(s.last()))
        }
    }
}

/// The extensions among some pieces, each once.
pub open spec fn extensions_of(p: Seq<Seq<char>>) -> Seq<Seq<char>>
    decreases p.len(),
{
    if p.len() == 0 {
        Seq::empty()
    } else {
        let r = extensions_of(p.drop_last());
        let e = desk::clean_ext(p.last());
        if e.len() == 0 {
            r
        } else {
            selection::with_text(r, e)
        }
    }
}

fn split_pieces(s: &str) -> (r: Vec<String>)
    ensures
        text::texts(r@) == pieces(s@),
{
    let v = text::chars_of(s);
    let mut out: Vec<String> = Vec::new();
    let mut cur: Vec<char> = Vec::new();
    let mut i: usize = 0;
    proof {
        assert(v@.take(0) =~= Seq::empty());
        assert(text::texts(out@).push(cur@) =~= pieces(v@.take(0)));
    }
    while i < v.len()
        invariant
            i <= v.len(),
            text::texts(out@).push(cur@) == pieces(v@.take(i as int)),
        decreases v.len() - i,
    {
        let ghost p = pieces(v@.take(i as int));
        let ghost head = text::texts(out@);
        let ghost c0 = cur@;
        proof {
            assert(v@.take(i + 1).drop_last() =~= v@.take(i as int));
            assert(v@.take(i + 1).last() == v@[i as int]);
            assert(p.last() == c0);
        }
        let c = v[i];
        if c == ',' || c == '，' || c == ' ' || c == '；' || c == ';' {
            let ghost before = out@;
            let done = text::string_of(&cur, 0, cur.len());
            assert(cur@.subrange(0, cur@.len() as int) =~= cur@);
            out.push(done);
            cur = Vec::new();
            assert(text::texts(out@) =~= head.push(c0));
            assert(text::texts(out@).push(cur@) =~= p.push(Seq::empty()));
        } else {
            cur.push(c);
            assert(head.push(cur@) =~= p.update(p.len() - 1, c0.push(c)));
        }
        i = i + 1;
    }
    assert(v@.take(v@.len() as int) =~= v@);
    let ghost head = text::texts(out@);
    let done = text::string_of(&cur, 0, cur.len());
    assert(cur@.subrange(0, cur@.len() as int) =~= cur@);
    out.push(done);
    assert(text::texts(out@) =~= head.push(cur@));
    out
}

/// The extensions that a typed text lists.
pub fn typed_extensions(s: &str) -> (r: Vec<String>)
    ensures
        text::texts(r@) == extensions_of(pieces(s@)),
{
    let list = split_pieces(s);
    let ghost p = text::texts(list@);
    let mut out: Vec<String> = Vec::new();
    let mut i: usize = 0;
    assert(p.take(0) =~= Seq::empty());
    assert(text::texts(out@) =~= Seq::empty());
    while i < list.len()
        invariant
            i <= list.len(),
            p == text::texts(list@),
            text::texts(out@) == extensions_of(p.take(i as int)),
        decreases list.len() - i,
    {
        assert(p.take(i + 1).drop_last() =~= p.take(i as int));
        assert(p.take(i + 1).last() == list@[i as int]@);
        let e = desk::clean_extension(list[i].as_str());
        if text::chars_of(e.as_str()).len() > 0 {
            selection::add_text(&mut out, e.as_str());
        }
        i = i + 1;
    }
    assert(p.take(p.len() as int) =~= p);
    out
}

/// The panel, the desk and the text of the field after the extensions `typed` of the
/// row `i` were taken over: a list that another category shares is refused.
pub open spec fn exts_committed(
    rows: Seq<RowView>,
    d: DeskView,
    i: int,
    typed: Seq<char>,
) -> (Seq<RowView>, DeskView, Option<Seq<char>>) {
    let row = rows[i];
    let list = extensions_of(pieces(typed));
    if typed == row.exts {
        (rows, d, None)
    } else if row.locked_exts || row.name == model::FALLBACK_CATEGORY@ {
        (rows, d, Some(row.exts))
    } else {
        match desk::cleaned(row.name, list, d.table) {
            Cleaned::Taken(_) => (rows, d, Some(row.exts)),
            Cleaned::Kept(k) => {
                let exts = text::joined(k, ";"@);
                (
                    rows.update(i, RowView { exts, ..row }),
                    desk::retaught_desk(d, row.name, k),
                    Some(exts),
                )
            },
        }
    }
}

/// Takes over the extensions `typed` of the row `i`. Returns what the field shows
/// then, where that is not what was typed.
pub fn commit_exts(rows: &mut Vec<PanelRow>, desk: &mut Desk, i: usize, typed: &str) -> (r: Option<
    String,
>)
    requires
        old(desk).wf(),
        i < old(rows).len(),
        desk::room_to_teach(
            old(desk)@,
            old(rows)@[i as int].name@,
            extensions_of(pieces(typed@)),
        ),
    ensures
        final(desk).wf(),
        (row_views(final(rows)@), final(desk)@, shown(r)) == exts_committed(
            row_views(old(rows)@),
            old(desk)@,
            i as int,
            typed@,
        ),
        final(rows).len() == old(rows).len(),
{
    let ghost was = row_views(rows@);
    assert(was[i as int] == rows@[i as int]@);
    let before = rows[i].exts.clone();
    if text::same(typed, before.as_str()) {
        return None;
    }
    if rows[i].locked_exts {
        return Some(before);
    }
    let name = rows[i].name.clone();
    if text::same(name.as_str(), model::FALLBACK_CATEGORY) {
        return Some(before);
    }
    let list = typed_extensions(typed);
    let kept = match desk::normalize_exts_for(name.as_str(), &list, &desk.table) {
        Err(_) => {
            return Some(before);
        },
        Ok(k) => k,
    };
    let done = desk::apply_category_exts(desk, name.as_str(), &list);
    assert(done);
    let exts = text::join(&kept, ";");
    let ghost e = exts@;
    let again = exts.clone();
    rows[i].exts = exts;
    assert(row_views(rows@) =~= was.update(i as int, RowView { exts: e, ..was[i as int] }));
    Some(again)
}

// ---------------------------------------------------------------- deleting and adding

/// The panel and the desk after the button of the row `i` was clicked, with `typed`
/// in its name field.
pub open spec fn row_deleted(
    rows: Seq<RowView>,
    d: DeskView,
    i: int,
    typed: Seq<char>,
    now: u64,
) -> (Seq<RowView>, DeskView, bool) {
    let (kept, e, _) = name_committed(rows, d, i, typed);
    if kept[i].name == model::FALLBACK_CATEGORY@ {
        (kept, e, false)
    } else {
        (kept.remove(i), desk::desk_without_category(e, kept[i].name, now), true)
    }
}

/// Deletes the category of the row `i`, with the name that is being typed taken over
/// first. False for the category for everything else.
pub fn do_delete(
    rows: &mut Vec<PanelRow>,
    desk: &mut Desk,
    i: usize,
    typed: &str,
    now: u64,
) -> (r: bool)
    requires
        old(desk).wf(),
        i < old(rows).len(),
        ({
            let (kept, e, _) = name_committed(
                row_views(old(rows)@),
                old(desk)@,
                i as int,
                typed@,
            );
            desk::room_to_delete(e, kept[i as int].name, now)
        }),
    ensures
        final(desk).wf(),
        (row_views(final(rows)@), final(desk)@, r) == row_deleted(
            row_views(old(rows)@),
            old(desk)@,
            i as int,
            typed@,
            now,
        ),
{
    let _ = commit_row(rows, desk, i, typed);
    let ghost kept = row_views(rows@);
    assert(kept[i as int] == rows@[i as int]@);
    let name = rows[i].name.clone();
    if !desk::apply_category_delete(desk, name.as_str(), now) {
        return false;
    }
    let _ = rows.remove(i);
    assert(row_views(rows@) =~= kept.remove(i as int));
    true
}

/// What is being typed in a name field of the panel: the row and the text.
pub struct Typing {
    pub row: usize,
    pub text: String,
}

/// The panel and the desk after what is being typed was taken over.
pub open spec fn typing_committed(
    rows: Seq<RowView>,
    d: DeskView,
    typing: Option<Typing>,
) -> (Seq<RowView>, DeskView) {
    match typing {
        Some(t) => {
            let (r, e, _) = name_committed(rows, d, t.row as int, t.text@);
            (r, e)
        },
        None => (rows, d),
    }
}

/// The row of a new category.
pub open spec fn fresh_row(name: Seq<char>) -> RowView {
    RowView { name, exts: Seq::empty(), locked_name: false, locked_exts: false }
}

/// Adds a category, with the name that is being typed taken over first, and gives
/// its name. A panel with as many rows as it can have refuses.
pub fn do_add(
    rows: &mut Vec<PanelRow>,
    desk: &mut Desk,
    typing: &Option<Typing>,
    l: Lang,
) -> (r: Option<String>)
    requires
        old(desk).wf(),
        old(desk)@.table.len() < usize::MAX,
        desk::greatest_id(old(desk)@.fences) < u32::MAX,
        typing matches Some(t) ==> t.row < old(rows).len(),
    ensures
        final(desk).wf(),
        old(rows).len() >= ROW_LIMIT ==> r is None && row_views(final(rows)@) == row_views(
            old(rows)@,
        ) && final(desk)@ == old(desk)@,
        old(rows).len() < ROW_LIMIT ==> {
            let (kept, e) = typing_committed(row_views(old(rows)@), old(desk)@, *typing);
            let base = lang::pick(l, "新分类"@, "New category"@);
            &&& r matches Some(name) && desk::is_first_free(
                text::trimmed(base),
                model::table_names(e.table),
                name@,
            ) && row_views(final(rows)@) == kept.push(fresh_row(name@)) && final(desk)@
                == desk::desk_with_category(e, name@)
        },
{
    if rows.len() >= ROW_LIMIT {
        return None;
    }
    match typing {
        Some(t) => {
            let _ = commit_row(rows, desk, t.row, t.text.as_str());
        },
        None => {},
    }
    let ghost kept = row_views(rows@);
    let ghost e = desk@;
    proof {
        lemma_commit_keeps_ids(row_views(old(rows)@), old(desk)@, *typing);
        lemma_base(l);
    }
    let base = lang::new_category_base(l);
    match desk::apply_category_add(desk, base) {
        None => None,
        Some(name) => {
            let exts = String::new();
            assert(exts@ =~= Seq::empty());
            let shown_name = name.clone();
            rows.push(
                PanelRow { name: shown_name, exts, locked_name: false, locked_exts: false },
            );
            assert(row_views(rows@) =~= kept.push(fresh_row(name@)));
            Some(name)
        },
    }
}

proof fn lemma_commit_keeps_ids(rows: Seq<RowView>, d: DeskView, typing: Option<Typing>)
    ensures
        typing_committed(rows, d, typing).1.table.len() == d.table.len(),
        desk::greatest_id(typing_committed(rows, d, typing).1.fences) == desk::greatest_id(
            d.fences,
        ),
{
    let e = typing_committed(rows, d, typing).1;
    assert(e.fences.len() == d.fences.len());
    assert(forall|i: int| 0 <= i < e.fences.len() ==> e.fences[i].id == d.fences[i].id);
    desk::lemma_greatest_id_same(e.fences, d.fences);
}

proof fn lemma_base(l: Lang)
    ensures
        text::trimmed(lang::pick(l, "新分类"@, "New category"@)).len() > 0,
{
    reveal_strlit("新分类");
    reveal_strlit("New category");
    text::lemma_trimmed_keeps_start(lang::pick(l, "新分类"@, "New category"@));
}

// ---------------------------------------------------------------- places

/// The measures of the panel, in pixels.
#[derive(Clone, Copy)]
pub struct PanelDims {
    pub pad: i32,
    pub row_h: i32,
    pub gap: i32,
    pub del_w: i32,
    pub width: i32,
    pub name_w: i32,
}

/// The top of the row `i`, and, for the number of rows, of the button below them.
pub open spec fn row_top(d: PanelDims, i: int) -> int {
    d.pad + i * (d.row_h + d.gap)
}

/// Where the parts of a row stand.
pub struct RowPlace {
    pub top: i32,
    pub name_x: i32,
    pub exts_x: i32,
    pub exts_w: i32,
    pub del_x: i32,
}

/// The left side of the extensions of a row.
pub open spec fn exts_left(d: PanelDims) -> int {
    d.pad + d.name_w + 4
}

/// The width of the extensions of a row.
pub open spec fn exts_width(d: PanelDims) -> int {
    d.width - d.pad * 2 - d.del_w - d.name_w - 8
}

/// The left side of the button of a row.
pub open spec fn del_left(d: PanelDims) -> int {
    d.width - d.pad - d.del_w
}

/// `p` is where the parts of the row `i` stand.
pub open spec fn is_place(p: RowPlace, d: PanelDims, i: int) -> bool {
    &&& p.top == row_top(d, i)
    &&& p.name_x == d.pad
    &&& p.exts_x == exts_left(d)
    &&& p.exts_w == exts_width(d)
    &&& p.del_x == del_left(d)
}

/// 32 bits hold the places of a panel with `n` rows.
pub open spec fn places_fit(d: PanelDims, n: int) -> bool {
    &&& rename::fits(row_top(d, n + 1))
    &&& n > 0 ==> rename::fits(exts_left(d)) && rename::fits(exts_width(d)) && rename::fits(
        del_left(d),
    )
}

/// A top between two that 32 bits hold is one too.
proof fn lemma_tops_fit(d: PanelDims, i: int, n: int)
    requires
        0 <= i <= n,
        rename::fits(row_top(d, n)),
    ensures
        rename::fits(row_top(d, i)),
        row_top(d, i + 1) == row_top(d, i) + d.row_h + d.gap,
{
    let step = d.row_h + d.gap;
    assert((i + 1) * step == i * step + step) by (nonlinear_arith);
    if step >= 0 {
        assert(0 <= i * step <= n * step) by (nonlinear_arith)
            requires
                0 <= i <= n,
                step >= 0,
        ;
    } else {
        assert(n * step <= i * step <= 0) by (nonlinear_arith)
            requires
                0 <= i <= n,
                step < 0,
        ;
    }
}

/// Where the parts of each row stand, the top of the button below them, and the
/// height of it all.
pub fn layout_rows(d: &PanelDims, n: usize) -> (r: (Vec<RowPlace>, i32, i32))
    requires
        places_fit(*d, n as int),
    ensures
        r.0@.len() == n,
        forall|i: int| 0 <= i < n ==> is_place(#[trigger] r.0@[i], *d, i),
        r.1 == row_top(*d, n as int),
        r.2 == row_top(*d, n + 1),
{
    let step: i64 = d.row_h as i64 + d.gap as i64;
    let exts_x: i64 = d.pad as i64 + d.name_w as i64 + 4;
    let exts_w: i64 = d.width as i64 - d.pad as i64 * 2 - d.del_w as i64 - d.name_w as i64 - 8;
    let del_x: i64 = d.width as i64 - d.pad as i64 - d.del_w as i64;
    let mut out: Vec<RowPlace> = Vec::new();
    let mut i: usize = 0;
    let mut top: i64 = d.pad as i64;
    assert(0 * (d.row_h + d.gap) == 0) by (nonlinear_arith);
    while i < n
        invariant
            places_fit(*d, n as int),
            i <= n,
            step == d.row_h + d.gap,
            top == row_top(*d, i as int),
            exts_x == exts_left(*d),
            exts_w == exts_width(*d),
            del_x == del_left(*d),
            out@.len() == i,
            forall|k: int| 0 <= k < i ==> is_place(#[trigger] out@[k], *d, k),
        decreases n - i,
    {
        proof {
            lemma_tops_fit(*d, i as int, n + 1);
        }
        out.push(
            RowPlace {
                top: top as i32,
                name_x: d.pad,
                exts_x: exts_x as i32,
                exts_w: exts_w as i32,
                del_x: del_x as i32,
            },
        );
        top = top + step;
        i = i + 1;
    }
    proof {
        lemma_tops_fit(*d, n as int, n + 1);
    }
    (out, top as i32, (top + step) as i32)
}

/// The rows stand below each other and apart, and the button below them all.
pub proof fn law_rows_stand_apart(d: PanelDims, i: int, j: int)
    requires
        d.row_h + d.gap >= 0,
        0 <= i < j,
    ensures
        row_top(d, i) + d.row_h + d.gap <= row_top(d, j),
{
    assert(i * (d.row_h + d.gap) + (d.row_h + d.gap) <= j * (d.row_h + d.gap))
        by (nonlinear_arith)
        requires
            0 <= i < j,
            d.row_h + d.gap >= 0,
    ;
}

/// The screens, as one rectangle.
#[derive(Clone, Copy)]
pub struct Screens {
    pub x: i32,
    pub y: i32,
    pub w: i32,
    pub h: i32,
}

/// Where the panel opens: above the pointer, its middle over it, on the screens.
pub fn open_panel_at(s: &Screens, x: i32, y: i32, w: i32, h: i32) -> (r: (i32, i32))
    requires
        rename::fits(s.x + s.w - w),
        rename::fits(s.y + s.h - h),
    ensures
        r.0 == rename::within(
            x - rename::half(w as int),
            s.x as int,
            rename::greater(s.x + s.w - w, s.x as int),
        ),
        r.1 == rename::within(
            y - h - 12,
            s.y as int,
            rename::greater(s.y + s.h - h, s.y as int),
        ),
{
    let right: i64 = rename::larger(s.x as i64 + s.w as i64 - w as i64, s.x as i64);
    let bottom: i64 = rename::larger(s.y as i64 + s.h as i64 - h as i64, s.y as i64);
    (
        rename::clamp(x as i64 - rename::halved(w as i64), s.x as i64, right) as i32,
        rename::clamp(y as i64 - h as i64 - 12, s.y as i64, bottom) as i32,
    )
}

// ---------------------------------------------------------------- what the panel does

/// A row shows its category: the name, and the extensions with `;` between them, or a remark
/// where it takes folders. The fallback can be changed in nothing, and the category of
/// folders not in its extensions.
pub proof fn law_row_shows_its_category(c: CategoryView, l: Lang)
    ensures
        ({
            let r = row_of(c, l);
            &&& r.name == c.name
            &&& c.dirs && l is Zh ==> r.exts == "(目录)"@
            &&& c.dirs && l is En ==> r.exts == "(dirs)"@
            &&& !c.dirs ==> r.exts == text::joined(c.exts, ";"@)
            &&& r.locked_name <==> c.name == "其他"@
            &&& r.locked_exts <==> c.name == "其他"@ || c.dirs
        }),
{
}

/// A click adds where it hits the one button for that, deletes where it hits the third
/// control of a row that there is, and else does nothing.
pub proof fn law_click_hits_its_row(id: int, n: int)
    requires
        0 <= n <= usize::MAX,
    ensures
        click_of(id, n) is Add <==> id == 0x2FF,
        forall|k: int|
            0 <= k < n && id == 0x102 + 3 * k && id != 0x2FF ==> click_of(id, n) == Click::Delete(
                #[trigger] (k as usize),
            ),
        click_of(id, n) matches Click::Delete(k) ==> k < n && id == 0x102 + 3 * k,
{
}

/// A name that is committed renames the category where it is new and may be, and is left
/// where it is unchanged; else the old one is shown again. Nothing else of the row changes,
/// and no other row.
pub proof fn law_committed_name_renames(
    rows: Seq<RowView>,
    d: DeskView,
    i: int,
    typed: Seq<char>,
)
    requires
        0 <= i < rows.len(),
    ensures
        ({
            let (r, e, back) = name_committed(rows, d, i, typed);
            let name = text::trimmed(typed);
            let renames = name != rows[i].name && !rows[i].locked_name && name.len() > 0
                && desk::rename_allowed(rows[i].name, name, d.table);
            &&& renames ==> r == rows.update(i, RowView { name, ..rows[i] }) && e
                == desk::renamed_desk(d, rows[i].name, text::trimmed(name)) && back is None
            &&& !renames ==> r == rows && e == d
            &&& !renames && name != rows[i].name ==> back == Some(rows[i].name)
            &&& name == rows[i].name ==> back is None
        }),
{
}

proof fn lemma_no_separator(s: Seq<char>, t: Seq<char>)
    requires
        forall|i: int| 0 <= i < t.len() ==> !separates(#[trigger] t[i]),
    ensures
        pieces(s).len() > 0,
        pieces(s + t) == pieces(s).drop_last().push(pieces(s).last() + t),
    decreases s.len() + t.len(),
{
    lemma_some_piece(s);
    if t.len() > 0 {
        let h = t.drop_last();
        assert forall|i: int| 0 <= i < h.len() implies !separates(#[trigger] h[i]) by {
            assert(h[i] == t[i]);
        }
        lemma_no_separator(s, h);
        assert((s + t).drop_last() =~= s + h);
        assert((s + t).last() == t.last());
        assert(!separates(t[t.len() - 1]));
        let p = pieces(s + h);
        assert(pieces(s + t) == p.update(p.len() - 1, p.last().push(t.last())));
        assert((pieces(s).last() + h).push(t.last()) =~= pieces(s).last() + t);
        assert(pieces(s + t) =~= pieces(s).drop_last().push(pieces(s).last() + t));
    } else {
        assert(s + t =~= s);
        assert(pieces(s).last() + t =~= pieces(s).last());
        assert(pieces(s).drop_last().push(pieces(s).last()) =~= pieces(s));
    }
}

proof fn lemma_some_piece(s: Seq<char>)
    ensures
        pieces(s).len() > 0,
    decreases s.len(),
{
    if s.len() > 0 {
        lemma_some_piece(s.drop_last());
    }
}

/// A typed list falls apart at commas, semicolons and blanks: what follows the last of them
/// is a piece of its own, and so is a list without any.
pub proof fn law_list_falls_apart_at_separators(s: Seq<char>, c: char, t: Seq<char>)
    requires
        c == ',' || c == ';' || c == ' ' || c == '，' || c == '；',
        forall|i: int|
            0 <= i < t.len() ==> {
                let x = #[trigger] t[i];
                x != ',' && x != ';' && x != ' ' && x != '，' && x != '；'
            },
    ensures
        pieces(s + seq![c] + t) == pieces(s).push(t),
        pieces(t) == seq![t],
{
    assert forall|i: int| 0 <= i < t.len() implies !separates(#[trigger] t[i]) by {
        let x = t[i];
        assert(x != ',' && x != ';' && x != ' ' && x != '，' && x != '；');
    }
    let none = Seq::<char>::empty();
    let u = s + seq![c];
    assert(u.drop_last() =~= s);
    assert(u.last() == c);
    lemma_no_separator(u, t);
    assert(pieces(u) == pieces(s).push(none));
    assert(pieces(u).drop_last() =~= pieces(s));
    assert(none + t =~= t);
    lemma_no_separator(none, t);
    assert(pieces(none).drop_last() =~= Seq::<Seq<char>>::empty());
    assert(pieces(none).last() =~= none);
    assert(Seq::<Seq<char>>::empty().push(t) =~= seq![t]);
}

/// The extensions of a typed list are its pieces as extensions are kept, those that are not
/// empty, each once.
pub proof fn law_typed_extensions_are_the_pieces(p: Seq<Seq<char>>, x: Seq<char>)
    ensures
        extensions_of(p).contains(x) <==> x.len() > 0 && exists|i: int|
            0 <= i < p.len() && desk::clean_ext(#[trigger] p[i]) == x,
        extensions_of(p).no_duplicates(),
    decreases p.len(),
{
    let r = extensions_of(p);
    if p.len() > 0 {
        let h = p.drop_last();
        law_typed_extensions_are_the_pieces(h, x);
        let q = extensions_of(h);
        let e = desk::clean_ext(p.last());
        assert(p[p.len() - 1] == p.last());
        if q.contains(x) {
            let i = choose|i: int| 0 <= i < h.len() && desk::clean_ext(#[trigger] h[i]) == x;
            assert(p[i] == h[i]);
            let k = choose|k: int| 0 <= k < q.len() && q[k] == x;
            assert(r[k] == x);
        }
        if r.contains(x) && !q.contains(x) {
            let k = choose|k: int| 0 <= k < r.len() && r[k] == x;
            if k < q.len() {
                assert(q[k] == x);
            }
        }
        if x.len() > 0 && exists|i: int|
            0 <= i < p.len() && desk::clean_ext(#[trigger] p[i]) == x {
            let i = choose|i: int| 0 <= i < p.len() && desk::clean_ext(#[trigger] p[i]) == x;
            if i < h.len() {
                assert(h[i] == p[i]);
            } else if !q.contains(x) {
                assert(r[r.len() - 1] == x);
            }
        }
    }
}

/// Extensions that are committed are taught to the category and shown as they are kept; a
/// list that is unchanged is left, and one that may not be, or that holds an extension of
/// another category, is shown as it was.
pub proof fn law_committed_extensions_are_taught(
    rows: Seq<RowView>,
    d: DeskView,
    i: int,
    typed: Seq<char>,
)
    requires
        0 <= i < rows.len(),
    ensures
        ({
            let (r, e, back) = exts_committed(rows, d, i, typed);
            let c = desk::cleaned(rows[i].name, extensions_of(pieces(typed)), d.table);
            let locked = rows[i].locked_exts || rows[i].name == "其他"@;
            &&& typed == rows[i].exts ==> r == rows && e == d && back is None
            &&& typed != rows[i].exts && (locked || c is Taken) ==> r == rows && e == d && back
                == Some(rows[i].exts)
            &&& typed != rows[i].exts && !locked && c is Kept ==> {
                let shown = text::joined(c->Kept_0, ";"@);
                &&& back == Some(shown)
                &&& r == rows.update(i, RowView { exts: shown, ..rows[i] })
                &&& e == desk::retaught_desk(d, rows[i].name, c->Kept_0)
            }
        }),
{
}

/// A row is deleted with its category, under the name that was typed last; that of the
/// fallback stays.
pub proof fn law_deleted_row_is_gone(
    rows: Seq<RowView>,
    d: DeskView,
    i: int,
    typed: Seq<char>,
    now: u64,
)
    requires
        0 <= i < rows.len(),
    ensures
        ({
            let (kept, e, _) = name_committed(rows, d, i, typed);
            let (r, f, gone) = row_deleted(rows, d, i, typed, now);
            &&& gone <==> kept[i].name != "其他"@
            &&& gone ==> r == kept.take(i) + kept.skip(i + 1) && f == desk::desk_without_category(
                e,
                kept[i].name,
                now,
            )
            &&& !gone ==> r == kept && f == e
        }),
{
    let kept = name_committed(rows, d, i, typed).0;
    assert(kept.remove(i) =~= kept.take(i) + kept.skip(i + 1));
}

/// A new row has the name of its category, no extensions, and can be changed.
pub proof fn law_new_row_is_empty(name: Seq<char>)
    ensures
        fresh_row(name).name == name,
        fresh_row(name).exts.len() == 0,
        !fresh_row(name).locked_name,
        !fresh_row(name).locked_exts,
{
}

/// The rows stand at even distances from the padding on. In a row the name, the extensions
/// and the button follow each other with four pixels between them, up to the padding on the
/// right.
pub proof fn law_row_fills_the_width(d: PanelDims, i: int)
    ensures
        row_top(d, 0) == d.pad,
        row_top(d, i + 1) == row_top(d, i) + d.row_h + d.gap,
        exts_left(d) == d.pad + d.name_w + 4,
        exts_left(d) + exts_width(d) + 4 == del_left(d),
        del_left(d) + d.del_w + d.pad == d.width,
{
    assert(0 * (d.row_h + d.gap) == 0) by (nonlinear_arith);
    assert((i + 1) * (d.row_h + d.gap) == i * (d.row_h + d.gap) + (d.row_h + d.gap))
        by (nonlinear_arith);
}

/// What is being typed is committed before anything else is done, as the name of its row.
pub proof fn law_typing_is_committed_first(rows: Seq<RowView>, d: DeskView, t: Typing)
    ensures
        typing_committed(rows, d, None) == (rows, d),
        typing_committed(rows, d, Some(t)) == (
            name_committed(rows, d, t.row as int, t.text@).0,
            name_committed(rows, d, t.row as int, t.text@).1,
        ),
{
}

/// The panel has room for 130 rows, and the controls of the last one come before the button
/// that adds a row.
pub proof fn law_panel_has_room(i: int)
    requires
        0 <= i < ROW_LIMIT,
    ensures
        i < 130,
        ROW_LIMIT == 130,
        0x102 + 3 * i < ID_ADD,
        ID_ADD == 0x2FF,
{
}

/// Typed extensions stand as they were typed.
pub proof fn law_typed_extensions_keep_their_order(p: Seq<Seq<char>>, u: int, v: int)
    requires
        0 <= u < v < extensions_of(p).len(),
    ensures
        exists|i: int|
            0 <= i < p.len() && desk::clean_ext(#[trigger] p[i]) == extensions_of(p)[u] && forall|
                j: int,
            |
                0 <= j <= i ==> desk::clean_ext(#[trigger] p[j]) != extensions_of(p)[v],
    decreases p.len(),
{
    let h = p.drop_last();
    let (was, out) = (extensions_of(h), extensions_of(p));
    if v < was.len() {
        law_typed_extensions_keep_their_order(h, u, v);
        let i = choose|i: int|
            0 <= i < h.len() && desk::clean_ext(#[trigger] h[i]) == was[u] && forall|j: int|
                0 <= j <= i ==> desk::clean_ext(#[trigger] h[j]) != was[v];
        assert(p[i] == h[i]);
        assert(out[u] == was[u] && out[v] == was[v]);
        assert forall|j: int| 0 <= j <= i implies desk::clean_ext(#[trigger] p[j]) != out[v] by {
            assert(h[j] == p[j]);
        }
    } else {
        law_typed_extensions_are_the_pieces(h, out[u]);
        law_typed_extensions_are_the_pieces(h, out[v]);
        assert(was[u] == out[u]);
        assert(was.contains(out[u]));
        assert(!was.contains(out[v]));
        let i = choose|i: int| 0 <= i < h.len() && desk::clean_ext(#[trigger] h[i]) == out[u];
        assert(p[i] == h[i]);
        assert forall|j: int| 0 <= j <= i implies desk::clean_ext(#[trigger] p[j]) != out[v] by {
            assert(h[j] == p[j]);
        }
    }
}

} // verus!

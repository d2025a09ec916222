//! The fences that a desktop starts with.
use crate::desk;
use crate::desk::{Desk, DeskView};
use crate::lang;
use crate::lang::Lang;
use crate::model;
use crate::model::{CategoryDef, CategoryView, Fence, FenceView, FileItem, FileView};
use crate::text;
use vstd::prelude::*;

verus! {

/// How many files have the category `cat`.
pub open spec fn files_of(files: Seq<FileView>, cat: Seq<char>) -> nat
    decreases files.len(),
{
    if files.len() == 0 {
        0
    } else {
        files_of(files.drop_last(), cat) + (if files.last().category == cat {
            1nat
        } else {
            0nat
        })
    }
}

fn count_of(files: &Vec<FileItem>, cat: &str) -> (r: usize)
    ensures
        r == files_of(model::file_views(files@), cat@),
        r <= files.len(),
{
    let ghost f = model::file_views(files@);
    let mut n: usize = 0;
    let mut i: usize = 0;
    assert(f.take(0) =~= Seq::empty());
    while i < files.len()
        invariant
            i <= files.len(),
            n <= i,
            f == model::file_views(files@),
            n == files_of(f.take(i as int), cat@),
        decreases files.len() - i,
    {
        assert(f.take(i + 1).drop_last() =~= f.take(i as int));
        assert(f.take(i + 1).last() == files@[i as int]@);
        if text::same(files[i].category.as_str(), cat) {
            n = n + 1;
        }
        i = i + 1;
    }
    assert(f.take(f.len() as int) =~= f);
    n
}

/// The columns of a new fence for `n` files: one for fewer than five, else two.
pub open spec fn default_cols(n: int) -> usize {
    if n < 5 {
        1
    } else {
        2
    }
}

/// The columns of a new fence for `n` files.
pub fn columns_for(n: usize) -> (r: usize)
    ensures
        r == default_cols(n as int),
{
    if n < 5 {
        1
    } else {
        2
    }
}

/// The rows of a new fence.
pub const DEFAULT_ROWS: usize = 4;

/// The fences for `table`: one for each category that has files, in its order, with
/// the numbers from 1 on, each with its columns.
pub open spec fn global_config(files: Seq<FileView>, table: Seq<CategoryView>) -> Seq<
    (FenceView, usize),
>
    decreases table.len(),
{
    if table.len() == 0 {
        Seq::empty()
    } else {
        let r = global_config(files, table.drop_last());
        let cat = table.last().name;
        let n = files_of(files, cat);
        if n == 0 {
            r
        } else {
            r.push((desk::fresh_fence((r.len() + 1) as u32, cat, cat), default_cols(n as int)))
        }
    }
}

/// The contents of fences with their columns.
pub open spec fn config_views(v: Seq<(Fence, usize)>) -> Seq<(FenceView, usize)> {
    Seq::new(v.len(), |i: int| (v[i].0@, v[i].1))
}

/// The fences that a desktop with `files` starts with, each with its columns.
pub fn build_global_config(files: &Vec<FileItem>, table: &Vec<CategoryDef>) -> (r: Vec<
    (Fence, usize),
>)
    requires
        table.len() < u32::MAX,
    ensures
        config_views(r@) == global_config(model::file_views(files@), model::table_view(table@)),
{
    let ghost f = model::file_views(files@);
    let ghost t = model::table_view(table@);
    let mut out: Vec<(Fence, usize)> = Vec::new();
    let mut i: usize = 0;
    let mut id: u32 = 1;
    assert(t.take(0) =~= Seq::empty());
    assert(config_views(out@) =~= Seq::empty());
    while i < table.len()
        invariant
            i <= table.len() < u32::MAX,
            f == model::file_views(files@),
            t == model::table_view(table@),
            id == out@.len() + 1,
            out@.len() <= i,
            config_views(out@) == global_config(f, t.take(i as int)),
        decreases table.len() - i,
    {
        let ghost before = out@;
        assert(t.take(i + 1).drop_last() =~= t.take(i as int));
        assert(t.take(i + 1).last() == table@[i as int]@);
        assert(config_views(before).len() == before.len());
        let cat = table[i].name.as_str();
        let n: usize = count_of(files, cat);
        if n > 0 {
            let fence = desk::new_fence(id, cat, cat);
            let cols: usize = columns_for(n);
            out.push((fence, cols));
            assert(config_views(out@) =~= config_views(before).push((fence@, cols)));
            id = id + 1;
        }
        i = i + 1;
    }
    assert(t.take(t.len() as int) =~= t);
    out
}

/// The fences alone.
pub open spec fn fences_alone(v: Seq<(FenceView, usize)>) -> Seq<FenceView> {
    Seq::new(v.len(), |i: int| v[i].0)
}

/// The ids of the fences.
pub open spec fn ids_of(f: Seq<FenceView>) -> Seq<u32> {
    Seq::new(f.len(), |i: int| f[i].id)
}

/// The desk after the user deleted the fences `ids`, one after the other.
pub open spec fn all_deleted(d: DeskView, ids: Seq<u32>, now: u64) -> DeskView
    decreases ids.len(),
{
    if ids.len() == 0 {
        d
    } else {
        desk::desk_without_fence(all_deleted(d, ids.drop_last(), now), ids.last(), true, now)
    }
}

/// The fences that a reset gives: those of the files, or one for all of them.
pub open spec fn seeded(files: Seq<FileView>, table: Seq<CategoryView>, title: Seq<char>) -> Seq<
    FenceView,
> {
    let base = fences_alone(global_config(files, table));
    if base.len() > 0 {
        base
    } else {
        seq![desk::fresh_fence(1, title, Seq::empty())]
    }
}

/// Deletes all fences, as the user does, and gives the desktop those it starts with.
/// Returns the columns of each; a fence that stands for no category has none.
pub fn reset_fence_layout(desk: &mut Desk, l: Lang, now: u64) -> (r: Vec<Option<usize>>)
    requires
        old(desk).wf(),
        old(desk).table.len() < u32::MAX,
    ensures
        final(desk).wf(),
        final(desk)@ == (DeskView {
            fences: seeded(
                old(desk)@.files,
                old(desk)@.table,
                lang::pick(l, "桌面整理"@, "Desktop"@),
            ),
            ..all_deleted(old(desk)@, ids_of(old(desk)@.fences), now)
        }),
        r@.len() == final(desk)@.fences.len(),
        forall|i: int|
            0 <= i < r@.len() ==> #[trigger] r@[i] == (if global_config(
                old(desk)@.files,
                old(desk)@.table,
            ).len() > 0 {
                Some(global_config(old(desk)@.files, old(desk)@.table)[i].1)
            } else {
                None
            }),
{
    let ghost start = desk@;
    let mut ids: Vec<u32> = Vec::new();
    let mut i: usize = 0;
    while i < desk.fences.len()
        invariant
            i <= desk.fences.len(),
            ids@ == ids_of(desk@.fences).take(i as int),
        decreases desk.fences.len() - i,
    {
        ids.push(desk.fences[i].id);
        assert(ids@ =~= ids_of(desk@.fences).take(i + 1));
        i = i + 1;
    }
    assert(ids@ =~= ids_of(start.fences));
    let mut k: usize = 0;
    assert(ids@.take(0) =~= Seq::empty());
    while k < ids.len()
        invariant
            k <= ids.len(),
            desk.wf(),
            desk@.table == start.table,
            desk@.files == start.files,
            desk@ == all_deleted(start, ids@.take(k as int), now),
        decreases ids.len() - k,
    {
        assert(ids@.take(k + 1).drop_last() =~= ids@.take(k as int));
        desk::delete_fence(desk, ids[k], now);
        k = k + 1;
    }
    assert(ids@.take(ids@.len() as int) =~= ids@);
    assert(desk@.table.len() == desk.table@.len());
    assert(start.table.len() == old(desk).table@.len());
    let mut base = build_global_config(&desk.files, &desk.table);
    let ghost config = config_views(base@);
    let mut fences: Vec<Fence> = Vec::new();
    let mut cols: Vec<Option<usize>> = Vec::new();
    let ghost pairs = base@;
    let n: usize = base.len();
    let mut j: usize = 0;
    while j < n
        invariant
            j <= n == pairs.len(),
            base@ == pairs.skip(j as int),
            config == config_views(pairs),
            fences@.len() == j,
            cols@.len() == j,
            forall|q: int| 0 <= q < j ==> (#[trigger] fences@[q])@ == config[q].0,
            forall|q: int| 0 <= q < j ==> #[trigger] cols@[q] == Some(config[q].1),
        decreases n - j,
    {
        let (f, c) = base.remove(0);
        assert((f, c) == pairs[j as int]);
        assert(base@ =~= pairs.skip(j + 1));
        assert(config[j as int] == (f@, c));
        fences.push(f);
        cols.push(Some(c));
        j = j + 1;
    }
    if n == 0 {
        let none = String::new();
        assert(none@ =~= Seq::empty());
        fences.push(desk::new_fence(1, lang::seed_desktop_title(l), none.as_str()));
        cols.push(None);
    }
    desk.fences = fences;
    assert(desk@.fences =~= seeded(
        start.files,
        start.table,
        lang::pick(l, "桌面整理"@, "Desktop"@),
    ));
    cols
}

// ---------------------------------------------------------------- laws

proof fn lemma_files_of(files: Seq<FileView>, cat: Seq<char>, i: int)
    requires
        0 <= i < files.len(),
        files[i].category == cat,
    ensures
        files_of(files, cat) > 0,
    decreases files.len(),
{
    if i < files.len() - 1 {
        lemma_files_of(files.drop_last(), cat, i);
    }
}

proof fn lemma_global_config(files: Seq<FileView>, table: Seq<CategoryView>)
    requires
        table.len() < u32::MAX,
    ensures
        global_config(files, table).len() <= table.len(),
        forall|i: int|
            0 <= i < global_config(files, table).len() ==> (#[trigger] global_config(
                files,
                table,
            )[i]).0.id == i + 1,
        forall|k: int|
            0 <= k < table.len() && files_of(files, (#[trigger] table[k]).name) > 0
                ==> exists|i: int|
                0 <= i < global_config(files, table).len() && (#[trigger] global_config(
                    files,
                    table,
                )[i]).0.category == table[k].name,
    decreases table.len(),
{
    if table.len() > 0 {
        let p = table.drop_last();
        lemma_global_config(files, p);
        let (was, out) = (global_config(files, p), global_config(files, table));
        assert forall|i: int| 0 <= i < out.len() implies (#[trigger] out[i]).0.id == i + 1 by {
            if i < was.len() {
                assert(out[i] == was[i]);
            }
        }
        assert forall|k: int|
            0 <= k < table.len() && files_of(files, (#[trigger] table[k]).name)
                > 0 implies exists|i: int|
            0 <= i < out.len() && (#[trigger] out[i]).0.category == table[k].name by {
            if k < p.len() {
                assert(p[k] == table[k]);
                let i = choose|i: int|
                    0 <= i < was.len() && (#[trigger] was[i]).0.category == p[k].name;
                assert(out[i] == was[i]);
            } else {
                assert(out[was.len() as int].0.category == table[k].name);
            }
        }
    }
}

/// The fences that a desktop starts with have different ids, and every file whose
/// category is in the table has a fence of its category.
pub proof fn law_every_category_has_a_fence(
    files: Seq<FileView>,
    table: Seq<CategoryView>,
    f: int,
    k: int,
)
    requires
        table.len() < u32::MAX,
        0 <= f < files.len(),
        0 <= k < table.len(),
        files[f].category == table[k].name,
    ensures
        exists|i: int|
            0 <= i < global_config(files, table).len() && (#[trigger] global_config(
                files,
                table,
            )[i]).0.category == files[f].category,
        forall|i: int, j: int|
            0 <= i < j < global_config(files, table).len() ==> (#[trigger] global_config(
                files,
                table,
            )[i]).0.id != (#[trigger] global_config(files, table)[j]).0.id,
{
    lemma_files_of(files, table[k].name, f);
    lemma_global_config(files, table);
}

proof fn lemma_files_counted(files: Seq<FileView>, cat: Seq<char>)
    ensures
        files_of(files, cat) == files.filter(|f: FileView| f.category == cat).len(),
    decreases files.len(),
{
    reveal(Seq::filter);
    if files.len() > 0 {
        lemma_files_counted(files.drop_last(), cat);
    }
}

/// The fences of a first start: one for each category of the table that some file is in, in
/// the order of the table and numbered from 1; it has one column for fewer than five files
/// and else two.
pub proof fn law_first_fences_follow_the_table(files: Seq<FileView>, table: Seq<CategoryView>)
    requires
        table.len() < u32::MAX,
    ensures
        ({
            let names = model::table_names(table).filter(
                |c: Seq<char>| files.filter(|f: FileView| f.category == c).len() > 0,
            );
            global_config(files, table) == Seq::new(
                names.len(),
                |i: int|
                    (
                        desk::fresh_fence((i + 1) as u32, names[i], names[i]),
                        if files.filter(|f: FileView| f.category == names[i]).len() < 5 {
                            1usize
                        } else {
                            2usize
                        },
                    ),
            )
        }),
    decreases table.len(),
{
    reveal(Seq::filter);
    let all = model::table_names(table);
    let held = |c: Seq<char>| files.filter(|f: FileView| f.category == c).len() > 0;
    let names = all.filter(held);
    let out = global_config(files, table);
    let want = Seq::new(
        names.len(),
        |i: int|
            (
                desk::fresh_fence((i + 1) as u32, names[i], names[i]),
                if files.filter(|f: FileView| f.category == names[i]).len() < 5 {
                    1usize
                } else {
                    2usize
                },
            ),
    );
    if table.len() > 0 {
        let h = table.drop_last();
        law_first_fences_follow_the_table(files, h);
        let was = model::table_names(h);
        assert(all.drop_last() =~= was);
        let cat = table.last().name;
        assert(all.last() == cat);
        lemma_files_counted(files, cat);
        was.lemma_filter_len(held);
        let fewer = was.filter(held);
        if held(cat) {
            assert(names == fewer.push(cat));
            assert forall|i: int| 0 <= i < want.len() implies want[i] == out[i] by {
                if i < fewer.len() {
                    assert(names[i] == fewer[i]);
                }
            }
        } else {
            assert(names == fewer);
        }
        assert(out =~= want);
    } else {
        assert(out =~= want);
    }
}

/// Where no file is in any category there is one fence, without a category.
pub proof fn law_there_is_always_a_fence(
    files: Seq<FileView>,
    table: Seq<CategoryView>,
    title: Seq<char>,
)
    ensures
        seeded(files, table, title).len() > 0,
        global_config(files, table).len() == 0 ==> seeded(files, table, title) == seq![
            desk::fresh_fence(1, title, Seq::empty()),
        ],
        global_config(files, table).len() > 0 ==> seeded(files, table, title).len()
            == global_config(files, table).len() && forall|i: int|
            0 <= i < global_config(files, table).len() ==> #[trigger] seeded(files, table, title)[i]
                == global_config(files, table)[i].0,
{
}

proof fn lemma_reset_step(d: DeskView, now: u64, n: int)
    requires
        0 < n <= d.fences.len(),
        forall|i: int, j: int|
            0 <= i < j < d.fences.len() ==> (#[trigger] d.fences[i]).id != (
            #[trigger] d.fences[j]).id,
        all_deleted(d, ids_of(d.fences).take(n - 1), now).fences == d.fences.skip(n - 1),
    ensures
        ({
            let f = all_deleted(d, ids_of(d.fences).take(n - 1), now);
            let e = all_deleted(d, ids_of(d.fences).take(n), now);
            let cat = d.fences[n - 1].category;
            &&& e.fences == d.fences.skip(n)
            &&& (e.table, e.files, e.epoch) == (f.table, f.files, f.epoch)
            &&& e.deleted_at == (if cat.len() > 0 {
                f.deleted_at.insert(cat, now)
            } else {
                f.deleted_at
            })
        }),
{
    let ids = ids_of(d.fences);
    let p = ids.take(n);
    assert(p.drop_last() =~= ids.take(n - 1));
    let f = all_deleted(d, ids.take(n - 1), now);
    let x = d.fences[n - 1];
    assert(p.last() == x.id);
    assert(f.fences[0] == x);
    desk::law_deleted_fence_is_gone(f, x.id, true, now, 0);
    let rest = d.fences.skip(n);
    assert(f.fences =~= seq![x] + rest);
    assert forall|j: int| 0 <= j < rest.len() implies (#[trigger] rest[j]).id != x.id by {
        assert(rest[j] == d.fences[n + j]);
    }
    lemma_first_dropped(x, rest, x.id);
}

/// Resetting the layout notes every category whose fence is taken away, and no other; the
/// files and the table stay.
pub proof fn law_reset_notes_the_categories(d: DeskView, now: u64, n: int, cat: Seq<char>)
    requires
        0 <= n <= d.fences.len(),
        forall|i: int, j: int|
            0 <= i < j < d.fences.len() ==> (#[trigger] d.fences[i]).id != (
            #[trigger] d.fences[j]).id,
    ensures
        ({
            let e = all_deleted(d, ids_of(d.fences).take(n), now);
            let gone = cat.len() > 0 && exists|i: int|
                0 <= i < n && (#[trigger] d.fences[i]).category == cat;
            &&& e.fences == d.fences.skip(n)
            &&& (e.table, e.files, e.epoch) == (d.table, d.files, d.epoch)
            &&& gone ==> e.deleted_at.contains_key(cat) && e.deleted_at[cat] == now
            &&& !gone ==> (e.deleted_at.contains_key(cat) <==> d.deleted_at.contains_key(cat))
                && e.deleted_at[cat] == d.deleted_at[cat]
        }),
    decreases n,
{
    if n > 0 {
        law_reset_notes_the_categories(d, now, n - 1, cat);
        lemma_reset_step(d, now, n);
        let gone = exists|i: int| 0 <= i < n && (#[trigger] d.fences[i]).category == cat;
        if gone && d.fences[n - 1].category != cat {
            let i = choose|i: int| 0 <= i < n && (#[trigger] d.fences[i]).category == cat;
            assert(i < n - 1);
        }
    } else {
        assert(ids_of(d.fences).take(0) =~= Seq::empty());
        assert(d.fences.skip(0) =~= d.fences);
    }
}

proof fn lemma_first_dropped(x: FenceView, rest: Seq<FenceView>, id: u32)
    requires
        x.id == id,
        forall|j: int| 0 <= j < rest.len() ==> (#[trigger] rest[j]).id != id,
    ensures
        (seq![x] + rest).filter(|f: FenceView| f.id != id) == rest,
    decreases rest.len(),
{
    reveal_with_fuel(Seq::filter, 2);
    let keep = |f: FenceView| f.id != id;
    let all = seq![x] + rest;
    if rest.len() > 0 {
        let h = rest.drop_last();
        assert forall|j: int| 0 <= j < h.len() implies (#[trigger] h[j]).id != id by {
            assert(h[j] == rest[j]);
        }
        lemma_first_dropped(x, h, id);
        assert(all.drop_last() =~= seq![x] + h);
        assert(rest[rest.len() - 1].id != id);
        assert(all.filter(keep) == (seq![x] + h).filter(keep).push(all.last()));
        assert(h.push(rest.last()) =~= rest);
    } else {
        assert(all.drop_last() =~= Seq::<FenceView>::empty());
        assert(all.filter(keep) =~= rest);
    }
}

/// A fence of a first start is four rows high.
pub proof fn law_first_fences_are_four_rows_high()
    ensures
        DEFAULT_ROWS == 4,
{
}

} // verus!

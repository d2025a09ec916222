//! The desk: the category table, the scanned files and the fences, and what the
//! user does to categories and fences.
use crate::model;
use crate::model::{CategoryDef, CategoryView, Fence, FenceView, FileItem, FileView};
use crate::text;
use crate::text_map::TextMap;
use vstd::prelude::*;

verus! {

/// The desk.
pub struct Desk {
    pub table: Vec<CategoryDef>,
    pub files: Vec<FileItem>,
    pub fences: Vec<Fence>,
    /// When the user deleted the fence of a category.
    pub deleted_at: TextMap<u64>,
    /// Counts what was changed behind the back of a running scan: a scan that
    /// started under another number is void.
    pub epoch: u64,
}

/// The contents of a `Desk`.
pub struct DeskView {
    pub table: Seq<CategoryView>,
    pub files: Seq<FileView>,
    pub fences: Seq<FenceView>,
    pub deleted_at: Map<Seq<char>, u64>,
    pub epoch: u64,
}

impl View for Desk {
    type V = DeskView;

    open spec fn view(&self) -> DeskView {
        DeskView {
            table: model::table_view(self.table@),
            files: model::file_views(self.files@),
            fences: model::fence_views(self.fences@),
            deleted_at: self.deleted_at@,
            epoch: self.epoch,
        }
    }
}

impl Desk {
    /// No category was deleted twice.
    pub open spec fn wf(&self) -> bool {
        self.deleted_at.wf()
    }
}

/// The number after `e`, 0 after the last.
pub open spec fn next_epoch(e: u64) -> u64 {
    if e < u64::MAX {
        (e + 1) as u64
    } else {
        0
    }
}

/// Voids every scan that is running.
pub fn invalidate_pending_scans(desk: &mut Desk)
    ensures
        final(desk)@ == (DeskView { epoch: next_epoch(old(desk)@.epoch), ..old(desk)@ }),
        final(desk).wf() == old(desk).wf(),
{
    desk.epoch = if desk.epoch < u64::MAX {
        desk.epoch + 1
    } else {
        0
    };
}

/// The number under which a scan starts.
pub fn scan_epoch(desk: &Desk) -> (r: u64)
    ensures
        r == desk@.epoch,
{
    desk.epoch
}

// ---------------------------------------------------------------- names and rules of categories

/// A category may be given the name `new`: it is not blank, not the old name, and
/// no category has it.
pub open spec fn rename_allowed(
    old_name: Seq<char>,
    new_name: Seq<char>,
    table: Seq<CategoryView>,
) -> bool {
    let n = text::trimmed(new_name);
    n.len() > 0 && n != old_name && !model::table_names(table).contains(n)
}

/// Whether a category may be given the name `new_name`.
pub fn validate_category_rename(
    old_name: &str,
    new_name: &str,
    table: &Vec<CategoryDef>,
) -> (r: bool)
    ensures
        r == rename_allowed(old_name@, new_name@, model::table_view(table@)),
{
    let n = text::trim(new_name);
    if n.as_str().is_empty() || text::same(n.as_str(), old_name) {
        return false;
    }
    model::table_position(table, n.as_str()).is_none()
}

/// `s` without the dots it starts with.
pub open spec fn undotted(s: Seq<char>) -> Seq<char>
    decreases s.len(),
{
    if s.len() > 0 && s[0] == '.' {
        undotted(s.drop_first())
    } else {
        s
    }
}

/// An extension as it is kept: without blanks around it and dots before it, in
/// lowercase.
pub open spec fn clean_ext(e: Seq<char>) -> Seq<char> {
    text::lowercase(undotted(text::trimmed(e)))
}

/// An extension as it is kept.
pub fn clean_extension(e: &str) -> (r: String)
    ensures
        r@ == clean_ext(e@),
{
    let t = text::trim(e);
    let v = text::chars_of(t.as_str());
    let mut i: usize = 0;
    assert(v@.subrange(0, v@.len() as int) =~= v@);
    while i < v.len() && v[i] == '.'
        invariant
            i <= v.len(),
            undotted(v@) == undotted(v@.subrange(i as int, v@.len() as int)),
        decreases v.len() - i,
    {
        proof {
            let s = v@.subrange(i as int, v@.len() as int);
            assert(s[0] == v@[i as int]);
            assert(s.drop_first() =~= v@.subrange(i + 1, v@.len() as int));
        }
        i = i + 1;
    }
    proof {
        let s = v@.subrange(i as int, v@.len() as int);
        if i < v.len() {
            assert(s[0] == v@[i as int]);
        }
    }
    text::to_lowercase(text::string_of(&v, i, v.len()).as_str())
}

/// A category other than `name` takes the extension `e`.
pub open spec fn taken_elsewhere(table: Seq<CategoryView>, name: Seq<char>, e: Seq<char>) -> bool {
    exists|i: int|
        0 <= i < table.len() && (#[trigger] table[i]).name != name && table[i].exts.contains(e)
}

/// What becomes of a list of extensions: the list as it is kept, or the first one
/// that another category takes.
pub enum Cleaned {
    Kept(Seq<Seq<char>>),
    Taken(Seq<char>),
}

/// The extensions of `exts` as they are kept for the category `name`: none empty,
/// none twice, in their order; or the first that another category takes.
pub open spec fn cleaned(
    name: Seq<char>,
    exts: Seq<Seq<char>>,
    table: Seq<CategoryView>,
) -> Cleaned
    decreases exts.len(),
{
    if exts.len() == 0 {
        Cleaned::Kept(Seq::empty())
    } else {
        match cleaned(name, exts.drop_last(), table) {
            Cleaned::Taken(e) => Cleaned::Taken(e),
            Cleaned::Kept(k) => {
                let e = clean_ext(exts.last());
                if e.len() == 0 || k.contains(e) {
                    Cleaned::Kept(k)
                } else if taken_elsewhere(table, name, e) {
                    Cleaned::Taken(e)
                } else {
                    Cleaned::Kept(k.push(e))
                }
            },
        }
    }
}

/// What a list of extensions comes to.
pub open spec fn is_cleaned(c: Cleaned, r: Result<Vec<String>, String>) -> bool {
    match c {
        Cleaned::Kept(k) => r matches Ok(v) && text::texts(v@) == k,
        Cleaned::Taken(e) => r matches Err(s) && s@ == e,
    }
}

proof fn lemma_taken_stays(name: Seq<char>, exts: Seq<Seq<char>>, table: Seq<CategoryView>, n: int)
    requires
        0 <= n <= exts.len(),
        cleaned(name, exts.take(n), table) is Taken,
    ensures
        cleaned(name, exts, table) == cleaned(name, exts.take(n), table),
    decreases exts.len() - n,
{
    if n < exts.len() {
        assert(exts.take(n + 1).drop_last() =~= exts.take(n));
        lemma_taken_stays(name, exts, table, n + 1);
    } else {
        assert(exts.take(n) =~= exts);
    }
}

/// The extensions of a category as they are kept, or the first that another
/// category takes.
pub fn normalize_exts_for(name: &str, exts: &Vec<String>, table: &Vec<CategoryDef>) -> (r: Result<
    Vec<String>,
    String,
>)
    ensures
        is_cleaned(cleaned(name@, text::texts(exts@), model::table_view(table@)), r),
{
    let ghost all = text::texts(exts@);
    let ghost t = model::table_view(table@);
    let mut out: Vec<String> = Vec::new();
    let mut i: usize = 0;
    assert(text::texts(out@) =~= Seq::empty());
    while i < exts.len()
        invariant
            i <= exts.len(),
            all == text::texts(exts@),
            t == model::table_view(table@),
            cleaned(name@, all.take(i as int), t) == Cleaned::Kept(text::texts(out@)),
        decreases exts.len() - i,
    {
        let ghost before = out@;
        proof {
            assert(all.take(i + 1).drop_last() =~= all.take(i as int));
            assert(all.take(i + 1).last() == exts@[i as int]@);
        }
        let e = clean_extension(exts[i].as_str());
        if !e.as_str().is_empty() && !text::has_text(&out, e.as_str()) {
            let mut j: usize = 0;
            while j < table.len()
                invariant
                    i < exts.len(),
                    j <= table.len(),
                    all == text::texts(exts@),
                    t == model::table_view(table@),
                    e@ == clean_ext(all[i as int]),
                    e@.len() > 0,
                    !text::texts(out@).contains(e@),
                    cleaned(name@, all.take(i as int), t) == Cleaned::Kept(text::texts(out@)),
                    forall|k: int|
                        0 <= k < j ==> (#[trigger] t[k]).name == name@ || !t[k].exts.contains(e@),
                decreases table.len() - j,
            {
                assert(t[j as int] == table@[j as int]@);
                if !text::same(table[j].name.as_str(), name) && text::has_text(
                    &table[j].exts,
                    e.as_str(),
                ) {
                    proof {
                        assert(all.take(i + 1).drop_last() =~= all.take(i as int));
                        assert(all.take(i + 1).last() == all[i as int]);
                        assert(taken_elsewhere(t, name@, e@));
                        lemma_taken_stays(name@, all, t, i + 1);
                    }
                    return Err(e);
                }
                j = j + 1;
            }
            assert(!taken_elsewhere(t, name@, e@));
            assert(text::texts(before.push(e)) =~= text::texts(before).push(e@));
            out.push(e);
        }
        i = i + 1;
    }
    assert(all.take(all.len() as int) =~= all);
    Ok(out)
}

/// The extensions that are kept are told apart, none is empty, and none is taken
/// by another category.
pub proof fn law_kept_extensions_are_free(
    name: Seq<char>,
    exts: Seq<Seq<char>>,
    table: Seq<CategoryView>,
    kept: Seq<Seq<char>>,
)
    requires
        cleaned(name, exts, table) == Cleaned::Kept(kept),
    ensures
        kept.no_duplicates(),
        forall|i: int|
            0 <= i < kept.len() ==> (#[trigger] kept[i]).len() > 0 && !taken_elsewhere(
                table,
                name,
                kept[i],
            ),
    decreases exts.len(),
{
    if exts.len() > 0 {
        match cleaned(name, exts.drop_last(), table) {
            Cleaned::Taken(e) => {},
            Cleaned::Kept(k) => {
                law_kept_extensions_are_free(name, exts.drop_last(), table, k);
            },
        }
    }
}

/// The name `base` with the number `n` behind it, and without one where `n` is 1.
pub open spec fn numbered(base: Seq<char>, n: nat) -> Seq<char> {
    if n == 1 {
        base
    } else {
        base + text::decimal(n)
    }
}

/// `r` is the first of `base`, `base2`, `base3` and so on that is not taken.
pub open spec fn is_first_free(base: Seq<char>, existing: Seq<Seq<char>>, r: Seq<char>) -> bool {
    exists|n: nat|
        n >= 1 && r == #[trigger] numbered(base, n) && !existing.contains(r) && forall|m: nat|
            1 <= m < n ==> existing.contains(#[trigger] numbered(base, m))
}

proof fn lemma_decimal_injective(a: nat, b: nat)
    requires
        text::decimal(a) == text::decimal(b),
    ensures
        a == b,
    decreases a,
{
    let (x, y) = (text::decimal(a), text::decimal(b));
    assert(x.last() == text::digit_of(a % 10));
    assert(y.last() == text::digit_of(b % 10));
    assert(a % 10 == b % 10);
    lemma_decimal_len(a);
    lemma_decimal_len(b);
    if a >= 10 && b >= 10 {
        assert(x.drop_last() =~= text::decimal(a / 10));
        assert(y.drop_last() =~= text::decimal(b / 10));
        lemma_decimal_injective(a / 10, b / 10);
    }
}

proof fn lemma_decimal_len(n: nat)
    ensures
        text::decimal(n).len() >= 1,
        n >= 10 ==> text::decimal(n).len() >= 2,
    decreases n,
{
    if n >= 10 {
        lemma_decimal_len(n / 10);
    }
}

proof fn lemma_numbered_injective(base: Seq<char>, a: nat, b: nat)
    requires
        numbered(base, a) == numbered(base, b),
    ensures
        a == b,
{
    lemma_decimal_len(a);
    lemma_decimal_len(b);
    if a != 1 && b != 1 {
        let (x, y) = (numbered(base, a), numbered(base, b));
        assert(x.skip(base.len() as int) =~= text::decimal(a));
        assert(y.skip(base.len() as int) =~= text::decimal(b));
        lemma_decimal_injective(a, b);
    } else if a != b {
        assert(numbered(base, a).len() != numbered(base, b).len());
    }
}

proof fn lemma_tried_names_fit(base: Seq<char>, existing: Seq<Seq<char>>, n: nat)
    requires
        forall|m: nat| 1 <= m <= n ==> existing.contains(#[trigger] numbered(base, m)),
    ensures
        n <= existing.len(),
{
    let tried = Seq::new(n, |i: int| numbered(base, (i + 1) as nat));
    assert forall|i: int, j: int| 0 <= i < j < tried.len() implies tried[i] != tried[j] by {
        if tried[i] == tried[j] {
            lemma_numbered_injective(base, (i + 1) as nat, (j + 1) as nat);
        }
    }
    assert(tried.no_duplicates());
    tried.unique_seq_to_set();
    vstd::seq_lib::seq_to_set_is_finite(existing);
    existing.lemma_cardinality_of_set();
    assert(tried.to_set().subset_of(existing.to_set())) by {
        assert forall|x: Seq<char>| tried.to_set().contains(x) implies existing.to_set().contains(
            x,
        ) by {
            let i = choose|i: int| 0 <= i < tried.len() && tried[i] == x;
            assert(existing.contains(numbered(base, (i + 1) as nat)));
        }
    }
    vstd::set_lib::lemma_len_subset(tried.to_set(), existing.to_set());
}

/// A name for a new category: `base`, or `base` with the least number from 2 on
/// that makes it new. A blank `base` gives none.
pub fn unique_category_name(base: &str, existing: &Vec<String>) -> (r: Option<String>)
    requires
        existing@.len() < usize::MAX,
    ensures
        match r {
            None => text::trimmed(base@).len() == 0,
            Some(n) => text::trimmed(base@).len() > 0 && is_first_free(
                text::trimmed(base@),
                text::texts(existing@),
                n@,
            ),
        },
{
    let b = text::trim(base);
    if b.as_str().is_empty() {
        return None;
    }
    let ghost taken = text::texts(existing@);
    let mut name = b.clone();
    let mut n: u64 = 1;
    while text::has_text(existing, name.as_str())
        invariant
            taken == text::texts(existing@),
            existing@.len() < usize::MAX,
            1 <= n <= existing@.len() + 1,
            name@ == numbered(b@, n as nat),
            forall|m: nat| 1 <= m < n ==> taken.contains(#[trigger] numbered(b@, m)),
        decreases existing@.len() + 1 - n,
    {
        proof {
            assert forall|m: nat| 1 <= m <= n implies taken.contains(#[trigger] numbered(b@, m)) by {
                if m == n {
                    assert(taken.contains(name@));
                }
            }
            lemma_tried_names_fit(b@, taken, n as nat);
        }
        n = n + 1;
        let digits = text::decimal_string(n);
        name = text::join2(b.as_str(), digits.as_str());
    }
    assert(is_first_free(b@, taken, name@));
    Some(name)
}

// ---------------------------------------------------------------- renaming a category

/// The table with the category `from` named `to`.
pub open spec fn renamed_table(t: Seq<CategoryView>, from: Seq<char>, to: Seq<char>) -> Seq<
    CategoryView,
> {
    Seq::new(
        t.len(),
        |i: int|
            if t[i].name == from {
                CategoryView { name: to, ..t[i] }
            } else {
                t[i]
            },
    )
}

/// The files with those of the category `from` put into `to`.
pub open spec fn refiled(f: Seq<FileView>, from: Seq<char>, to: Seq<char>) -> Seq<FileView> {
    Seq::new(
        f.len(),
        |i: int|
            if f[i].category == from {
                FileView { category: to, ..f[i] }
            } else {
                f[i]
            },
    )
}

/// The fence after its category `from` was named `to`: its title follows where it
/// was the name of the category.
pub open spec fn renamed_fence(f: FenceView, from: Seq<char>, to: Seq<char>) -> FenceView {
    if f.category == from {
        FenceView {
            category: to,
            title: if f.title == from {
                to
            } else {
                f.title
            },
            ..f
        }
    } else {
        f
    }
}

/// The fences after the category `from` was named `to`.
pub open spec fn renamed_fences(f: Seq<FenceView>, from: Seq<char>, to: Seq<char>) -> Seq<
    FenceView,
> {
    Seq::new(f.len(), |i: int| renamed_fence(f[i], from, to))
}

/// The desk after the category `from` was named `to`.
pub open spec fn renamed_desk(d: DeskView, from: Seq<char>, to: Seq<char>) -> DeskView {
    DeskView {
        table: renamed_table(d.table, from, to),
        files: refiled(d.files, from, to),
        fences: renamed_fences(d.fences, from, to),
        deleted_at: d.deleted_at.remove(from),
        epoch: next_epoch(d.epoch),
    }
}

fn rename_in_table(table: &mut Vec<CategoryDef>, from: &str, to: &str)
    ensures
        model::table_view(final(table)@) == renamed_table(
            model::table_view(old(table)@),
            from@,
            to@,
        ),
{
    let ghost was = model::table_view(table@);
    let n: usize = table.len();
    let mut i: usize = 0;
    while i < n
        invariant
            i <= n == table@.len() == was.len(),
            forall|k: int|
                0 <= k < i ==> (#[trigger] table@[k])@ == renamed_table(was, from@, to@)[k],
            forall|k: int| i <= k < n ==> (#[trigger] table@[k])@ == was[k],
        decreases n - i,
    {
        if text::same(table[i].name.as_str(), from) {
            table[i].name = text::own(to);
        }
        i = i + 1;
    }
    assert(model::table_view(table@) =~= renamed_table(was, from@, to@));
}

fn refile(files: &mut Vec<FileItem>, from: &str, to: &str)
    ensures
        model::file_views(final(files)@) == refiled(model::file_views(old(files)@), from@, to@),
{
    let ghost was = model::file_views(files@);
    let n: usize = files.len();
    let mut i: usize = 0;
    while i < n
        invariant
            i <= n == files@.len() == was.len(),
            forall|k: int| 0 <= k < i ==> (#[trigger] files@[k])@ == refiled(was, from@, to@)[k],
            forall|k: int| i <= k < n ==> (#[trigger] files@[k])@ == was[k],
        decreases n - i,
    {
        if text::same(files[i].category.as_str(), from) {
            files[i].category = text::own(to);
        }
        i = i + 1;
    }
    assert(model::file_views(files@) =~= refiled(was, from@, to@));
}

fn rename_fences(fences: &mut Vec<Fence>, from: &str, to: &str)
    ensures
        model::fence_views(final(fences)@) == renamed_fences(
            model::fence_views(old(fences)@),
            from@,
            to@,
        ),
{
    let ghost was = model::fence_views(fences@);
    let n: usize = fences.len();
    let mut i: usize = 0;
    while i < n
        invariant
            i <= n == fences@.len() == was.len(),
            forall|k: int|
                0 <= k < i ==> (#[trigger] fences@[k])@ == renamed_fence(was[k], from@, to@),
            forall|k: int| i <= k < n ==> (#[trigger] fences@[k])@ == was[k],
        decreases n - i,
    {
        if text::same(fences[i].category.as_str(), from) {
            if text::same(fences[i].title.as_str(), from) {
                fences[i].title = text::own(to);
            }
            fences[i].category = text::own(to);
        }
        i = i + 1;
    }
    assert(model::fence_views(fences@) =~= renamed_fences(was, from@, to@));
}

/// Renames a category in the table, of its files and of its fences. A name that is
/// not allowed changes nothing.
pub fn apply_category_rename(desk: &mut Desk, from: &str, to: &str) -> (r: bool)
    requires
        old(desk).wf(),
    ensures
        final(desk).wf(),
        r == rename_allowed(from@, to@, old(desk)@.table),
        final(desk)@ == (if r {
            renamed_desk(old(desk)@, from@, text::trimmed(to@))
        } else {
            old(desk)@
        }),
{
    if !validate_category_rename(from, to, &desk.table) {
        return false;
    }
    let name = text::trim(to);
    rename_in_table(&mut desk.table, from, name.as_str());
    desk.deleted_at.remove(from);
    invalidate_pending_scans(desk);
    refile(&mut desk.files, from, name.as_str());
    rename_fences(&mut desk.fences, from, name.as_str());
    true
}

// ---------------------------------------------------------------- rules of a category

/// The table with the category `name` taking `exts`.
pub open spec fn retaught_table(
    t: Seq<CategoryView>,
    name: Seq<char>,
    exts: Seq<Seq<char>>,
) -> Seq<CategoryView> {
    Seq::new(
        t.len(),
        |i: int|
            if t[i].name == name {
                CategoryView { exts, ..t[i] }
            } else {
                t[i]
            },
    )
}

/// The files with the categories that the table gives them.
pub open spec fn recategorized(f: Seq<FileView>, t: Seq<CategoryView>) -> Seq<FileView> {
    Seq::new(
        f.len(),
        |i: int| FileView { category: model::category_of(t, f[i].name, f[i].is_dir), ..f[i] },
    )
}

/// The desk with the extensions `exts` for the category `name`, and every file sorted
/// anew.
pub open spec fn resorted_desk(d: DeskView, name: Seq<char>, exts: Seq<Seq<char>>) -> DeskView {
    let table = retaught_table(d.table, name, exts);
    DeskView { table, files: recategorized(d.files, table), epoch: next_epoch(d.epoch), ..d }
}

/// The desk after the category `name` was given the extensions `exts`: a category that
/// has files now has a fence for them.
pub open spec fn retaught_desk(d: DeskView, name: Seq<char>, exts: Seq<Seq<char>>) -> DeskView {
    with_missing(resorted_desk(d, name, exts))
}

/// There are ids for the fences that the extensions `exts` of the category `name` call
/// for.
pub open spec fn room_to_teach(d: DeskView, name: Seq<char>, exts: Seq<Seq<char>>) -> bool {
    match cleaned(name, exts, d.table) {
        Cleaned::Kept(k) => name == model::FALLBACK_CATEGORY@ || room_for_missing(
            resorted_desk(d, name, k),
        ),
        Cleaned::Taken(_) => true,
    }
}

fn teach(table: &mut Vec<CategoryDef>, name: &str, exts: &Vec<String>)
    ensures
        model::table_view(final(table)@) == retaught_table(
            model::table_view(old(table)@),
            name@,
            text::texts(exts@),
        ),
{
    let ghost was = model::table_view(table@);
    let n: usize = table.len();
    let mut i: usize = 0;
    while i < n
        invariant
            i <= n == table@.len() == was.len(),
            forall|k: int|
                0 <= k < i ==> (#[trigger] table@[k])@ == retaught_table(
                    was,
                    name@,
                    text::texts(exts@),
                )[k],
            forall|k: int| i <= k < n ==> (#[trigger] table@[k])@ == was[k],
        decreases n - i,
    {
        if text::same(table[i].name.as_str(), name) {
            table[i].exts = text::copy_texts(exts);
        }
        i = i + 1;
    }
    assert(model::table_view(table@) =~= retaught_table(was, name@, text::texts(exts@)));
}

/// Gives every file the category that the table gives it.
pub fn recategorize(files: &mut Vec<FileItem>, table: &Vec<CategoryDef>)
    ensures
        model::file_views(final(files)@) == recategorized(
            model::file_views(old(files)@),
            model::table_view(table@),
        ),
{
    let ghost was = model::file_views(files@);
    let ghost t = model::table_view(table@);
    let n: usize = files.len();
    let mut i: usize = 0;
    while i < n
        invariant
            i <= n == files@.len() == was.len(),
            t == model::table_view(table@),
            forall|k: int| 0 <= k < i ==> (#[trigger] files@[k])@ == recategorized(was, t)[k],
            forall|k: int| i <= k < n ==> (#[trigger] files@[k])@ == was[k],
        decreases n - i,
    {
        let c = model::categorize_with(table, files[i].name.as_str(), files[i].is_dir);
        files[i].category = c;
        i = i + 1;
    }
    assert(model::file_views(files@) =~= recategorized(was, t));
}

/// Gives a category its extensions, sorts every file anew, and makes the fences that
/// are missing then. The fallback takes no extensions, and a list with an extension of
/// another category changes nothing.
pub fn apply_category_exts(desk: &mut Desk, name: &str, exts: &Vec<String>) -> (r: bool)
    requires
        old(desk).wf(),
        room_to_teach(old(desk)@, name@, text::texts(exts@)),
    ensures
        final(desk).wf(),
        match cleaned(name@, text::texts(exts@), old(desk)@.table) {
            Cleaned::Kept(k) => if name@ == model::FALLBACK_CATEGORY@ {
                !r && final(desk)@ == old(desk)@
            } else {
                r && final(desk)@ == retaught_desk(old(desk)@, name@, k)
            },
            Cleaned::Taken(e) => !r && final(desk)@ == old(desk)@,
        },
{
    if text::same(name, model::FALLBACK_CATEGORY) {
        return false;
    }
    match normalize_exts_for(name, exts, &desk.table) {
        Err(e) => false,
        Ok(clean) => {
            teach(&mut desk.table, name, &clean);
            invalidate_pending_scans(desk);
            recategorize(&mut desk.files, &desk.table);
            let _ = ensure_missing_category_fences(desk);
            true
        },
    }
}

// ---------------------------------------------------------------- deleting

/// The fences without those of the id `id`.
pub open spec fn without_fence(f: Seq<FenceView>, id: u32) -> Seq<FenceView>
    decreases f.len(),
{
    if f.len() == 0 {
        Seq::empty()
    } else {
        let r = without_fence(f.drop_last(), id);
        if f.last().id == id {
            r
        } else {
            r.push(f.last())
        }
    }
}

/// The desk after the fence `id` was deleted at `now`: where the user deleted it,
/// and it was the fence of a category, that is noted.
pub open spec fn desk_without_fence(d: DeskView, id: u32, noted: bool, now: u64) -> DeskView {
    match model::fence_at(d.fences, id) {
        None => d,
        Some(i) => DeskView {
            fences: without_fence(d.fences, id),
            deleted_at: if noted && d.fences[i].category.len() > 0 {
                d.deleted_at.insert(d.fences[i].category, now)
            } else {
                d.deleted_at
            },
            ..d
        },
    }
}

fn drop_fences(fences: &mut Vec<Fence>, id: u32)
    ensures
        model::fence_views(final(fences)@) == without_fence(model::fence_views(old(fences)@), id),
{
    let ghost was = model::fence_views(fences@);
    let ghost start = fences@;
    let mut out: Vec<Fence> = Vec::new();
    let n: usize = fences.len();
    let mut i: usize = 0;
    assert(model::fence_views(out@) =~= without_fence(was.take(0), id));
    while i < n
        invariant
            i <= n == start.len() == was.len(),
            was == model::fence_views(start),
            fences@ == start.skip(i as int),
            model::fence_views(out@) == without_fence(was.take(i as int), id),
        decreases n - i,
    {
        let ghost before = out@;
        let f = fences.remove(0);
        proof {
            assert(f == start[i as int]);
            assert(fences@ =~= start.skip(i + 1));
            assert(was.take(i + 1).drop_last() =~= was.take(i as int));
            assert(was.take(i + 1).last() == f@);
        }
        if f.id != id {
            assert(model::fence_views(before.push(f)) =~= model::fence_views(before).push(f@));
            out.push(f);
        }
        i = i + 1;
    }
    assert(was.take(n as int) =~= was);
    *fences = out;
}

/// Deletes the fence `id`, and returns whether there was one. `noted` says that the
/// user did it, so that the fence of a category does not come back by itself.
pub fn delete_fence_ex(desk: &mut Desk, id: u32, noted: bool, now: u64) -> (r: bool)
    requires
        old(desk).wf(),
    ensures
        final(desk).wf(),
        final(desk)@ == desk_without_fence(old(desk)@, id, noted, now),
        r == (model::fence_at(old(desk)@.fences, id) is Some),
{
    match model::fence_position(&desk.fences, id) {
        None => false,
        Some(i) => {
            proof {
                model::lemma_fence_at(desk@.fences, id);
            }
            if noted && !desk.fences[i].category.as_str().is_empty() {
                let cat = desk.fences[i].category.clone();
                desk.deleted_at.insert(cat, now);
            }
            drop_fences(&mut desk.fences, id);
            true
        },
    }
}

/// Deletes the fence `id` as the user does.
pub fn delete_fence(desk: &mut Desk, id: u32, now: u64) -> (r: bool)
    requires
        old(desk).wf(),
    ensures
        final(desk).wf(),
        final(desk)@ == desk_without_fence(old(desk)@, id, true, now),
        r == (model::fence_at(old(desk)@.fences, id) is Some),
{
    delete_fence_ex(desk, id, true, now)
}

/// The table without the category `name`.
pub open spec fn without_category(t: Seq<CategoryView>, name: Seq<char>) -> Seq<CategoryView>
    decreases t.len(),
{
    if t.len() == 0 {
        Seq::empty()
    } else {
        let r = without_category(t.drop_last(), name);
        if t.last().name == name {
            r
        } else {
            r.push(t.last())
        }
    }
}

/// The first fence of the category `name`.
pub open spec fn fence_of_category(f: Seq<FenceView>, name: Seq<char>) -> Option<int>
    decreases f.len(),
{
    if f.len() == 0 {
        None
    } else if f[0].category == name {
        Some(0)
    } else {
        match fence_of_category(f.drop_first(), name) {
            Some(i) => Some(i + 1),
            None => None,
        }
    }
}

/// What `fence_of_category` means: the least index with that category.
pub proof fn lemma_fence_of_category(f: Seq<FenceView>, name: Seq<char>)
    ensures
        match fence_of_category(f, name) {
            Some(i) => 0 <= i < f.len() && f[i].category == name && forall|j: int|
                0 <= j < i ==> (#[trigger] f[j]).category != name,
            None => forall|j: int| 0 <= j < f.len() ==> (#[trigger] f[j]).category != name,
        },
    decreases f.len(),
{
    if f.len() > 0 && f[0].category != name {
        let t = f.drop_first();
        lemma_fence_of_category(t, name);
        assert(forall|j: int| 0 < j < f.len() ==> #[trigger] f[j] == t[j - 1]);
    }
}

/// The desk without the category `name`, deleted at `now`: its fence is gone, and its
/// files are in the fallback, which may have a fence again.
pub open spec fn refiled_desk(d: DeskView, name: Seq<char>, now: u64) -> DeskView {
    let e = match fence_of_category(d.fences, name) {
        Some(i) => desk_without_fence(d, d.fences[i].id, true, now),
        None => d,
    };
    DeskView {
        table: without_category(d.table, name),
        files: refiled(d.files, name, model::FALLBACK_CATEGORY@),
        fences: e.fences,
        deleted_at: e.deleted_at.remove(model::FALLBACK_CATEGORY@),
        epoch: next_epoch(d.epoch),
    }
}

/// The desk after the category `name` was deleted at `now`: what it held is in the
/// fence of the fallback, a new one where there was none.
pub open spec fn desk_without_category(d: DeskView, name: Seq<char>, now: u64) -> DeskView {
    with_missing(refiled_desk(d, name, now))
}

/// There are ids for the fences that are made when the category `name` is deleted.
pub open spec fn room_to_delete(d: DeskView, name: Seq<char>, now: u64) -> bool {
    name == model::FALLBACK_CATEGORY@ || room_for_missing(refiled_desk(d, name, now))
}

fn drop_category(table: &mut Vec<CategoryDef>, name: &str)
    ensures
        model::table_view(final(table)@) == without_category(model::table_view(old(table)@), name@),
{
    let ghost was = model::table_view(table@);
    let ghost start = table@;
    let mut out: Vec<CategoryDef> = Vec::new();
    let n: usize = table.len();
    let mut i: usize = 0;
    assert(model::table_view(out@) =~= without_category(was.take(0), name@));
    while i < n
        invariant
            i <= n == start.len() == was.len(),
            was == model::table_view(start),
            table@ == start.skip(i as int),
            model::table_view(out@) == without_category(was.take(i as int), name@),
        decreases n - i,
    {
        let ghost before = out@;
        let c = table.remove(0);
        proof {
            assert(c == start[i as int]);
            assert(table@ =~= start.skip(i + 1));
            assert(was.take(i + 1).drop_last() =~= was.take(i as int));
            assert(was.take(i + 1).last() == c@);
        }
        if !text::same(c.name.as_str(), name) {
            assert(model::table_view(before.push(c)) =~= model::table_view(before).push(c@));
            out.push(c);
        }
        i = i + 1;
    }
    assert(was.take(n as int) =~= was);
    *table = out;
}

fn find_fence_of(fences: &Vec<Fence>, name: &str) -> (r: Option<usize>)
    ensures
        match r {
            Some(i) => fence_of_category(model::fence_views(fences@), name@) == Some(i as int) && i
                < fences.len(),
            None => fence_of_category(model::fence_views(fences@), name@) is None,
        },
{
    let ghost v = model::fence_views(fences@);
    let mut i: usize = 0;
    while i < fences.len()
        invariant
            i <= fences.len(),
            v == model::fence_views(fences@),
            forall|j: int| 0 <= j < i ==> (#[trigger] v[j]).category != name@,
        decreases fences.len() - i,
    {
        assert(v[i as int] == fences@[i as int]@);
        if text::same(fences[i].category.as_str(), name) {
            proof {
                lemma_fence_of_category(v, name@);
                let k = fence_of_category(v, name@)->0;
                if k < i {
                    assert(v[k].category != name@);
                }
            }
            return Some(i);
        }
        i = i + 1;
    }
    proof {
        lemma_fence_of_category(v, name@);
    }
    None
}

/// Deletes a category, its fence with it, and files what it held under the fallback,
/// which cannot be deleted and gets a fence where it has none. The result says whether
/// the category was deleted.
pub fn apply_category_delete(desk: &mut Desk, name: &str, now: u64) -> (r: bool)
    requires
        old(desk).wf(),
        room_to_delete(old(desk)@, name@, now),
    ensures
        final(desk).wf(),
        r == (name@ != model::FALLBACK_CATEGORY@),
        final(desk)@ == (if r {
            desk_without_category(old(desk)@, name@, now)
        } else {
            old(desk)@
        }),
{
    if text::same(name, model::FALLBACK_CATEGORY) {
        return false;
    }
    match find_fence_of(&desk.fences, name) {
        Some(i) => {
            let id: u32 = desk.fences[i].id;
            delete_fence_ex(desk, id, true, now);
        },
        None => {},
    }
    invalidate_pending_scans(desk);
    refile(&mut desk.files, name, model::FALLBACK_CATEGORY);
    drop_category(&mut desk.table, name);
    desk.deleted_at.remove(model::FALLBACK_CATEGORY);
    let _ = ensure_missing_category_fences(desk);
    true
}

/// After a category is deleted no file is left in it, and none is lost.
pub proof fn law_delete_leaves_no_file_behind(d: DeskView, name: Seq<char>, now: u64, i: int)
    requires
        0 <= i < d.files.len(),
        name != model::FALLBACK_CATEGORY@,
    ensures
        desk_without_category(d, name, now).files.len() == d.files.len(),
        desk_without_category(d, name, now).files[i].category != name,
        desk_without_category(d, name, now).files[i].path == d.files[i].path,
        !model::table_names(desk_without_category(d, name, now).table).contains(name),
{
    lemma_missing_keeps(refiled_desk(d, name, now), without_category(d.table, name));
    lemma_without_category(d.table, name);
    let t = without_category(d.table, name);
    if model::table_names(t).contains(name) {
        let k = choose|k: int| 0 <= k < t.len() && model::table_names(t)[k] == name;
        assert(t[k].name != name);
    }
}

proof fn lemma_without_category(t: Seq<CategoryView>, name: Seq<char>)
    ensures
        forall|k: int|
            0 <= k < without_category(t, name).len() ==> (#[trigger] without_category(
                t,
                name,
            )[k]).name != name,
    decreases t.len(),
{
    if t.len() > 0 {
        let was = without_category(t.drop_last(), name);
        let out = without_category(t, name);
        lemma_without_category(t.drop_last(), name);
        assert forall|k: int| 0 <= k < out.len() implies (#[trigger] out[k]).name != name by {
            if k < was.len() {
                assert(out[k] == was[k]);
            }
        }
    }
}

// ---------------------------------------------------------------- adding

/// The greatest id of the fences, 0 where there is none.
pub open spec fn greatest_id(f: Seq<FenceView>) -> u32
    decreases f.len(),
{
    if f.len() == 0 {
        0
    } else {
        let m = greatest_id(f.drop_last());
        if f.last().id > m {
            f.last().id
        } else {
            m
        }
    }
}

/// The greatest id of the fences.
pub fn max_fence_id(fences: &Vec<Fence>) -> (r: u32)
    ensures
        r == greatest_id(model::fence_views(fences@)),
{
    let ghost v = model::fence_views(fences@);
    let mut m: u32 = 0;
    let mut i: usize = 0;
    while i < fences.len()
        invariant
            i <= fences.len(),
            v == model::fence_views(fences@),
            m == greatest_id(v.take(i as int)),
        decreases fences.len() - i,
    {
        assert(v.take(i + 1).drop_last() =~= v.take(i as int));
        assert(v.take(i + 1).last() == fences@[i as int]@);
        if fences[i].id > m {
            m = fences[i].id;
        }
        i = i + 1;
    }
    assert(v.take(v.len() as int) =~= v);
    m
}

/// No fence has an id above the greatest.
pub proof fn lemma_greatest_id(f: Seq<FenceView>)
    ensures
        forall|i: int| 0 <= i < f.len() ==> (#[trigger] f[i]).id <= greatest_id(f),
    decreases f.len(),
{
    if f.len() > 0 {
        lemma_greatest_id(f.drop_last());
        assert forall|i: int| 0 <= i < f.len() implies (#[trigger] f[i]).id <= greatest_id(f) by {
            if i < f.len() - 1 {
                assert(f[i] == f.drop_last()[i]);
            }
        }
    }
}

/// The greatest id depends on the ids alone.
pub proof fn lemma_greatest_id_same(f: Seq<FenceView>, g: Seq<FenceView>)
    requires
        f.len() == g.len(),
        forall|i: int| 0 <= i < f.len() ==> (#[trigger] f[i]).id == g[i].id,
    ensures
        greatest_id(f) == greatest_id(g),
    decreases f.len(),
{
    if f.len() > 0 {
        assert forall|i: int| 0 <= i < f.drop_last().len() implies (
        #[trigger] f.drop_last()[i]).id == g.drop_last()[i].id by {
            assert(f[i].id == g[i].id);
        }
        lemma_greatest_id_same(f.drop_last(), g.drop_last());
        assert(f[f.len() - 1].id == g[g.len() - 1].id);
    }
}

/// A new, empty fence.
pub open spec fn fresh_fence(id: u32, title: Seq<char>, category: Seq<char>) -> FenceView {
    FenceView {
        id,
        title,
        category,
        pinned: Seq::empty(),
        item_order: Seq::empty(),
        collapsed: false,
        scroll_rows: 0,
        locked: false,
        hidden: false,
        manual_size: false,
        sort_mode: "常用"@,
    }
}

/// A new, empty fence.
pub fn new_fence(id: u32, title: &str, category: &str) -> (r: Fence)
    ensures
        r@ == fresh_fence(id, title@, category@),
{
    let r = Fence {
        id,
        title: text::own(title),
        category: text::own(category),
        pinned: Vec::new(),
        item_order: Vec::new(),
        collapsed: false,
        scroll_rows: 0,
        locked: false,
        hidden: false,
        manual_size: false,
        sort_mode: model::default_sort_mode(),
    };
    assert(r@.pinned =~= Seq::empty());
    assert(r@.item_order =~= Seq::empty());
    r
}

/// Adds an empty fence without a category and returns its id, a new one.
pub fn add_fence_after(desk: &mut Desk, title: &str) -> (r: u32)
    requires
        greatest_id(old(desk)@.fences) < u32::MAX,
    ensures
        r == greatest_id(old(desk)@.fences) + 1,
        final(desk)@ == (DeskView {
            fences: old(desk)@.fences.push(fresh_fence(r, title@, Seq::empty())),
            ..old(desk)@
        }),
        final(desk).wf() == old(desk).wf(),
{
    let ghost was = desk@.fences;
    let id: u32 = max_fence_id(&desk.fences) + 1;
    let none = String::new();
    desk.fences.push(new_fence(id, title, none.as_str()));
    assert(desk@.fences =~= was.push(fresh_fence(id, title@, Seq::empty())));
    id
}

/// The desk after the category `name` was added, with its fence.
pub open spec fn desk_with_category(d: DeskView, name: Seq<char>) -> DeskView {
    DeskView {
        table: d.table.push(CategoryView { name, exts: Seq::empty(), dirs: false }),
        deleted_at: d.deleted_at.remove(name),
        fences: d.fences.push(fresh_fence((greatest_id(d.fences) + 1) as u32, name, name)),
        ..d
    }
}

fn names_of(table: &Vec<CategoryDef>) -> (r: Vec<String>)
    ensures
        text::texts(r@) == model::table_names(model::table_view(table@)),
{
    let mut out: Vec<String> = Vec::new();
    for i in 0..table.len()
        invariant
            out.len() == i,
            forall|j: int| 0 <= j < i ==> (#[trigger] out@[j])@ == table@[j].name@,
    {
        out.push(table[i].name.clone());
    }
    assert(text::texts(out@) =~= model::table_names(model::table_view(table@)));
    out
}

/// Adds a category that takes nothing yet, and its fence, under `base` or the first
/// free name numbered from it.
pub fn apply_category_add(desk: &mut Desk, base: &str) -> (r: Option<String>)
    requires
        old(desk).wf(),
        old(desk)@.table.len() < usize::MAX,
        greatest_id(old(desk)@.fences) < u32::MAX,
    ensures
        final(desk).wf(),
        match r {
            None => text::trimmed(base@).len() == 0 && final(desk)@ == old(desk)@,
            Some(name) => text::trimmed(base@).len() > 0 && is_first_free(
                text::trimmed(base@),
                model::table_names(old(desk)@.table),
                name@,
            ) && final(desk)@ == desk_with_category(old(desk)@, name@),
        },
{
    let existing = names_of(&desk.table);
    assert(existing@.len() == text::texts(existing@).len());
    match unique_category_name(base, &existing) {
        None => None,
        Some(name) => {
            let ghost was = desk@;
            let c = CategoryDef { name: name.clone(), exts: Vec::new(), dirs: false };
            assert(c@.exts =~= Seq::empty());
            desk.table.push(c);
            assert(desk@.table =~= was.table.push(c@));
            desk.deleted_at.remove(name.as_str());
            let id: u32 = max_fence_id(&desk.fences) + 1;
            let f = new_fence(id, name.as_str(), name.as_str());
            desk.fences.push(f);
            assert(desk@.fences =~= was.fences.push(f@));
            Some(name)
        },
    }
}

/// A category that was just added has a name of its own, and its fence an id of
/// its own.
pub proof fn law_added_category_is_new(d: DeskView, base: Seq<char>, name: Seq<char>)
    requires
        is_first_free(base, model::table_names(d.table), name),
        greatest_id(d.fences) < u32::MAX,
    ensures
        !model::table_names(d.table).contains(name),
        forall|i: int|
            0 <= i < d.fences.len() ==> (#[trigger] d.fences[i]).id != desk_with_category(
                d,
                name,
            ).fences.last().id,
{
    lemma_greatest_id(d.fences);
}

// ---------------------------------------------------------------- missing fences

/// Some file calls for a fence of the category `cat`: one that came after `deleted`,
/// the moment at which the user deleted that fence, or any where the user did not.
pub open spec fn called_for(files: Seq<FileView>, cat: Seq<char>, deleted: Option<u64>) -> bool {
    exists|i: int|
        0 <= i < files.len() && (#[trigger] files[i]).category == cat && match deleted {
            Some(t) => files[i].mtime_ms > t,
            None => true,
        }
}

/// The moment at which the user deleted the fence of a category, if they did.
pub open spec fn deletion_of(d: DeskView, cat: Seq<char>) -> Option<u64> {
    if d.deleted_at.contains_key(cat) {
        Some(d.deleted_at[cat])
    } else {
        None
    }
}

/// The category `cat` is called for and has no fence.
pub open spec fn lacks_fence(d: DeskView, cat: Seq<char>) -> bool {
    fence_of_category(d.fences, cat) is None && called_for(d.files, cat, deletion_of(d, cat))
}

/// The desk with a new fence for the category `cat`, whose deletion is forgotten.
pub open spec fn with_category_fence(d: DeskView, cat: Seq<char>) -> DeskView {
    DeskView {
        fences: d.fences.push(fresh_fence((greatest_id(d.fences) + 1) as u32, cat, cat)),
        deleted_at: d.deleted_at.remove(cat),
        ..d
    }
}

/// The desk after each category of `t`, in its order, got a fence where it lacked one,
/// and the names of those categories.
pub open spec fn fenced(d: DeskView, t: Seq<CategoryView>) -> (DeskView, Seq<Seq<char>>)
    decreases t.len(),
{
    if t.len() == 0 {
        (d, Seq::empty())
    } else {
        let (e, names) = fenced(d, t.drop_last());
        let cat = t.last().name;
        if lacks_fence(e, cat) {
            (with_category_fence(e, cat), names.push(cat))
        } else {
            (e, names)
        }
    }
}

/// The desk with the fences that were missing.
pub open spec fn with_missing(d: DeskView) -> DeskView {
    fenced(d, d.table).0
}

/// There are ids for the fences that are missing.
pub open spec fn room_for_missing(d: DeskView) -> bool {
    greatest_id(d.fences) + fenced(d, d.table).1.len() <= u32::MAX
}

/// What new fences leave as it was, and the ids they take.
proof fn lemma_missing_keeps(d: DeskView, t: Seq<CategoryView>)
    ensures
        ({
            let (e, names) = fenced(d, t);
            &&& e.table == d.table
            &&& e.files == d.files
            &&& e.epoch == d.epoch
            &&& greatest_id(d.fences) + names.len() <= u32::MAX ==> greatest_id(e.fences)
                == greatest_id(d.fences) + names.len()
        }),
    decreases t.len(),
{
    if t.len() > 0 {
        lemma_missing_keeps(d, t.drop_last());
        let e = fenced(d, t.drop_last()).0;
        let cat = t.last().name;
        if lacks_fence(e, cat) {
            let all = with_category_fence(e, cat).fences;
            assert(all.drop_last() =~= e.fences);
        }
    }
}

proof fn lemma_more_categories(d: DeskView, t: Seq<CategoryView>, i: int)
    requires
        0 <= i <= t.len(),
    ensures
        fenced(d, t.take(i)).1.len() <= fenced(d, t).1.len(),
    decreases t.len(),
{
    if i == t.len() {
        assert(t.take(i) =~= t);
    } else {
        assert(t.drop_last().take(i) =~= t.take(i));
        lemma_more_categories(d, t.drop_last(), i);
    }
}

fn is_called_for(files: &Vec<FileItem>, cat: &str, deleted: Option<u64>) -> (r: bool)
    ensures
        r == called_for(model::file_views(files@), cat@, deleted),
{
    let ghost v = model::file_views(files@);
    let mut i: usize = 0;
    while i < files.len()
        invariant
            i <= files.len(),
            v == model::file_views(files@),
            forall|j: int|
                0 <= j < i ==> !((#[trigger] v[j]).category == cat@ && match deleted {
                    Some(t) => v[j].mtime_ms > t,
                    None => true,
                }),
        decreases files.len() - i,
    {
        assert(v[i as int] == files@[i as int]@);
        let late = match deleted {
            Some(t) => files[i].mtime_ms > t,
            None => true,
        };
        if late && text::same(files[i].category.as_str(), cat) {
            return true;
        }
        i = i + 1;
    }
    false
}

/// Makes a fence for every category of the table that has files and no fence, and
/// returns the names of those categories. A category whose fence the user deleted gets
/// one only for a file that came after that.
pub fn ensure_missing_category_fences(desk: &mut Desk) -> (r: Vec<String>)
    requires
        old(desk).wf(),
        room_for_missing(old(desk)@),
    ensures
        final(desk).wf(),
        final(desk)@ == with_missing(old(desk)@),
        text::texts(r@) == fenced(old(desk)@, old(desk)@.table).1,
{
    let ghost d = desk@;
    let n: usize = desk.table.len();
    let mut out: Vec<String> = Vec::new();
    let mut i: usize = 0;
    assert(d.table.take(0) =~= Seq::empty());
    assert(text::texts(out@) =~= Seq::empty());
    while i < n
        invariant
            i <= n == desk.table@.len() == d.table.len(),
            desk.wf(),
            room_for_missing(d),
            desk@ == fenced(d, d.table.take(i as int)).0,
            desk@.table == d.table,
            text::texts(out@) == fenced(d, d.table.take(i as int)).1,
        decreases n - i,
    {
        let ghost was = desk@;
        let ghost names = text::texts(out@);
        proof {
            assert(d.table.take(i + 1).drop_last() =~= d.table.take(i as int));
            assert(d.table.take(i + 1).last() == desk.table@[i as int]@);
            lemma_missing_keeps(d, d.table.take(i as int));
            lemma_missing_keeps(d, d.table.take(i + 1));
            lemma_more_categories(d, d.table, i + 1);
        }
        let name = desk.table[i].name.clone();
        let deleted: Option<u64> = match desk.deleted_at.get(name.as_str()) {
            Some(t) => Some(*t),
            None => None,
        };
        let fence = find_fence_of(&desk.fences, name.as_str());
        if fence.is_none() && is_called_for(&desk.files, name.as_str(), deleted) {
            let id: u32 = max_fence_id(&desk.fences) + 1;
            let f = new_fence(id, name.as_str(), name.as_str());
            desk.fences.push(f);
            desk.deleted_at.remove(name.as_str());
            let ghost cat = name@;
            out.push(name);
            proof {
                assert(desk@.fences =~= was.fences.push(f@));
                assert(text::texts(out@) =~= names.push(cat));
            }
        }
        i = i + 1;
    }
    assert(d.table.take(n as int) =~= d.table);
    out
}

proof fn lemma_fences_stay(d: DeskView, t: Seq<CategoryView>, cat: Seq<char>)
    ensures
        fence_of_category(d.fences, cat) is Some ==> fence_of_category(
            fenced(d, t).0.fences,
            cat,
        ) is Some,
        (fenced(d, t).0.deleted_at.contains_key(cat) ==> d.deleted_at.contains_key(cat)
            && fenced(d, t).0.deleted_at[cat] == d.deleted_at[cat]),
    decreases t.len(),
{
    if t.len() > 0 {
        let e = fenced(d, t.drop_last()).0;
        lemma_fences_stay(d, t.drop_last(), cat);
        if lacks_fence(e, t.last().name) && fence_of_category(e.fences, cat) is Some {
            let all = with_category_fence(e, t.last().name).fences;
            lemma_fence_of_category(e.fences, cat);
            lemma_fence_of_category(all, cat);
            let k = fence_of_category(e.fences, cat)->0;
            assert(all[k] == e.fences[k]);
        }
    }
}

proof fn lemma_category_is_fenced(d: DeskView, t: Seq<CategoryView>, k: int, i: int)
    requires
        0 <= k < t.len(),
        0 <= i < d.files.len(),
        d.files[i].category == t[k].name,
        d.deleted_at.contains_key(t[k].name) ==> d.files[i].mtime_ms > d.deleted_at[t[k].name],
    ensures
        fence_of_category(fenced(d, t).0.fences, t[k].name) is Some,
    decreases t.len(),
{
    let cat = t[k].name;
    let e = fenced(d, t.drop_last()).0;
    lemma_missing_keeps(d, t.drop_last());
    lemma_fences_stay(d, t.drop_last(), cat);
    let all = with_category_fence(e, t.last().name).fences;
    if k < t.len() - 1 {
        lemma_category_is_fenced(d, t.drop_last(), k, i);
        if lacks_fence(e, t.last().name) {
            lemma_fence_of_category(e.fences, cat);
            lemma_fence_of_category(all, cat);
            let j = fence_of_category(e.fences, cat)->0;
            assert(all[j] == e.fences[j]);
        }
    } else {
        assert(e.files[i].category == cat);
        lemma_fence_of_category(all, cat);
        assert(all.last().category == cat);
    }
}

/// A file whose category the table has is not without a fence once the missing ones
/// are made, unless the user deleted the fence of the category after the file came.
pub proof fn law_no_file_is_without_fence(d: DeskView, k: int, i: int)
    requires
        0 <= k < d.table.len(),
        0 <= i < d.files.len(),
        d.files[i].category == d.table[k].name,
        deletion_of(d, d.table[k].name) matches Some(t) ==> d.files[i].mtime_ms > t,
    ensures
        fence_of_category(with_missing(d).fences, d.files[i].category) is Some,
{
    lemma_category_is_fenced(d, d.table, k, i);
}

/// What a deleted category held is in a fence: that of the fallback.
pub proof fn law_deleted_files_have_a_fence(
    d: DeskView,
    name: Seq<char>,
    now: u64,
    k: int,
    i: int,
)
    requires
        name != model::FALLBACK_CATEGORY@,
        0 <= k < d.table.len(),
        d.table[k].name == model::FALLBACK_CATEGORY@,
        0 <= i < d.files.len(),
        d.files[i].category == name,
    ensures
        ({
            let e = desk_without_category(d, name, now);
            e.files[i].category == model::FALLBACK_CATEGORY@ && fence_of_category(
                e.fences,
                model::FALLBACK_CATEGORY@,
            ) is Some
        }),
{
    let e = refiled_desk(d, name, now);
    lemma_missing_keeps(e, e.table);
    lemma_keeps_other_category(d.table, name, k);
    let m = choose|m: int| 0 <= m < e.table.len() && e.table[m] == d.table[k];
    assert(e.files[i].category == model::FALLBACK_CATEGORY@);
    lemma_category_is_fenced(e, e.table, m, i);
}

proof fn lemma_keeps_other_category(t: Seq<CategoryView>, name: Seq<char>, k: int)
    requires
        0 <= k < t.len(),
        t[k].name != name,
    ensures
        exists|m: int|
            0 <= m < without_category(t, name).len() && #[trigger] without_category(t, name)[m]
                == t[k],
    decreases t.len(),
{
    let was = without_category(t.drop_last(), name);
    let out = without_category(t, name);
    if k < t.len() - 1 {
        lemma_keeps_other_category(t.drop_last(), name, k);
        let m = choose|m: int| 0 <= m < was.len() && #[trigger] was[m] == t.drop_last()[k];
        assert(out[m] == t[k]);
    } else {
        assert(out[out.len() - 1] == t[k]);
    }
}

proof fn lemma_stays_away(d: DeskView, t: Seq<CategoryView>, cat: Seq<char>)
    requires
        fence_of_category(d.fences, cat) is None,
        !called_for(d.files, cat, deletion_of(d, cat)),
    ensures
        fence_of_category(fenced(d, t).0.fences, cat) is None,
        deletion_of(fenced(d, t).0, cat) == deletion_of(d, cat),
    decreases t.len(),
{
    if t.len() > 0 {
        let e = fenced(d, t.drop_last()).0;
        let other = t.last().name;
        lemma_stays_away(d, t.drop_last(), cat);
        lemma_missing_keeps(d, t.drop_last());
        if lacks_fence(e, other) {
            let all = with_category_fence(e, other).fences;
            lemma_fence_of_category(e.fences, cat);
            lemma_fence_of_category(all, cat);
            if fence_of_category(all, cat) is Some {
                let j = fence_of_category(all, cat)->0;
                if j < e.fences.len() {
                    assert(all[j] == e.fences[j]);
                }
            }
        }
    }
}

/// A fence that the user deleted does not come back by itself as long as no file of
/// its category comes after that, and the deletion stays noted.
pub proof fn law_deleted_fence_stays_away(d: DeskView, cat: Seq<char>, at: u64)
    requires
        fence_of_category(d.fences, cat) is None,
        deletion_of(d, cat) == Some(at),
        forall|i: int|
            0 <= i < d.files.len() && (#[trigger] d.files[i]).category == cat
                ==> d.files[i].mtime_ms <= at,
    ensures
        fence_of_category(with_missing(d).fences, cat) is None,
        deletion_of(with_missing(d), cat) == Some(at),
{
    lemma_stays_away(d, d.table, cat);
}

// ---------------------------------------------------------------- switches of a fence

/// The fences with the first of the id `id` replaced.
pub open spec fn with_fence(f: Seq<FenceView>, id: u32, change: spec_fn(FenceView) -> FenceView) -> Seq<
    FenceView,
> {
    match model::fence_at(f, id) {
        Some(i) => f.update(i, change(f[i])),
        None => f,
    }
}

/// Collapses or expands a fence, and returns whether it is collapsed now.
pub fn toggle_collapse(fences: &mut Vec<Fence>, id: u32) -> (r: bool)
    ensures
        model::fence_views(final(fences)@) == with_fence(
            model::fence_views(old(fences)@),
            id,
            |f: FenceView| FenceView { collapsed: !f.collapsed, ..f },
        ),
        r == (match model::fence_at(model::fence_views(old(fences)@), id) {
            Some(i) => !old(fences)@[i].collapsed,
            None => false,
        }),
{
    let ghost was = model::fence_views(fences@);
    match model::fence_position(fences, id) {
        None => false,
        Some(i) => {
            let now = !fences[i].collapsed;
            fences[i].collapsed = now;
            assert(model::fence_views(fences@) =~= was.update(
                i as int,
                FenceView { collapsed: now, ..was[i as int] },
            ));
            now
        },
    }
}

/// Locks or unlocks a fence.
pub fn toggle_lock(fences: &mut Vec<Fence>, id: u32)
    ensures
        model::fence_views(final(fences)@) == with_fence(
            model::fence_views(old(fences)@),
            id,
            |f: FenceView| FenceView { locked: !f.locked, ..f },
        ),
{
    let ghost was = model::fence_views(fences@);
    match model::fence_position(fences, id) {
        None => {},
        Some(i) => {
            let now = !fences[i].locked;
            fences[i].locked = now;
            assert(model::fence_views(fences@) =~= was.update(
                i as int,
                FenceView { locked: now, ..was[i as int] },
            ));
        },
    }
}

/// Sets the sort mode of a fence.
pub fn set_fence_sort(fences: &mut Vec<Fence>, id: u32, mode: &str)
    ensures
        model::fence_views(final(fences)@) == with_fence(
            model::fence_views(old(fences)@),
            id,
            |f: FenceView| FenceView { sort_mode: mode@, ..f },
        ),
{
    let ghost was = model::fence_views(fences@);
    match model::fence_position(fences, id) {
        None => {},
        Some(i) => {
            fences[i].sort_mode = text::own(mode);
            assert(model::fence_views(fences@) =~= was.update(
                i as int,
                FenceView { sort_mode: mode@, ..was[i as int] },
            ));
        },
    }
}

/// Collapsing twice, or locking twice, leaves the fences as they were.
pub proof fn law_toggles_undo_themselves(f: Seq<FenceView>, id: u32)
    ensures
        ({
            let flip = |x: FenceView| FenceView { collapsed: !x.collapsed, ..x };
            with_fence(with_fence(f, id, flip), id, flip) == f
        }),
        ({
            let flip = |x: FenceView| FenceView { locked: !x.locked, ..x };
            with_fence(with_fence(f, id, flip), id, flip) == f
        }),
{
    let c = |x: FenceView| FenceView { collapsed: !x.collapsed, ..x };
    let l = |x: FenceView| FenceView { locked: !x.locked, ..x };
    model::lemma_fence_at(f, id);
    if let Some(i) = model::fence_at(f, id) {
        let (g, h) = (f.update(i, c(f[i])), f.update(i, l(f[i])));
        lemma_fence_at_updated(f, id, i, c(f[i]));
        lemma_fence_at_updated(f, id, i, l(f[i]));
        assert(g.update(i, c(g[i])) =~= f);
        assert(h.update(i, l(h[i])) =~= f);
    }
}

/// Replacing the fence found by its id keeps it found there.
pub proof fn lemma_fence_at_updated(f: Seq<FenceView>, id: u32, i: int, x: FenceView)
    requires
        model::fence_at(f, id) == Some(i),
        x.id == id,
    ensures
        model::fence_at(f.update(i, x), id) == Some(i),
{
    let g = f.update(i, x);
    model::lemma_fence_at(f, id);
    model::lemma_fence_at(g, id);
    let k = model::fence_at(g, id)->0;
    assert(g[i].id == id);
    if k < i {
        assert(f[k] == g[k]);
    }
}

/// Renaming a category leaves its rules: every entry of the table keeps its extensions
/// and whether it takes folders, and one other than the renamed keeps its name. So a
/// file is in the renamed category where it was in it before, and else where it was.
pub proof fn law_renamed_category_keeps_its_files(
    d: DeskView,
    from: Seq<char>,
    to: Seq<char>,
    name: Seq<char>,
    is_dir: bool,
)
    requires
        rename_allowed(from, to, d.table),
    ensures
        ({
            let t = renamed_desk(d, from, text::trimmed(to)).table;
            let was = model::category_of(d.table, name, is_dir);
            let taken = exists|k: int|
                0 <= k < d.table.len() && #[trigger] model::takes(d.table[k], name, is_dir);
            &&& t.len() == d.table.len()
            &&& forall|k: int|
                0 <= k < t.len() ==> (#[trigger] t[k]).exts == d.table[k].exts && t[k].dirs
                    == d.table[k].dirs && t[k].name == (if d.table[k].name == from {
                    text::trimmed(to)
                } else {
                    d.table[k].name
                })
            &&& model::category_of(t, name, is_dir) == (if taken && was == from {
                text::trimmed(to)
            } else {
                was
            })
        }),
{
    let t = renamed_desk(d, from, text::trimmed(to)).table;
    model::lemma_category_slot(d.table, name, is_dir);
    model::lemma_category_slot(t, name, is_dir);
    assert forall|k: int| 0 <= k < t.len() implies model::takes(#[trigger] t[k], name, is_dir)
        == model::takes(d.table[k], name, is_dir) by {}
    match model::category_slot(d.table, name, is_dir) {
        Some(k) => {
            assert(model::takes(t[k], name, is_dir));
            model::lemma_category_slot_at(t, name, is_dir, k);
        },
        None => {
            if let Some(k) = model::category_slot(t, name, is_dir) {
                assert(!model::takes(d.table[k], name, is_dir));
            }
        },
    }
}

// ---------------------------------------------------------------- what the operations do

/// A scan that was started before anything changed is told apart: the number goes up by
/// one, and from the greatest to 0.
pub proof fn law_epoch_goes_on(e: u64)
    ensures
        e < u64::MAX ==> next_epoch(e) == e + 1,
        e == u64::MAX ==> next_epoch(e) == 0,
        next_epoch(e) != e,
{
}

/// An extension is kept in lowercase, without the white space around it and the dots
/// before it.
pub proof fn law_extension_is_kept_clean(e: Seq<char>, n: int)
    requires
        0 <= n <= text::trimmed(e).len(),
        forall|i: int| 0 <= i < n ==> #[trigger] text::trimmed(e)[i] == '.',
        n < text::trimmed(e).len() ==> text::trimmed(e)[n] != '.',
    ensures
        clean_ext(e) == text::lowercase(text::trimmed(e).skip(n)),
{
    lemma_undotted(text::trimmed(e), n);
}

proof fn lemma_undotted(s: Seq<char>, n: int)
    requires
        0 <= n <= s.len(),
        forall|i: int| 0 <= i < n ==> #[trigger] s[i] == '.',
        n < s.len() ==> s[n] != '.',
    ensures
        undotted(s) == s.skip(n),
    decreases s.len(),
{
    if n > 0 {
        let t = s.drop_first();
        assert forall|i: int| 0 <= i < n - 1 implies #[trigger] t[i] == '.' by {
            assert(s[i + 1] == '.');
        }
        if n < s.len() {
            assert(t[n - 1] == s[n]);
        }
        lemma_undotted(t, n - 1);
        assert(s[0] == '.');
        assert(t.skip(n - 1) =~= s.skip(n));
    } else {
        assert(s.skip(0) =~= s);
    }
}

/// A list of extensions is taken where no other category has one of them, and then holds
/// each of them that is not empty; else it is refused for the first that another has.
pub proof fn law_extensions_are_kept_or_refused(
    name: Seq<char>,
    exts: Seq<Seq<char>>,
    table: Seq<CategoryView>,
    x: Seq<char>,
)
    ensures
        match cleaned(name, exts, table) {
            Cleaned::Kept(k) => {
                &&& k.contains(x) <==> x.len() > 0 && exists|i: int|
                    0 <= i < exts.len() && clean_ext(#[trigger] exts[i]) == x
                &&& forall|i: int, j: int|
                    0 <= i < exts.len() && 0 <= j < table.len() && (#[trigger] table[j]).name
                        != name ==> {
                        let e = clean_ext(#[trigger] exts[i]);
                        e.len() == 0 || !table[j].exts.contains(e)
                    }
            },
            Cleaned::Taken(t) => exists|n: int|
                {
                    &&& 0 <= n < exts.len()
                    &&& clean_ext(#[trigger] exts[n]) == t
                    &&& t.len() > 0
                    &&& exists|j: int|
                        0 <= j < table.len() && (#[trigger] table[j]).name != name
                            && table[j].exts.contains(t)
                    &&& cleaned(name, exts.take(n), table) is Kept
                },
        },
    decreases exts.len(),
{
    if exts.len() > 0 {
        let h = exts.drop_last();
        law_extensions_are_kept_or_refused(name, h, table, x);
        let e = clean_ext(exts.last());
        assert(exts[exts.len() - 1] == exts.last());
        match cleaned(name, h, table) {
            Cleaned::Taken(t) => {
                let n = choose|n: int|
                    {
                        &&& 0 <= n < h.len()
                        &&& clean_ext(#[trigger] h[n]) == t
                        &&& t.len() > 0
                        &&& exists|j: int|
                            0 <= j < table.len() && (#[trigger] table[j]).name != name
                                && table[j].exts.contains(t)
                        &&& cleaned(name, h.take(n), table) is Kept
                    };
                assert(h.take(n) =~= exts.take(n));
                assert(exts[n] == h[n]);
            },
            Cleaned::Kept(k) => {
                assert(exts.take(exts.len() - 1) =~= h);
                if cleaned(name, exts, table) is Kept {
                    let q = cleaned(name, exts, table)->Kept_0;
                    if k.contains(x) {
                        let i = choose|i: int|
                            0 <= i < h.len() && clean_ext(#[trigger] h[i]) == x;
                        assert(exts[i] == h[i]);
                        let m = choose|m: int| 0 <= m < k.len() && k[m] == x;
                        assert(q[m] == x);
                    }
                    if q.contains(x) && !k.contains(x) {
                        let m = choose|m: int| 0 <= m < q.len() && q[m] == x;
                        if m < k.len() {
                            assert(k[m] == x);
                        }
                    }
                    if x.len() > 0 && exists|i: int|
                        0 <= i < exts.len() && clean_ext(#[trigger] exts[i]) == x {
                        let i = choose|i: int|
                            0 <= i < exts.len() && clean_ext(#[trigger] exts[i]) == x;
                        if i < h.len() {
                            assert(h[i] == exts[i]);
                        } else if !k.contains(x) {
                            assert(q[q.len() - 1] == x);
                        }
                    }
                    assert forall|i: int, j: int|
                        0 <= i < exts.len() && 0 <= j < table.len() && (#[trigger] table[j]).name
                            != name implies {
                        let f = clean_ext(#[trigger] exts[i]);
                        f.len() == 0 || !table[j].exts.contains(f)
                    } by {
                        if i < h.len() {
                            assert(h[i] == exts[i]);
                        } else if e.len() > 0 && k.contains(e) {
                            law_extensions_are_kept_or_refused(name, h, table, e);
                            let u = choose|u: int|
                                0 <= u < h.len() && clean_ext(#[trigger] h[u]) == e;
                            assert(clean_ext(h[u]) == e);
                        }
                    }
                }
            },
        }
    }
}

/// A free name is the given one where no category has it, and else the given one with the
/// least number from 2 on that makes it new.
pub proof fn law_free_name_has_the_least_number(
    base: Seq<char>,
    existing: Seq<Seq<char>>,
    r: Seq<char>,
)
    requires
        is_first_free(base, existing, r),
    ensures
        !existing.contains(r),
        !existing.contains(base) ==> r == base,
        existing.contains(base) ==> exists|n: nat|
            n >= 2 && r == base + #[trigger] text::decimal(n) && forall|m: nat|
                2 <= m < n ==> existing.contains(base + #[trigger] text::decimal(m)),
{
    let n = choose|n: nat|
        n >= 1 && r == #[trigger] numbered(base, n) && !existing.contains(r) && forall|m: nat|
            1 <= m < n ==> existing.contains(#[trigger] numbered(base, m));
    if !existing.contains(base) && n > 1 {
        assert(existing.contains(numbered(base, 1)));
    }
    if existing.contains(base) {
        assert(n >= 2);
        assert(r == base + text::decimal(n));
        assert forall|m: nat| 2 <= m < n implies existing.contains(
            base + #[trigger] text::decimal(m),
        ) by {
            assert(existing.contains(numbered(base, m)));
        }
    }
}

/// A renamed category keeps its files and its fences: those of the old name are of the new
/// one, and all others as they were. The title of a fence follows only where it was the
/// old name.
pub proof fn law_files_and_fences_follow_the_name(
    d: DeskView,
    from: Seq<char>,
    to: Seq<char>,
    i: int,
    cat: Seq<char>,
)
    ensures
        ({
            let e = renamed_desk(d, from, to);
            &&& e.files.len() == d.files.len()
            &&& e.fences.len() == d.fences.len()
            &&& 0 <= i < d.files.len() ==> e.files[i] == (FileView {
                category: if d.files[i].category == from {
                    to
                } else {
                    d.files[i].category
                },
                ..d.files[i]
            })
            &&& 0 <= i < d.fences.len() ==> e.fences[i] == (FenceView {
                category: if d.fences[i].category == from {
                    to
                } else {
                    d.fences[i].category
                },
                title: if d.fences[i].category == from && d.fences[i].title == from {
                    to
                } else {
                    d.fences[i].title
                },
                ..d.fences[i]
            })
            &&& !e.deleted_at.contains_key(from)
            &&& cat != from ==> (e.deleted_at.contains_key(cat) <==> d.deleted_at.contains_key(
                cat,
            )) && e.deleted_at[cat] == d.deleted_at[cat]
            &&& e.epoch != d.epoch
        }),
{
}

/// A category may be given a name if and only if the name, trimmed, is not empty, not its
/// own and of no category.
pub proof fn law_rename_needs_a_new_name(
    old_name: Seq<char>,
    new_name: Seq<char>,
    table: Seq<CategoryView>,
)
    ensures
        rename_allowed(old_name, new_name, table) <==> text::trimmed(new_name).len() > 0
            && text::trimmed(new_name) != old_name && forall|i: int|
            0 <= i < table.len() ==> (#[trigger] table[i]).name != text::trimmed(new_name),
{
    let n = text::trimmed(new_name);
    let names = model::table_names(table);
    if names.contains(n) {
        let i = choose|i: int| 0 <= i < names.len() && names[i] == n;
        assert(table[i].name == n);
    }
    if exists|i: int| 0 <= i < table.len() && (#[trigger] table[i]).name == n {
        let i = choose|i: int| 0 <= i < table.len() && (#[trigger] table[i]).name == n;
        assert(names[i] == n);
    }
}

/// A category that is given extensions takes these and no others; the other entries stay,
/// and every file is where the new table puts it.
pub proof fn law_taught_category_takes_its_extensions(
    d: DeskView,
    name: Seq<char>,
    exts: Seq<Seq<char>>,
    i: int,
)
    ensures
        ({
            let e = retaught_desk(d, name, exts);
            &&& e.table.len() == d.table.len()
            &&& 0 <= i < d.table.len() ==> e.table[i].name == d.table[i].name && e.table[i].dirs
                == d.table[i].dirs && e.table[i].exts == (if d.table[i].name == name {
                exts
            } else {
                d.table[i].exts
            })
            &&& e.files.len() == d.files.len()
            &&& 0 <= i < d.files.len() ==> e.files[i] == (FileView {
                category: model::category_of(e.table, d.files[i].name, d.files[i].is_dir),
                ..d.files[i]
            })
            &&& e.epoch != d.epoch
            &&& d.fences.is_prefix_of(e.fences)
        }),
{
    let r = resorted_desk(d, name, exts);
    lemma_missing_keeps(r, r.table);
    lemma_new_fences_follow(r, r.table);
}

proof fn lemma_new_fences_follow(d: DeskView, t: Seq<CategoryView>)
    ensures
        d.fences.is_prefix_of(fenced(d, t).0.fences),
    decreases t.len(),
{
    if t.len() > 0 {
        lemma_new_fences_follow(d, t.drop_last());
    }
}

/// A deleted fence is gone, and the others stay in their order. Where the user deleted the
/// fence of a category, the moment is noted for that category, and for no other.
pub proof fn law_deleted_fence_is_gone(d: DeskView, id: u32, noted: bool, now: u64, i: int)
    requires
        0 <= i < d.fences.len(),
        d.fences[i].id == id,
        forall|j: int| 0 <= j < i ==> (#[trigger] d.fences[j]).id != id,
    ensures
        ({
            let e = desk_without_fence(d, id, noted, now);
            let cat = d.fences[i].category;
            &&& e.fences == d.fences.filter(|f: FenceView| f.id != id)
            &&& e.deleted_at == (if noted && cat.len() > 0 {
                d.deleted_at.insert(cat, now)
            } else {
                d.deleted_at
            })
            &&& (e.table, e.files, e.epoch) == (d.table, d.files, d.epoch)
        }),
{
    model::lemma_fence_at_is(d.fences, id, i);
    lemma_fence_filtered(d.fences, id);
}

proof fn lemma_fence_filtered(f: Seq<FenceView>, id: u32)
    ensures
        without_fence(f, id) == f.filter(|g: FenceView| g.id != id),
    decreases f.len(),
{
    reveal(Seq::filter);
    if f.len() > 0 {
        lemma_fence_filtered(f.drop_last(), id);
    } else {
        assert(without_fence(f, id) =~= f.filter(|g: FenceView| g.id != id));
    }
}

proof fn lemma_category_filtered(t: Seq<CategoryView>, name: Seq<char>)
    ensures
        without_category(t, name) == t.filter(|c: CategoryView| c.name != name),
    decreases t.len(),
{
    reveal(Seq::filter);
    if t.len() > 0 {
        lemma_category_filtered(t.drop_last(), name);
    } else {
        assert(without_category(t, name) =~= t.filter(|c: CategoryView| c.name != name));
    }
}

/// A deleted category leaves the table, the others stay in their order with their rules,
/// and its files are in `其他`. Its first fence is gone, and the moment is noted.
pub proof fn law_deleted_category_is_gone(d: DeskView, name: Seq<char>, now: u64, i: int, k: int)
    requires
        0 <= k < d.fences.len(),
        d.fences[k].category == name,
        forall|j: int| 0 <= j < k ==> (#[trigger] d.fences[j]).category != name,
        forall|j: int| 0 <= j < k ==> (#[trigger] d.fences[j]).id != d.fences[k].id,
        name.len() > 0,
        name != "其他"@,
    ensures
        ({
            let e = desk_without_category(d, name, now);
            &&& e.table == d.table.filter(|c: CategoryView| c.name != name)
            &&& e.files.len() == d.files.len()
            &&& 0 <= i < d.files.len() ==> e.files[i] == (FileView {
                category: if d.files[i].category == name {
                    "其他"@
                } else {
                    d.files[i].category
                },
                ..d.files[i]
            })
            &&& d.fences.filter(|f: FenceView| f.id != d.fences[k].id).is_prefix_of(e.fences)
            &&& e.deleted_at.contains_key(name) && e.deleted_at[name] == now
            &&& e.epoch != d.epoch
        }),
{
    lemma_fence_of_category(d.fences, name);
    let m = fence_of_category(d.fences, name)->0;
    if m < k {
        assert(d.fences[m].category != name);
    }
    if k < m {
        assert(d.fences[k].category != name);
    }
    let id = d.fences[k].id;
    law_deleted_fence_is_gone(d, id, true, now, k);
    lemma_category_filtered(d.table, name);
    let r = refiled_desk(d, name, now);
    lemma_missing_keeps(r, r.table);
    lemma_new_fences_follow(r, r.table);
    assert(!model::table_names(r.table).contains(name)) by {
        lemma_without_category(d.table, name);
        let names = model::table_names(r.table);
        if names.contains(name) {
            let j = choose|j: int| 0 <= j < names.len() && names[j] == name;
            assert(r.table[j].name != name);
        }
    }
    lemma_other_deletions_stay(r, r.table, name);
}

proof fn lemma_other_deletions_stay(d: DeskView, t: Seq<CategoryView>, cat: Seq<char>)
    requires
        !model::table_names(t).contains(cat),
    ensures
        deletion_of(fenced(d, t).0, cat) == deletion_of(d, cat),
    decreases t.len(),
{
    if t.len() > 0 {
        let h = t.drop_last();
        let names = model::table_names(t);
        assert(!model::table_names(h).contains(cat)) by {
            let hn = model::table_names(h);
            if hn.contains(cat) {
                let j = choose|j: int| 0 <= j < hn.len() && hn[j] == cat;
                assert(names[j] == cat);
            }
        }
        lemma_other_deletions_stay(d, h, cat);
        assert(names[t.len() - 1] == t.last().name);
    }
}

/// A new fence is empty, open, shown, free and ordered by use.
pub proof fn law_new_fence_is_empty(id: u32, title: Seq<char>, category: Seq<char>)
    ensures
        ({
            let f = fresh_fence(id, title, category);
            &&& f.id == id
            &&& f.title == title
            &&& f.category == category
            &&& f.pinned.len() == 0
            &&& f.item_order.len() == 0
            &&& !f.collapsed
            &&& !f.locked
            &&& !f.hidden
            &&& !f.manual_size
            &&& f.scroll_rows == 0
            &&& f.sort_mode == "常用"@
        }),
{
}

/// The greatest id is that of some fence, and no fence has a greater one; without a fence
/// it is 0.
pub proof fn law_greatest_id_is_some_fences(f: Seq<FenceView>)
    ensures
        f.len() == 0 ==> greatest_id(f) == 0,
        f.len() > 0 ==> exists|i: int|
            0 <= i < f.len() && (#[trigger] f[i]).id == greatest_id(f),
        forall|i: int| 0 <= i < f.len() ==> (#[trigger] f[i]).id <= greatest_id(f),
    decreases f.len(),
{
    lemma_greatest_id(f);
    if f.len() > 0 {
        let h = f.drop_last();
        law_greatest_id_is_some_fences(h);
        assert(f[f.len() - 1] == f.last());
        if h.len() > 0 && greatest_id(f) == greatest_id(h) {
            let i = choose|i: int| 0 <= i < h.len() && (#[trigger] h[i]).id == greatest_id(h);
            assert(f[i] == h[i]);
        }
    }
}

/// An added category takes nothing yet and comes last; its fence has its name and an id
/// above all others, and it is no longer noted as deleted.
pub proof fn law_added_category_comes_last(d: DeskView, name: Seq<char>)
    requires
        greatest_id(d.fences) < u32::MAX,
    ensures
        ({
            let e = desk_with_category(d, name);
            &&& e.table.drop_last() == d.table
            &&& e.table.last().name == name
            &&& e.table.last().exts.len() == 0
            &&& !e.table.last().dirs
            &&& e.fences.drop_last() == d.fences
            &&& e.fences.last().title == name
            &&& e.fences.last().category == name
            &&& forall|i: int|
                0 <= i < d.fences.len() ==> (#[trigger] d.fences[i]).id < e.fences.last().id
            &&& !e.deleted_at.contains_key(name)
            &&& e.files == d.files
            &&& e.epoch == d.epoch
        }),
{
    lemma_greatest_id(d.fences);
    let e = desk_with_category(d, name);
    assert(e.table.drop_last() =~= d.table);
    assert(e.fences.drop_last() =~= d.fences);
}

/// The fences that are made for missing categories: one for each category of the table, in
/// its order, that has no fence and some file, or some file that came after its fence was
/// deleted. Each has a new id, and a category that got one is no longer noted as deleted.
pub proof fn law_missing_categories_get_a_fence(d: DeskView, t: Seq<CategoryView>)
    requires
        model::table_names(t).no_duplicates(),
        greatest_id(d.fences) + t.len() <= u32::MAX,
    ensures
        ({
            let (e, names) = fenced(d, t);
            &&& names == model::table_names(t).filter(
                |c: Seq<char>|
                    (forall|i: int| 0 <= i < d.fences.len() ==> (#[trigger] d.fences[i]).category
                        != c) && exists|i: int|
                        0 <= i < d.files.len() && (#[trigger] d.files[i]).category == c && (
                        d.deleted_at.contains_key(c) ==> d.files[i].mtime_ms > d.deleted_at[c]),
            )
            &&& e.fences == d.fences + Seq::new(
                names.len(),
                |i: int|
                    fresh_fence((greatest_id(d.fences) + 1 + i) as u32, names[i], names[i]),
            )
            &&& forall|c: Seq<char>|
                #[trigger] e.deleted_at.contains_key(c) <==> d.deleted_at.contains_key(c)
                    && !names.contains(c)
            &&& (e.table, e.files, e.epoch) == (d.table, d.files, d.epoch)
        }),
    decreases t.len(),
{
    reveal(Seq::filter);
    let all = model::table_names(t);
    let lacks = |c: Seq<char>|
        (forall|i: int| 0 <= i < d.fences.len() ==> (#[trigger] d.fences[i]).category != c)
            && exists|i: int|
            0 <= i < d.files.len() && (#[trigger] d.files[i]).category == c && (
            d.deleted_at.contains_key(c) ==> d.files[i].mtime_ms > d.deleted_at[c]);
    let (e, names) = fenced(d, t);
    lemma_missing_keeps(d, t);
    if t.len() > 0 {
        let h = t.drop_last();
        let hn = model::table_names(h);
        assert(hn =~= all.drop_last());
        assert(hn.no_duplicates());
        law_missing_categories_get_a_fence(d, h);
        let (g, was) = fenced(d, h);
        let cat = t.last().name;
        assert(all.last() == cat);
        assert(was == hn.filter(lacks));
        lemma_missing_keeps(d, h);
        hn.lemma_filter_len(lacks);
        assert(!was.contains(cat)) by {
            if was.contains(cat) {
                hn.lemma_filter_contains_rev(lacks, cat);
                let j = choose|j: int| 0 <= j < hn.len() && hn[j] == cat;
                assert(all[j] == all[all.len() - 1]);
            }
        }
        lemma_fence_of_category(g.fences, cat);
        assert(fence_of_category(g.fences, cat) is None <==> forall|i: int|
            0 <= i < d.fences.len() ==> (#[trigger] d.fences[i]).category != cat) by {
            if let Some(k) = fence_of_category(g.fences, cat) {
                if k >= d.fences.len() {
                    assert(was[k - d.fences.len()] == cat);
                } else {
                    assert(g.fences[k] == d.fences[k]);
                }
            } else {
                assert forall|i: int| 0 <= i < d.fences.len() implies (
                #[trigger] d.fences[i]).category != cat by {
                    assert(g.fences[i] == d.fences[i]);
                }
            }
        }
        lemma_deletion_kept(d, h, cat);
        assert(lacks_fence(g, cat) <==> lacks(cat));
        if lacks_fence(g, cat) {
            assert(names == was.push(cat));
            assert(e.fences =~= d.fences + Seq::new(
                names.len(),
                |i: int|
                    fresh_fence((greatest_id(d.fences) + 1 + i) as u32, names[i], names[i]),
            ));
            assert forall|c: Seq<char>| #[trigger]
                e.deleted_at.contains_key(c) <==> d.deleted_at.contains_key(c) && !names.contains(
                    c,
                ) by {
                assert(g.deleted_at.contains_key(c) <==> d.deleted_at.contains_key(c)
                    && !was.contains(c));
                assert(names.contains(c) <==> was.contains(c) || c == cat) by {
                    assert(names[names.len() - 1] == cat);
                    if was.contains(c) {
                        let j = choose|j: int| 0 <= j < was.len() && was[j] == c;
                        assert(names[j] == c);
                    }
                    if names.contains(c) {
                        let j = choose|j: int| 0 <= j < names.len() && names[j] == c;
                        if j < was.len() {
                            assert(was[j] == c);
                        }
                    }
                }
            }
        }
    } else {
        assert(names =~= all.filter(lacks));
        assert(e.fences =~= d.fences + Seq::new(
            names.len(),
            |i: int| fresh_fence((greatest_id(d.fences) + 1 + i) as u32, names[i], names[i]),
        ));
    }
}

proof fn lemma_deletion_kept(d: DeskView, t: Seq<CategoryView>, cat: Seq<char>)
    requires
        !fenced(d, t).1.contains(cat),
    ensures
        deletion_of(fenced(d, t).0, cat) == deletion_of(d, cat),
    decreases t.len(),
{
    if t.len() > 0 {
        let h = t.drop_last();
        let (was, names) = (fenced(d, h).1, fenced(d, t).1);
        assert(!was.contains(cat)) by {
            if was.contains(cat) {
                let j = choose|j: int| 0 <= j < was.len() && was[j] == cat;
                assert(names[j] == cat);
            }
        }
        lemma_deletion_kept(d, h, cat);
        if lacks_fence(fenced(d, h).0, t.last().name) {
            assert(names[names.len() - 1] == t.last().name);
        }
    }
}

/// A change of one fence by its id changes the first fence with it, and no other.
pub proof fn law_one_fence_changes(
    f: Seq<FenceView>,
    id: u32,
    change: spec_fn(FenceView) -> FenceView,
    i: int,
)
    requires
        0 <= i < f.len(),
    ensures
        ({
            let own = f[i].id == id && forall|j: int| 0 <= j < i ==> (#[trigger] f[j]).id != id;
            let g = with_fence(f, id, change);
            &&& g.len() == f.len()
            &&& own ==> g[i] == change(f[i])
            &&& !own ==> g[i] == f[i]
        }),
{
    model::lemma_fence_at(f, id);
    if f[i].id == id && forall|j: int| 0 <= j < i ==> (#[trigger] f[j]).id != id {
        model::lemma_fence_at_is(f, id, i);
    }
}

/// The extensions that are kept stand as they were given.
pub proof fn law_kept_extensions_keep_their_order(
    name: Seq<char>,
    exts: Seq<Seq<char>>,
    table: Seq<CategoryView>,
    k: Seq<Seq<char>>,
    u: int,
    v: int,
)
    requires
        cleaned(name, exts, table) == Cleaned::Kept(k),
        0 <= u < v < k.len(),
    ensures
        exists|i: int|
            0 <= i < exts.len() && clean_ext(#[trigger] exts[i]) == k[u] && forall|j: int|
                0 <= j <= i ==> clean_ext(#[trigger] exts[j]) != k[v],
    decreases exts.len(),
{
    let h = exts.drop_last();
    let was = cleaned(name, h, table)->Kept_0;
    if v < was.len() {
        law_kept_extensions_keep_their_order(name, h, table, was, u, v);
        let i = choose|i: int|
            0 <= i < h.len() && clean_ext(#[trigger] h[i]) == was[u] && forall|j: int|
                0 <= j <= i ==> clean_ext(#[trigger] h[j]) != was[v];
        assert(exts[i] == h[i]);
        assert forall|j: int| 0 <= j <= i implies clean_ext(#[trigger] exts[j]) != k[v] by {
            assert(h[j] == exts[j]);
        }
    } else {
        law_extensions_are_kept_or_refused(name, h, table, k[u]);
        law_extensions_are_kept_or_refused(name, h, table, k[v]);
        assert(was[u] == k[u]);
        assert(was.contains(k[u]));
        assert(!was.contains(k[v]));
        let i = choose|i: int| 0 <= i < h.len() && clean_ext(#[trigger] h[i]) == k[u];
        assert(exts[i] == h[i]);
        assert forall|j: int| 0 <= j <= i implies clean_ext(#[trigger] exts[j]) != k[v] by {
            assert(h[j] == exts[j]);
        }
    }
}

} // verus!

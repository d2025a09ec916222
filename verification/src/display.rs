//! What a fence shows, and in which order.
use crate::model;
use crate::model::{Fence, FenceView, FileItem};
use crate::order;
use crate::order::{Preorder, Rank};
use crate::text;
use crate::usage;
use crate::usage::{UsageEntry, UsageStore};
use vstd::prelude::*;

verus! {

// ---------------------------------------------------------------- what the fences claim

/// What the fences together claim: the files dragged onto some fence, and the
/// categories that have a fence; and whether categories are automatic.
pub struct Registry {
    auto: bool,
    pinned: Vec<String>,
    categories: Vec<String>,
}

/// The contents of a `Registry`.
#[verifier::ext_equal]
pub struct RegistryView {
    pub auto: bool,
    pub pinned: Set<Seq<char>>,
    pub categories: Set<Seq<char>>,
}

impl View for Registry {
    type V = RegistryView;

    closed spec fn view(&self) -> RegistryView {
        RegistryView {
            auto: self.auto,
            pinned: Set::new(|p: Seq<char>| text::texts(self.pinned@).contains(p)),
            categories: Set::new(|c: Seq<char>| text::texts(self.categories@).contains(c)),
        }
    }
}

/// The paths that some fence has pinned.
pub open spec fn pinned_by(fences: Seq<FenceView>) -> Set<Seq<char>> {
    Set::new(
        |p: Seq<char>|
            exists|i: int| 0 <= i < fences.len() && (#[trigger] fences[i]).pinned.contains(p),
    )
}

/// The categories that some fence has.
pub open spec fn categories_by(fences: Seq<FenceView>) -> Set<Seq<char>> {
    Set::new(
        |c: Seq<char>|
            c.len() > 0 && exists|i: int|
                0 <= i < fences.len() && (#[trigger] fences[i]).category == c,
    )
}

/// The registry that the fences give.
pub open spec fn registry_by(auto: bool, fences: Seq<FenceView>) -> RegistryView {
    RegistryView { auto, pinned: pinned_by(fences), categories: categories_by(fences) }
}

proof fn lemma_push_contains(s: Seq<String>, x: String)
    ensures
        forall|p: Seq<char>| #[trigger]
            text::texts(s.push(x)).contains(p) <==> text::texts(s).contains(p) || p == x@,
{
    let t = text::texts(s);
    let u = text::texts(s.push(x));
    assert forall|p: Seq<char>| #[trigger] u.contains(p) implies t.contains(p) || p == x@ by {
        let i = choose|i: int| 0 <= i < u.len() && u[i] == p;
        if i < t.len() {
            assert(t[i] == p);
        }
    }
    assert forall|p: Seq<char>| t.contains(p) || p == x@ implies #[trigger] u.contains(p) by {
        if t.contains(p) {
            let i = choose|i: int| 0 <= i < t.len() && t[i] == p;
            assert(u[i] == p);
        } else {
            assert(u[s.len() as int] == p);
        }
    }
}

impl Registry {
    /// No fence yet, categories automatic.
    pub fn new() -> (r: Self)
        ensures
            r@ == registry_by(true, Seq::empty()),
    {
        let r = Registry { auto: true, pinned: Vec::new(), categories: Vec::new() };
        assert(r@.pinned =~= pinned_by(Seq::empty()));
        assert(r@.categories =~= categories_by(Seq::empty()));
        r
    }
}

/// Turns automatic categories on or off.
pub fn set_auto_category(reg: &mut Registry, v: bool)
    ensures
        final(reg)@ == (RegistryView { auto: v, ..old(reg)@ }),
{
    reg.auto = v;
}

/// Whether categories are automatic.
pub fn auto_category(reg: &Registry) -> (r: bool)
    ensures
        r == reg@.auto,
{
    reg.auto
}

/// Whether some fence has pinned `path`.
pub fn pinned_elsewhere(reg: &Registry, path: &str) -> (r: bool)
    ensures
        r == reg@.pinned.contains(path@),
{
    text::has_text(&reg.pinned, path)
}

/// Whether some fence has the category `cat`.
pub fn has_category_fence(reg: &Registry, cat: &str) -> (r: bool)
    ensures
        r == reg@.categories.contains(cat@),
{
    text::has_text(&reg.categories, cat)
}

/// Collects anew which categories have a fence.
pub fn rebuild_category_registry(reg: &mut Registry, fences: &Vec<Fence>)
    ensures
        final(reg)@ == (RegistryView {
            categories: categories_by(model::fence_views(fences@)),
            ..old(reg)@
        }),
{
    let ghost v = model::fence_views(fences@);
    let mut out: Vec<String> = Vec::new();
    let mut i: usize = 0;
    while i < fences.len()
        invariant
            i <= fences.len(),
            v == model::fence_views(fences@),
            forall|c: Seq<char>| #[trigger]
                text::texts(out@).contains(c) <==> c.len() > 0 && exists|k: int|
                    0 <= k < i && (#[trigger] v[k]).category == c,
        decreases fences.len() - i,
    {
        assert(v[i as int] == fences@[i as int]@);
        let ghost before = out@;
        if !fences[i].category.as_str().is_empty() {
            let c = fences[i].category.clone();
            proof {
                lemma_push_contains(before, c);
            }
            out.push(c);
        }
        assert forall|c: Seq<char>| #[trigger] text::texts(out@).contains(c) <==> c.len() > 0
            && exists|k: int| 0 <= k < i + 1 && (#[trigger] v[k]).category == c by {
            if text::texts(out@).contains(c) {
                if text::texts(before).contains(c) {
                    let k = choose|k: int| 0 <= k < i && (#[trigger] v[k]).category == c;
                    assert(v[k].category == c);
                } else {
                    assert(v[i as int].category == c);
                }
            }
            if c.len() > 0 && exists|k: int| 0 <= k < i + 1 && (#[trigger] v[k]).category == c {
                let k = choose|k: int| 0 <= k < i + 1 && (#[trigger] v[k]).category == c;
                if k < i {
                    assert(text::texts(before).contains(c));
                }
            }
        }
        i = i + 1;
    }
    reg.categories = out;
    assert(reg@.categories =~= categories_by(v));
}

/// Collects anew what the fences claim.
pub fn rebuild_pinned_registry(reg: &mut Registry, fences: &Vec<Fence>)
    ensures
        final(reg)@ == registry_by(old(reg)@.auto, model::fence_views(fences@)),
{
    let ghost v = model::fence_views(fences@);
    let mut out: Vec<String> = Vec::new();
    let mut i: usize = 0;
    while i < fences.len()
        invariant
            i <= fences.len(),
            v == model::fence_views(fences@),
            forall|p: Seq<char>| #[trigger]
                text::texts(out@).contains(p) <==> exists|k: int|
                    0 <= k < i && (#[trigger] v[k]).pinned.contains(p),
        decreases fences.len() - i,
    {
        let ghost before = out@;
        let ghost mine = text::texts(fences@[i as int].pinned@);
        assert(v[i as int].pinned == mine);
        let mut j: usize = 0;
        while j < fences[i as usize].pinned.len()
            invariant
                i < fences.len(),
                j <= fences@[i as int].pinned.len(),
                mine == text::texts(fences@[i as int].pinned@),
                forall|p: Seq<char>| #[trigger]
                    text::texts(out@).contains(p) <==> text::texts(before).contains(p)
                        || exists|k: int| 0 <= k < j && mine[k] == p,
            decreases fences@[i as int].pinned.len() - j,
        {
            let ghost had = out@;
            let p0 = fences[i].pinned[j].clone();
            assert(mine[j as int] == p0@);
            proof {
                lemma_push_contains(had, p0);
            }
            out.push(p0);
            assert forall|p: Seq<char>| #[trigger] text::texts(out@).contains(p) <==> text::texts(
                before,
            ).contains(p) || exists|k: int| 0 <= k < j + 1 && mine[k] == p by {
                if exists|k: int| 0 <= k < j && mine[k] == p {
                    let k = choose|k: int| 0 <= k < j && mine[k] == p;
                    assert(0 <= k < j + 1 && mine[k] == p);
                }
                if p == p0@ {
                    assert(0 <= j < j + 1 && mine[j as int] == p);
                }
            }
            j = j + 1;
        }
        assert forall|p: Seq<char>| #[trigger] text::texts(out@).contains(p) <==> exists|k: int|
            0 <= k < i + 1 && (#[trigger] v[k]).pinned.contains(p) by {
            if text::texts(out@).contains(p) {
                if text::texts(before).contains(p) {
                    let k = choose|k: int| 0 <= k < i && (#[trigger] v[k]).pinned.contains(p);
                    assert(v[k].pinned.contains(p));
                } else {
                    assert(v[i as int].pinned.contains(p));
                }
            }
            if exists|k: int| 0 <= k < i + 1 && (#[trigger] v[k]).pinned.contains(p) {
                let k = choose|k: int| 0 <= k < i + 1 && (#[trigger] v[k]).pinned.contains(p);
                if k < i {
                    assert(text::texts(before).contains(p));
                } else {
                    let n = choose|n: int| 0 <= n < mine.len() && mine[n] == p;
                    assert(0 <= n < mine.len() && mine[n] == p);
                }
            }
        }
        i = i + 1;
    }
    reg.pinned = out;
    assert(reg@.pinned =~= pinned_by(v));
    rebuild_category_registry(reg, fences);
}

// ---------------------------------------------------------------- membership

/// The fence that takes the files without a fence while categories are not
/// automatic: the one of `未分类` where it exists, else the fallback.
pub open spec fn orphan_home(reg: RegistryView) -> Seq<char> {
    if reg.categories.contains(model::UNCATEGORIZED@) {
        model::UNCATEGORIZED@
    } else {
        model::FALLBACK_CATEGORY@
    }
}

/// `fence` takes the files without a fence.
pub open spec fn is_orphan_home(fence: FenceView, reg: RegistryView) -> bool {
    !reg.auto && fence.category == orphan_home(reg)
}

/// `fence` shows `f` by its category.
pub open spec fn shows_by_category(fence: FenceView, reg: RegistryView, f: FileItem) -> bool {
    if is_orphan_home(fence, reg) {
        !reg.pinned.contains(f.path@) && (!reg.categories.contains(f.category@) || (fence.category
            == model::FALLBACK_CATEGORY@ && f.category@ == fence.category))
    } else {
        fence.category.len() > 0 && f.category@ == fence.category && !fence.pinned.contains(f.path@)
            && !reg.pinned.contains(f.path@)
    }
}

/// The files that `fence` shows by its category, in the order of the scan; the
/// home of the files without a fence shows no path twice.
pub open spec fn by_category(fence: FenceView, reg: RegistryView, all: Seq<FileItem>) -> Seq<
    FileItem,
>
    decreases all.len(),
{
    if all.len() == 0 {
        Seq::empty()
    } else {
        let out = by_category(fence, reg, all.drop_last());
        let f = all.last();
        if shows_by_category(fence, reg, f) && !(is_orphan_home(fence, reg) && model::paths_of(
            out,
        ).contains(f.path@)) {
            out.push(f)
        } else {
            out
        }
    }
}

/// `out` and then the pinned files that the scan found, no path of `out` again.
pub open spec fn with_pinned(out: Seq<FileItem>, pinned: Seq<Seq<char>>, all: Seq<FileItem>) -> Seq<
    FileItem,
>
    decreases pinned.len(),
{
    if pinned.len() == 0 {
        out
    } else {
        let r = with_pinned(out, pinned.drop_last(), all);
        match text::first_index(model::paths_of(all), pinned.last()) {
            Some(i) => if model::paths_of(r).contains(pinned.last()) {
                r
            } else {
                r.push(all[i])
            },
            None => r,
        }
    }
}

/// The files that `fence` shows, before they are sorted.
pub open spec fn members(fence: FenceView, reg: RegistryView, all: Seq<FileItem>) -> Seq<FileItem> {
    with_pinned(by_category(fence, reg, all), fence.pinned, all)
}

// ---------------------------------------------------------------- order

/// `x` put before the list `s`.
pub open spec fn cons(x: int, s: Seq<int>) -> Seq<int> {
    seq![x] + s
}

/// 0 for what is marked, 1 for the rest.
pub open spec fn mark(b: bool) -> int {
    if b {
        0
    } else {
        1
    }
}

/// The position of a path in the user's order, behind its end where it is not in it.
pub open spec fn place_in(order: Seq<Seq<char>>, path: Seq<char>) -> int {
    match text::first_index(order, path) {
        Some(i) => i,
        None => order.len() as int,
    }
}

/// The key by which `f` is sorted: numbers first, then the name in natural order.
/// The recycle bin comes before everything.
pub open spec fn sort_key(
    mode: Seq<char>,
    order: Seq<Seq<char>>,
    opened: Map<Seq<char>, UsageEntry>,
    f: FileItem,
) -> (Seq<int>, Seq<char>) {
    let dir = mark(f.is_dir);
    let mtime = f.mtime_ms as int;
    let place = place_in(order, f.path@);
    if model::bin_path(f.path@) {
        (seq![0], Seq::empty())
    } else if mode == "常用"@ {
        let (count, last) = usage::usage_at(opened, f.path@);
        (
            cons(
                1,
                cons(-(count as int), cons(-(last as int), cons(place, cons(dir, seq![mtime])))),
            ),
            f.name@,
        )
    } else if mode == "时间"@ {
        (cons(1, cons(-mtime, seq![dir])), f.name@)
    } else if mode == "名称"@ {
        (seq![1], f.name@)
    } else if place < order.len() {
        (cons(1, seq![place]), Seq::empty())
    } else {
        (cons(1, cons(place, cons(mtime, seq![dir]))), f.name@)
    }
}

/// The rank of two sort keys.
pub open spec fn key_rank(a: (Seq<int>, Seq<char>), b: (Seq<int>, Seq<char>)) -> Rank {
    order::chain(order::lex_rank(a.0, b.0), order::natural(a.1, b.1))
}

/// `a` may stand before `b` in a fence.
pub open spec fn item_le(
    mode: Seq<char>,
    order: Seq<Seq<char>>,
    opened: Map<Seq<char>, UsageEntry>,
    a: FileItem,
    b: FileItem,
) -> bool {
    key_rank(sort_key(mode, order, opened, a), sort_key(mode, order, opened, b)) != Rank::After
}

/// `out` is `input` in the order of the fence, `p[i]` being where `out[i]` stood;
/// what ranks alike keeps the order it had.
pub open spec fn in_fence_order(
    fence: FenceView,
    opened: Map<Seq<char>, UsageEntry>,
    p: Seq<int>,
    input: Seq<FileItem>,
    out: Seq<FileItem>,
) -> bool {
    &&& order::permutes(p, input, out)
    &&& forall|i: int, j: int|
        0 <= i < j < out.len() ==> item_le(
            fence.sort_mode,
            fence.item_order,
            opened,
            #[trigger] out[i],
            #[trigger] out[j],
        ) && (item_le(fence.sort_mode, fence.item_order, opened, out[j], out[i]) ==> p[i] < p[j])
}

proof fn lemma_lex_cons(x: int, s: Seq<int>, y: int, t: Seq<int>)
    ensures
        order::lex_rank(cons(x, s), cons(y, t)) == order::chain(
            order::num_rank(x, y),
            order::lex_rank(s, t),
        ),
{
    assert(cons(x, s).drop_first() =~= s);
    assert(cons(y, t).drop_first() =~= t);
}

proof fn lemma_lex_one(x: int, y: int)
    ensures
        order::lex_rank(seq![x], seq![y]) == order::num_rank(x, y),
{
    assert(seq![x].drop_first() =~= Seq::<int>::empty());
    assert(seq![y].drop_first() =~= Seq::<int>::empty());
    assert(order::lex_rank(Seq::<int>::empty(), Seq::<int>::empty()) == Rank::Same);
}

/// The order of a fence.
struct FenceOrder<'a> {
    mode: &'a str,
    order: &'a Vec<String>,
    store: &'a UsageStore,
}

impl<'a> FenceOrder<'a> {
    spec fn key(&self, f: FileItem) -> (Seq<int>, Seq<char>) {
        sort_key(self.mode@, text::texts(self.order@), self.store@, f)
    }

    /// Where a path stands in the user's order.
    fn place(&self, path: &str) -> (r: usize)
        ensures
            r == place_in(text::texts(self.order@), path@),
    {
        match text::position_of(self.order, path) {
            Some(i) => i,
            None => self.order.len(),
        }
    }

    fn fallback(&self, a: &FileItem, b: &FileItem) -> (r: Rank)
        ensures
            r == order::chain(
                order::num_rank(mark(a.is_dir), mark(b.is_dir)),
                order::natural(a.name@, b.name@),
            ),
    {
        match order::rank_marked(a.is_dir, b.is_dir) {
            Rank::Same => order::natural_rank(a.name.as_str(), b.name.as_str()),
            r => r,
        }
    }

    fn by_usage(&self, a: &FileItem, b: &FileItem) -> (r: Rank)
        requires
            self.store.wf(),
            self.mode@ == "常用"@,
            !model::bin_path(a.path@),
            !model::bin_path(b.path@),
        ensures
            r == key_rank(self.key(*a), self.key(*b)),
    {
        let (ca, la) = usage::usage_of(self.store, a.path.as_str());
        let (cb, lb) = usage::usage_of(self.store, b.path.as_str());
        let pa: usize = self.place(a.path.as_str());
        let pb: usize = self.place(b.path.as_str());
        proof {
            let (da, db) = (mark(a.is_dir), mark(b.is_dir));
            let (ma, mb) = (a.mtime_ms as int, b.mtime_ms as int);
            lemma_lex_one(ma, mb);
            lemma_lex_cons(da, seq![ma], db, seq![mb]);
            let (sa, sb) = (cons(da, seq![ma]), cons(db, seq![mb]));
            lemma_lex_cons(pa as int, sa, pb as int, sb);
            let (ta, tb) = (cons(pa as int, sa), cons(pb as int, sb));
            lemma_lex_cons(-(la as int), ta, -(lb as int), tb);
            let (ua, ub) = (cons(-(la as int), ta), cons(-(lb as int), tb));
            lemma_lex_cons(-(ca as int), ua, -(cb as int), ub);
            lemma_lex_cons(1, cons(-(ca as int), ua), 1, cons(-(cb as int), ub));
        }
        if ca != cb {
            return order::rank_u64(cb as u64, ca as u64);
        }
        if la != lb {
            return order::rank_u64(lb, la);
        }
        if pa != pb {
            return order::rank_u64(pa as u64, pb as u64);
        }
        if a.is_dir != b.is_dir {
            return order::rank_marked(a.is_dir, b.is_dir);
        }
        if a.mtime_ms != b.mtime_ms {
            return order::rank_u64(a.mtime_ms, b.mtime_ms);
        }
        self.fallback(a, b)
    }

    fn by_time(&self, a: &FileItem, b: &FileItem) -> (r: Rank)
        requires
            self.mode@ == "时间"@,
            self.mode@ != "常用"@,
            !model::bin_path(a.path@),
            !model::bin_path(b.path@),
        ensures
            r == key_rank(self.key(*a), self.key(*b)),
    {
        proof {
            let (da, db) = (mark(a.is_dir), mark(b.is_dir));
            let (ma, mb) = (-(a.mtime_ms as int), -(b.mtime_ms as int));
            lemma_lex_one(da, db);
            lemma_lex_cons(ma, seq![da], mb, seq![db]);
            lemma_lex_cons(1, cons(ma, seq![da]), 1, cons(mb, seq![db]));
        }
        if a.mtime_ms != b.mtime_ms {
            return order::rank_u64(b.mtime_ms, a.mtime_ms);
        }
        self.fallback(a, b)
    }

    fn by_hand(&self, a: &FileItem, b: &FileItem) -> (r: Rank)
        requires
            self.mode@ != "时间"@,
            self.mode@ != "常用"@,
            self.mode@ != "名称"@,
            !model::bin_path(a.path@),
            !model::bin_path(b.path@),
        ensures
            r == key_rank(self.key(*a), self.key(*b)),
    {
        let pa: usize = self.place(a.path.as_str());
        let pb: usize = self.place(b.path.as_str());
        proof {
            let e = Seq::<char>::empty();
            let (da, db) = (mark(a.is_dir), mark(b.is_dir));
            let (ma, mb) = (a.mtime_ms as int, b.mtime_ms as int);
            lemma_lex_one(da, db);
            lemma_lex_cons(ma, seq![da], mb, seq![db]);
            let (sa, sb) = (cons(ma, seq![da]), cons(mb, seq![db]));
            lemma_lex_cons(pa as int, sa, pb as int, sb);
            lemma_lex_cons(1, cons(pa as int, sa), 1, cons(pb as int, sb));
            lemma_lex_one(pa as int, pb as int);
            lemma_lex_cons(1, seq![pa as int], 1, seq![pb as int]);
            let none = Seq::<int>::empty();
            assert(seq![pa as int] =~= cons(pa as int, none));
            assert(seq![pb as int] =~= cons(pb as int, none));
            lemma_lex_cons(pa as int, none, pb as int, sb);
            lemma_lex_cons(pa as int, sa, pb as int, none);
            lemma_lex_cons(1, seq![pa as int], 1, cons(pb as int, sb));
            lemma_lex_cons(1, cons(pa as int, sa), 1, seq![pb as int]);
            assert(order::natural(e, e) == Rank::Same);
        }
        if pa != pb {
            return order::rank_u64(pa as u64, pb as u64);
        }
        if pa < self.order.len() {
            return Rank::Same;
        }
        if a.mtime_ms != b.mtime_ms {
            return order::rank_u64(a.mtime_ms, b.mtime_ms);
        }
        self.fallback(a, b)
    }

    fn rank(&self, a: &FileItem, b: &FileItem) -> (r: Rank)
        requires
            self.store.wf(),
        ensures
            r == key_rank(self.key(*a), self.key(*b)),
    {
        let bin_a = model::is_recycle_bin(a.path.as_str());
        let bin_b = model::is_recycle_bin(b.path.as_str());
        proof {
            let e = Seq::<char>::empty();
            assert(order::natural(e, e) == Rank::Same);
            lemma_lex_one(0, 0);
            lemma_lex_one(1, 1);
            let (ka, kb) = (self.key(*a).0, self.key(*b).0);
            assert(bin_a ==> ka[0] == 0);
            assert(!bin_a ==> ka.len() > 0 && ka[0] == 1);
            assert(bin_b ==> kb[0] == 0);
            assert(!bin_b ==> kb.len() > 0 && kb[0] == 1);
        }
        if bin_a || bin_b {
            return order::rank_marked(bin_a, bin_b);
        }
        if text::same(self.mode, "常用") {
            self.by_usage(a, b)
        } else if text::same(self.mode, "时间") {
            self.by_time(a, b)
        } else if text::same(self.mode, "名称") {
            order::natural_rank(a.name.as_str(), b.name.as_str())
        } else {
            self.by_hand(a, b)
        }
    }
}

/// The order of a fence is total.
pub proof fn law_order_total(
    mode: Seq<char>,
    user: Seq<Seq<char>>,
    opened: Map<Seq<char>, UsageEntry>,
    a: FileItem,
    b: FileItem,
)
    ensures
        item_le(mode, user, opened, a, b) || item_le(mode, user, opened, b, a),
{
    let (ka, kb) = (sort_key(mode, user, opened, a), sort_key(mode, user, opened, b));
    order::lemma_lex_flip(ka.0, kb.0);
    order::law_natural_antisymmetric(ka.1, kb.1);
}

/// The order of a fence is transitive.
pub proof fn law_order_transitive(
    mode: Seq<char>,
    user: Seq<Seq<char>>,
    opened: Map<Seq<char>, UsageEntry>,
    a: FileItem,
    b: FileItem,
    c: FileItem,
)
    requires
        item_le(mode, user, opened, a, b),
        item_le(mode, user, opened, b, c),
    ensures
        item_le(mode, user, opened, a, c),
{
    let ka = sort_key(mode, user, opened, a);
    let kb = sort_key(mode, user, opened, b);
    let kc = sort_key(mode, user, opened, c);
    order::lemma_lex_transitive(ka.0, kb.0, kc.0);
    order::lemma_lex_same(ka.0, kb.0);
    order::lemma_lex_same(kb.0, kc.0);
    order::lemma_lex_same(ka.0, kc.0);
    if ka.0 == kb.0 && kb.0 == kc.0 {
        order::law_natural_transitive(ka.1, kb.1, kc.1);
    }
}

impl<'a> Preorder<FileItem> for FenceOrder<'a> {
    closed spec fn ready(&self) -> bool {
        self.store.wf()
    }

    closed spec fn le(&self, a: FileItem, b: FileItem) -> bool {
        item_le(self.mode@, text::texts(self.order@), self.store@, a, b)
    }

    proof fn total(&self, a: FileItem, b: FileItem) {
        law_order_total(self.mode@, text::texts(self.order@), self.store@, a, b);
    }

    proof fn transitive(&self, a: FileItem, b: FileItem, c: FileItem) {
        law_order_transitive(self.mode@, text::texts(self.order@), self.store@, a, b, c);
    }

    fn may_precede(&self, a: &FileItem, b: &FileItem) -> (r: bool) {
        match self.rank(a, b) {
            Rank::After => false,
            _ => true,
        }
    }
}

// ---------------------------------------------------------------- the list

/// The first file with the path `path`.
pub fn find_path(files: &Vec<FileItem>, path: &str) -> (r: Option<usize>)
    ensures
        match r {
            Some(i) => text::first_index(model::paths_of(files@), path@) == Some(i as int) && i
                < files.len() && files@[i as int].path@ == path@,
            None => text::first_index(model::paths_of(files@), path@) is None,
        },
        r is Some <==> model::paths_of(files@).contains(path@),
{
    let ghost v = model::paths_of(files@);
    let mut i: usize = 0;
    while i < files.len()
        invariant
            i <= files.len(),
            v == model::paths_of(files@),
            forall|j: int| 0 <= j < i ==> #[trigger] v[j] != path@,
        decreases files.len() - i,
    {
        assert(v[i as int] == files@[i as int].path@);
        if text::same(files[i].path.as_str(), path) {
            proof {
                text::lemma_first_index_at(v, path@, i as int);
                text::lemma_first_index(v, path@);
            }
            return Some(i);
        }
        i = i + 1;
    }
    proof {
        text::lemma_first_index(v, path@);
    }
    None
}

/// What a fence shows: the files of its category that were not dragged elsewhere
/// and the files dragged onto it, in the order of the fence.
pub fn display_list(
    fence: &Fence,
    all: &Vec<FileItem>,
    reg: &Registry,
    store: &UsageStore,
) -> (r: Vec<FileItem>)
    requires
        store.wf(),
    ensures
        exists|p: Seq<int>|
            in_fence_order(fence@, store@, p, members(fence@, reg@, all@), r@),
{
    let mut out: Vec<FileItem> = Vec::new();
    let old_home = has_category_fence(reg, model::UNCATEGORIZED);
    let in_home = if old_home {
        text::same(fence.category.as_str(), model::UNCATEGORIZED)
    } else {
        text::same(fence.category.as_str(), model::FALLBACK_CATEGORY)
    };
    let home = !auto_category(reg) && in_home;
    assert(home == is_orphan_home(fence@, reg@));
    let takes_own = text::same(fence.category.as_str(), model::FALLBACK_CATEGORY);
    let named = !fence.category.as_str().is_empty();
    let mut i: usize = 0;
    assert(all@.subrange(0, 0) =~= Seq::empty());
    while i < all.len()
        invariant
            i <= all.len(),
            home == is_orphan_home(fence@, reg@),
            takes_own == (fence@.category == model::FALLBACK_CATEGORY@),
            named == (fence@.category.len() > 0),
            out@ == by_category(fence@, reg@, all@.subrange(0, i as int)),
        decreases all.len() - i,
    {
        let f = &all[i];
        proof {
            let t = all@.subrange(0, i + 1);
            assert(t.drop_last() =~= all@.subrange(0, i as int));
            assert(t.last() == *f);
        }
        let claimed = pinned_elsewhere(reg, f.path.as_str());
        let own = text::same(f.category.as_str(), fence.category.as_str());
        let show = if home {
            !claimed && (!has_category_fence(reg, f.category.as_str()) || (takes_own && own))
                && find_path(&out, f.path.as_str()).is_none()
        } else {
            named && own && !text::has_text(&fence.pinned, f.path.as_str()) && !claimed
        };
        if show {
            out.push(f.clone());
        }
        i = i + 1;
    }
    assert(all@.subrange(0, all@.len() as int) =~= all@);
    let ghost base = out@;
    let ghost pins = text::texts(fence.pinned@);
    let mut j: usize = 0;
    assert(pins.subrange(0, 0) =~= Seq::empty());
    while j < fence.pinned.len()
        invariant
            j <= fence.pinned.len(),
            pins == text::texts(fence.pinned@),
            out@ == with_pinned(base, pins.subrange(0, j as int), all@),
        decreases fence.pinned.len() - j,
    {
        let p = fence.pinned[j].as_str();
        proof {
            let t = pins.subrange(0, j + 1);
            assert(t.drop_last() =~= pins.subrange(0, j as int));
            assert(t.last() == p@);
        }
        if let Some(k) = find_path(all, p) {
            if find_path(&out, p).is_none() {
                out.push(all[k].clone());
            }
        }
        j = j + 1;
    }
    assert(pins.subrange(0, pins.len() as int) =~= pins);
    let ghost input = out@;
    assert(input == members(fence@, reg@, all@));
    let o = FenceOrder { mode: fence.sort_mode.as_str(), order: &fence.item_order, store };
    order::stable_sort(&mut out, &o);
    proof {
        let p = choose|p: Seq<int>| order::sorted_from(&o, p, input, out@);
        assert forall|a: int, b: int| 0 <= a < b < out@.len() implies item_le(
            fence@.sort_mode,
            fence@.item_order,
            store@,
            #[trigger] out@[a],
            #[trigger] out@[b],
        ) && (item_le(fence@.sort_mode, fence@.item_order, store@, out@[b], out@[a]) ==> p[a]
            < p[b]) by {
            assert(o.le(out@[a], out@[b]));
            assert(o.le(out@[b], out@[a]) ==> p[a] < p[b]);
        }
        assert(in_fence_order(fence@, store@, p, input, out@));
    }
    out
}

// ---------------------------------------------------------------- what holds of every list

proof fn lemma_by_category(fence: FenceView, reg: RegistryView, all: Seq<FileItem>)
    ensures
        forall|k: int|
            0 <= k < by_category(fence, reg, all).len() ==> all.contains(
                #[trigger] by_category(fence, reg, all)[k],
            ) && shows_by_category(fence, reg, by_category(fence, reg, all)[k]),
        forall|k: int|
            0 <= k < all.len() && shows_by_category(fence, reg, #[trigger] all[k])
                ==> model::paths_of(by_category(fence, reg, all)).contains(all[k].path@),
    decreases all.len(),
{
    if all.len() > 0 {
        let rest = all.drop_last();
        let f = all.last();
        lemma_by_category(fence, reg, rest);
        let was = by_category(fence, reg, rest);
        let out = by_category(fence, reg, all);
        assert(out == was || out == was.push(f));
        assert forall|k: int| 0 <= k < out.len() implies all.contains(#[trigger] out[k])
            && shows_by_category(fence, reg, out[k]) by {
            if k < was.len() {
                assert(out[k] == was[k]);
                assert(rest.contains(was[k]));
                let j = choose|j: int| 0 <= j < rest.len() && rest[j] == was[k];
                assert(all[j] == out[k]);
            } else {
                assert(all[all.len() - 1] == out[k]);
            }
        }
        assert forall|x: Seq<char>| model::paths_of(was).contains(x) implies model::paths_of(
            out,
        ).contains(x) by {
            let j = choose|j: int| 0 <= j < was.len() && model::paths_of(was)[j] == x;
            assert(model::paths_of(out)[j] == x);
        }
        assert forall|k: int|
            0 <= k < all.len() && shows_by_category(
                fence,
                reg,
                #[trigger] all[k],
            ) implies model::paths_of(out).contains(all[k].path@) by {
            if k < rest.len() {
                assert(rest[k] == all[k]);
            } else if out == was.push(f) {
                assert(model::paths_of(out)[was.len() as int] == f.path@);
            }
        }
    }
}

proof fn lemma_with_pinned(base: Seq<FileItem>, pins: Seq<Seq<char>>, all: Seq<FileItem>)
    ensures
        base.is_prefix_of(with_pinned(base, pins, all)),
        forall|k: int|
            base.len() <= k < with_pinned(base, pins, all).len() ==> all.contains(
                #[trigger] with_pinned(base, pins, all)[k],
            ) && pins.contains(with_pinned(base, pins, all)[k].path@),
        forall|x: Seq<char>|
            pins.contains(x) && model::paths_of(all).contains(x) ==> #[trigger] model::paths_of(
                with_pinned(base, pins, all),
            ).contains(x),
        model::paths_of(base).no_duplicates() ==> model::paths_of(
            with_pinned(base, pins, all),
        ).no_duplicates(),
    decreases pins.len(),
{
    if pins.len() > 0 {
        let rest = pins.drop_last();
        let x0 = pins.last();
        lemma_with_pinned(base, rest, all);
        let was = with_pinned(base, rest, all);
        let out = with_pinned(base, pins, all);
        text::lemma_first_index(model::paths_of(all), x0);
        assert forall|x: Seq<char>| rest.contains(x) implies pins.contains(x) by {
            let j = choose|j: int| 0 <= j < rest.len() && rest[j] == x;
            assert(pins[j] == x);
        }
        assert(pins[pins.len() - 1] == x0);
        if out != was {
            let i = text::first_index(model::paths_of(all), x0)->0;
            assert(out == was.push(all[i]));
            assert(all[i].path@ == x0);
            assert(model::paths_of(out) =~= model::paths_of(was).push(x0));
            assert(all.contains(all[i]));
        }
        assert forall|x: Seq<char>| model::paths_of(was).contains(x) implies model::paths_of(
            out,
        ).contains(x) by {
            let j = choose|j: int| 0 <= j < was.len() && model::paths_of(was)[j] == x;
            assert(model::paths_of(out)[j] == x);
        }
        assert forall|x: Seq<char>|
            pins.contains(x) && model::paths_of(all).contains(x) implies #[trigger] model::paths_of(
            out,
        ).contains(x) by {
            let j = choose|j: int| 0 <= j < pins.len() && pins[j] == x;
            if j < rest.len() {
                assert(rest[j] == x);
                assert(model::paths_of(was).contains(x));
            } else if out != was {
                assert(model::paths_of(out)[was.len() as int] == x);
            }
        }
    } else {
        assert(with_pinned(base, pins, all) =~= base);
    }
}

/// Nothing is shown that the scan did not find.
pub proof fn law_shown_was_scanned(
    fence: FenceView,
    reg: RegistryView,
    all: Seq<FileItem>,
    k: int,
)
    requires
        0 <= k < members(fence, reg, all).len(),
    ensures
        all.contains(members(fence, reg, all)[k]),
        shows_by_category(fence, reg, members(fence, reg, all)[k]) || fence.pinned.contains(
            members(fence, reg, all)[k].path@,
        ),
{
    let base = by_category(fence, reg, all);
    lemma_by_category(fence, reg, all);
    lemma_with_pinned(base, fence.pinned, all);
    if k < base.len() {
        assert(members(fence, reg, all)[k] == base[k]);
    }
}

proof fn lemma_by_category_distinct(fence: FenceView, reg: RegistryView, all: Seq<FileItem>)
    requires
        model::paths_of(all).no_duplicates(),
    ensures
        model::paths_of(by_category(fence, reg, all)).no_duplicates(),
    decreases all.len(),
{
    if all.len() > 0 {
        let rest = all.drop_last();
        let f = all.last();
        let a = model::paths_of(all);
        assert(model::paths_of(rest) =~= a.drop_last());
        assert(model::paths_of(rest).no_duplicates());
        lemma_by_category_distinct(fence, reg, rest);
        let was = by_category(fence, reg, rest);
        let out = by_category(fence, reg, all);
        if out != was {
            lemma_by_category(fence, reg, rest);
            assert(model::paths_of(out) =~= model::paths_of(was).push(f.path@));
            assert forall|k: int| 0 <= k < was.len() implies #[trigger] model::paths_of(was)[k]
                != f.path@ by {
                assert(rest.contains(was[k]));
                let j = choose|j: int| 0 <= j < rest.len() && rest[j] == was[k];
                assert(a[j] == was[k].path@);
                assert(a[all.len() - 1] == f.path@);
            }
        }
    }
}

/// Where the scan lists no path twice, no fence shows a path twice.
pub proof fn law_no_path_twice(
    fence: FenceView,
    reg: RegistryView,
    opened: Map<Seq<char>, UsageEntry>,
    all: Seq<FileItem>,
    p: Seq<int>,
    out: Seq<FileItem>,
)
    requires
        model::paths_of(all).no_duplicates(),
        in_fence_order(fence, opened, p, members(fence, reg, all), out),
    ensures
        model::paths_of(out).no_duplicates(),
{
    let input = members(fence, reg, all);
    lemma_by_category_distinct(fence, reg, all);
    lemma_with_pinned(by_category(fence, reg, all), fence.pinned, all);
    assert forall|i: int, j: int| 0 <= i < j < out.len() implies model::paths_of(out)[i]
        != model::paths_of(out)[j] by {
        assert(out[i] == input[p[i]]);
        assert(out[j] == input[p[j]]);
        assert(p[i] != p[j]);
        assert(model::paths_of(input)[p[i]] == out[i].path@);
        assert(model::paths_of(input)[p[j]] == out[j].path@);
    }
}

/// The recycle bin stands before everything else, whatever the sort mode.
pub proof fn law_recycle_bin_first(
    fence: FenceView,
    opened: Map<Seq<char>, UsageEntry>,
    p: Seq<int>,
    input: Seq<FileItem>,
    out: Seq<FileItem>,
    i: int,
    j: int,
)
    requires
        in_fence_order(fence, opened, p, input, out),
        0 <= i < j < out.len(),
        model::bin_path(out[j].path@),
    ensures
        model::bin_path(out[i].path@),
{
    let ka = sort_key(fence.sort_mode, fence.item_order, opened, out[i]);
    let kb = sort_key(fence.sort_mode, fence.item_order, opened, out[j]);
    assert(item_le(fence.sort_mode, fence.item_order, opened, out[i], out[j]));
    if !model::bin_path(out[i].path@) {
        assert(ka.0.len() > 0 && ka.0[0] == 1);
        assert(kb.0[0] == 0);
    }
}

/// A file dragged onto a fence is shown by fences it was dragged onto and by no other.
pub proof fn law_pinned_files_stay_on_their_fence(
    fences: Seq<FenceView>,
    auto: bool,
    all: Seq<FileItem>,
    i: int,
    path: Seq<char>,
)
    requires
        0 <= i < fences.len(),
        pinned_by(fences).contains(path),
        model::paths_of(all).contains(path),
    ensures
        model::paths_of(members(fences[i], registry_by(auto, fences), all)).contains(path)
            <==> fences[i].pinned.contains(path),
{
    let reg = registry_by(auto, fences);
    let base = by_category(fences[i], reg, all);
    let shown = members(fences[i], reg, all);
    lemma_by_category(fences[i], reg, all);
    lemma_with_pinned(base, fences[i].pinned, all);
    if model::paths_of(shown).contains(path) {
        let k = choose|k: int| 0 <= k < shown.len() && model::paths_of(shown)[k] == path;
        if k < base.len() {
            assert(shown[k] == base[k]);
            assert(shows_by_category(fences[i], reg, base[k]));
        }
    }
}

/// A file has a fence to go to: one it was dragged onto, one of its category, or,
/// while categories are not automatic, the home of files without a fence.
pub open spec fn has_a_fence(fences: Seq<FenceView>, auto: bool, f: FileItem) -> bool {
    ||| pinned_by(fences).contains(f.path@)
    ||| categories_by(fences).contains(f.category@)
    ||| !auto && categories_by(fences).contains(orphan_home(registry_by(auto, fences)))
}

/// No file is hidden: every file of the scan that has a fence to go to is shown by
/// some fence. Only a file whose own category is `未分类` can be passed over, and
/// only while categories are not automatic.
pub proof fn law_every_file_is_shown(
    fences: Seq<FenceView>,
    auto: bool,
    all: Seq<FileItem>,
    k: int,
)
    requires
        0 <= k < all.len(),
        has_a_fence(fences, auto, all[k]),
        auto || all[k].category@ != model::UNCATEGORIZED@ || !categories_by(fences).contains(
            model::UNCATEGORIZED@,
        ) || pinned_by(fences).contains(all[k].path@),
    ensures
        exists|i: int|
            0 <= i < fences.len() && model::paths_of(
                members(#[trigger] fences[i], registry_by(auto, fences), all),
            ).contains(all[k].path@),
{
    let reg = registry_by(auto, fences);
    let f = all[k];
    let path = f.path@;
    assert(model::paths_of(all)[k] == path);
    let i = if pinned_by(fences).contains(path) {
        choose|i: int| 0 <= i < fences.len() && (#[trigger] fences[i]).pinned.contains(path)
    } else if categories_by(fences).contains(f.category@) {
        choose|i: int| 0 <= i < fences.len() && (#[trigger] fences[i]).category == f.category@
    } else {
        choose|i: int|
            0 <= i < fences.len() && (#[trigger] fences[i]).category == orphan_home(reg)
    };
    let fence = fences[i];
    lemma_by_category(fence, reg, all);
    lemma_with_pinned(by_category(fence, reg, all), fence.pinned, all);
    if !pinned_by(fences).contains(path) {
        assert(!fence.pinned.contains(path));
        assert(shows_by_category(fence, reg, f));
        let base = by_category(fence, reg, all);
        let shown = members(fence, reg, all);
        assert(model::paths_of(base).contains(path));
        let n = choose|n: int| 0 <= n < base.len() && model::paths_of(base)[n] == path;
        assert(shown[n] == base[n]);
        assert(model::paths_of(shown)[n] == path);
    }
    assert(model::paths_of(members(fences[i], reg, all)).contains(path));
}

/// What a fence shows, and in which order, is determined: there is one such list.
pub proof fn law_list_is_determined(
    fence: FenceView,
    opened: Map<Seq<char>, UsageEntry>,
    input: Seq<FileItem>,
    p: Seq<int>,
    out: Seq<FileItem>,
    q: Seq<int>,
    other: Seq<FileItem>,
)
    requires
        in_fence_order(fence, opened, p, input, out),
        in_fence_order(fence, opened, q, input, other),
    ensures
        out == other,
{
    order::lemma_sorted_once(
        |a: FileItem, b: FileItem| item_le(fence.sort_mode, fence.item_order, opened, a, b),
        input,
        p,
        out,
        q,
        other,
    );
}

/// `list` is what a fence shows.
pub open spec fn shown_by(
    fence: FenceView,
    reg: RegistryView,
    opened: Map<Seq<char>, UsageEntry>,
    all: Seq<FileItem>,
    list: Seq<FileItem>,
) -> bool {
    exists|p: Seq<int>| in_fence_order(fence, opened, p, members(fence, reg, all), list)
}

/// The first list that holds `path`, and the place of `path` in it.
pub open spec fn located(lists: Seq<Seq<FileItem>>, path: Seq<char>) -> Option<(int, int)>
    decreases lists.len(),
{
    if lists.len() == 0 {
        None
    } else {
        match located(lists.drop_last(), path) {
            Some(at) => Some(at),
            None => match text::first_index(model::paths_of(lists.last()), path) {
                Some(j) => Some((lists.len() - 1, j)),
                None => None,
            },
        }
    }
}

/// The first fence that shows the file `path`, and the file's place in it.
pub fn locate_file(
    fences: &Vec<Fence>,
    all: &Vec<FileItem>,
    reg: &Registry,
    store: &UsageStore,
    path: &str,
) -> (r: Option<(usize, usize)>)
    requires
        store.wf(),
    ensures
        exists|lists: Seq<Seq<FileItem>>|
            lists.len() == fences@.len() && (forall|i: int|
                0 <= i < lists.len() ==> shown_by(
                    fences@[i]@,
                    reg@,
                    store@,
                    all@,
                    #[trigger] lists[i],
                )) && (match r {
                Some((f, k)) => located(lists, path@) == Some((f as int, k as int)),
                None => located(lists, path@) is None,
            }),
{
    let ghost mut lists: Seq<Seq<FileItem>> = Seq::empty();
    let mut found: Option<(usize, usize)> = None;
    let mut i: usize = 0;
    while i < fences.len()
        invariant
            store.wf(),
            i <= fences.len(),
            lists.len() == i,
            forall|k: int|
                0 <= k < lists.len() ==> shown_by(
                    fences@[k]@,
                    reg@,
                    store@,
                    all@,
                    #[trigger] lists[k],
                ),
            match found {
                Some((f, k)) => located(lists, path@) == Some((f as int, k as int)),
                None => located(lists, path@) is None,
            },
        decreases fences.len() - i,
    {
        let list = display_list(&fences[i], all, reg, store);
        proof {
            let was = lists;
            lists = was.push(list@);
            assert(lists.drop_last() =~= was);
            assert(lists.last() == list@);
        }
        if found.is_none() {
            match find_path(&list, path) {
                Some(k) => {
                    found = Some((i, k));
                },
                None => {},
            }
        }
        i = i + 1;
    }
    found
}

// ---------------------------------------------------------------- what the order means

/// `a` is the first place of `x` in `order`.
pub open spec fn first_at(order: Seq<Seq<char>>, x: Seq<char>, a: int) -> bool {
    &&& 0 <= a < order.len()
    &&& order[a] == x
    &&& forall|c: int| 0 <= c < a ==> #[trigger] order[c] != x
}

/// `x` stands in `order`, and `y` behind it or not at all.
pub open spec fn listed_before(order: Seq<Seq<char>>, x: Seq<char>, y: Seq<char>) -> bool {
    exists|a: int| #[trigger]
        first_at(order, x, a) && (!order.contains(y) || exists|b: int| #[trigger]
            first_at(order, y, b) && a < b)
}

proof fn lemma_place(order: Seq<Seq<char>>, x: Seq<char>)
    ensures
        0 <= place_in(order, x) <= order.len(),
        place_in(order, x) < order.len() <==> order.contains(x),
        forall|a: int| #[trigger] first_at(order, x, a) <==> order.contains(x) && a == place_in(
            order,
            x,
        ),
{
    text::lemma_first_index(order, x);
    assert forall|a: int| #[trigger] first_at(order, x, a) <==> order.contains(x) && a == place_in(
        order,
        x,
    ) by {
        if first_at(order, x, a) {
            text::lemma_first_index_at(order, x, a);
        }
    }
}

proof fn lemma_listed(order: Seq<Seq<char>>, x: Seq<char>, y: Seq<char>)
    ensures
        listed_before(order, x, y) <==> place_in(order, x) < place_in(order, y),
{
    lemma_place(order, x);
    lemma_place(order, y);
    let (a, b) = (place_in(order, x), place_in(order, y));
    if a < b {
        assert(first_at(order, x, a));
        if order.contains(y) {
            assert(first_at(order, y, b));
        }
    }
}

proof fn lemma_hand_rank(
    mode: Seq<char>,
    user: Seq<Seq<char>>,
    opened: Map<Seq<char>, UsageEntry>,
    a: FileItem,
    b: FileItem,
)
    requires
        mode != "常用"@,
        mode != "时间"@,
        mode != "名称"@,
        !model::bin_path(a.path@),
        !model::bin_path(b.path@),
    ensures
        ({
            let (pa, pb) = (place_in(user, a.path@), place_in(user, b.path@));
            let r = key_rank(sort_key(mode, user, opened, a), sort_key(mode, user, opened, b));
            &&& pa != pb ==> r == order::num_rank(pa, pb)
            &&& pa == pb && pa < user.len() ==> r == Rank::Same
            &&& pa == pb && pa >= user.len() ==> r == order::chain(
                order::num_rank(a.mtime_ms as int, b.mtime_ms as int),
                order::chain(
                    order::num_rank(mark(a.is_dir), mark(b.is_dir)),
                    order::natural(a.name@, b.name@),
                ),
            )
        }),
{
    let (pa, pb) = (place_in(user, a.path@), place_in(user, b.path@));
    let e = Seq::<char>::empty();
    let (da, db) = (mark(a.is_dir), mark(b.is_dir));
    let (ma, mb) = (a.mtime_ms as int, b.mtime_ms as int);
    lemma_lex_one(da, db);
    lemma_lex_cons(ma, seq![da], mb, seq![db]);
    let (sa, sb) = (cons(ma, seq![da]), cons(mb, seq![db]));
    lemma_lex_cons(pa, sa, pb, sb);
    lemma_lex_cons(1, cons(pa, sa), 1, cons(pb, sb));
    lemma_lex_one(pa, pb);
    lemma_lex_cons(1, seq![pa], 1, seq![pb]);
    let none = Seq::<int>::empty();
    assert(seq![pa] =~= cons(pa, none));
    assert(seq![pb] =~= cons(pb, none));
    lemma_lex_cons(pa, none, pb, sb);
    lemma_lex_cons(pa, sa, pb, none);
    lemma_lex_cons(1, seq![pa], 1, cons(pb, sb));
    lemma_lex_cons(1, cons(pa, sa), 1, seq![pb]);
    assert(order::natural(e, e) == Rank::Same);
    lemma_place(user, a.path@);
    lemma_place(user, b.path@);
}

/// In a fence ordered by hand, the files stand as the user put them, and the files that
/// the user has not put anywhere come behind all of these: the older first, of one time
/// the folders, then by name.
pub proof fn law_hand_order_is_the_users(
    fence: FenceView,
    opened: Map<Seq<char>, UsageEntry>,
    p: Seq<int>,
    input: Seq<FileItem>,
    out: Seq<FileItem>,
    i: int,
    j: int,
)
    requires
        in_fence_order(fence, opened, p, input, out),
        fence.sort_mode != "常用"@,
        fence.sort_mode != "时间"@,
        fence.sort_mode != "名称"@,
        0 <= i < out.len(),
        0 <= j < out.len(),
        i != j,
        !model::bin_path(out[i].path@),
        !model::bin_path(out[j].path@),
    ensures
        ({
            let (a, b) = (out[i], out[j]);
            let user = fence.item_order;
            &&& user.contains(a.path@) && !user.contains(b.path@) ==> i < j
            &&& forall|u: int, v: int|
                first_at(user, a.path@, u) && first_at(user, b.path@, v) && u < v ==> i < j
            &&& listed_before(user, a.path@, b.path@) ==> i < j
            &&& !user.contains(a.path@) && !user.contains(b.path@) && i < j ==> a.mtime_ms
                < b.mtime_ms || (a.mtime_ms == b.mtime_ms && (if a.is_dir == b.is_dir {
                order::natural(a.name@, b.name@) != Rank::After
            } else {
                a.is_dir
            }))
        }),
{
    let (a, b) = (out[i], out[j]);
    let user = fence.item_order;
    lemma_place(user, a.path@);
    lemma_place(user, b.path@);
    lemma_listed(user, a.path@, b.path@);
    lemma_hand_rank(fence.sort_mode, user, opened, a, b);
    lemma_hand_rank(fence.sort_mode, user, opened, b, a);
    if i < j {
        assert(item_le(fence.sort_mode, user, opened, out[i], out[j]));
    } else {
        assert(item_le(fence.sort_mode, user, opened, out[j], out[i]));
    }
}

/// In a fence ordered by use, the file opened more often comes first, then the one
/// opened last, then as in the user's order, then folders, the older, and by name.
pub proof fn law_usage_order_puts_the_used_first(
    fence: FenceView,
    opened: Map<Seq<char>, UsageEntry>,
    p: Seq<int>,
    input: Seq<FileItem>,
    out: Seq<FileItem>,
    i: int,
    j: int,
)
    requires
        in_fence_order(fence, opened, p, input, out),
        fence.sort_mode == "常用"@,
        0 <= i < j < out.len(),
        !model::bin_path(out[i].path@),
        !model::bin_path(out[j].path@),
    ensures
        ({
            let (a, b) = (out[i], out[j]);
            let user = fence.item_order;
            let (x, y) = (a.path@, b.path@);
            let ca = if opened.contains_key(x) {
                opened[x].count
            } else {
                0
            };
            let cb = if opened.contains_key(y) {
                opened[y].count
            } else {
                0
            };
            let la = if opened.contains_key(x) {
                opened[x].last_ms
            } else {
                0
            };
            let lb = if opened.contains_key(y) {
                opened[y].last_ms
            } else {
                0
            };
            &&& ca >= cb
            &&& ca == cb ==> la >= lb
            &&& ca == cb && la == lb ==> !listed_before(user, y, x)
            &&& ca == cb && la == lb && !listed_before(user, x, y) ==> {
                &&& b.is_dir ==> a.is_dir
                &&& a.is_dir == b.is_dir ==> a.mtime_ms <= b.mtime_ms
                &&& a.is_dir == b.is_dir && a.mtime_ms == b.mtime_ms ==> order::natural(
                    a.name@,
                    b.name@,
                ) != Rank::After
            }
        }),
{
    let (a, b) = (out[i], out[j]);
    let user = fence.item_order;
    lemma_listed(user, a.path@, b.path@);
    lemma_listed(user, b.path@, a.path@);
    assert(item_le(fence.sort_mode, user, opened, out[i], out[j]));
    let (ca, la) = usage::usage_at(opened, a.path@);
    let (cb, lb) = usage::usage_at(opened, b.path@);
    let (pa, pb) = (place_in(user, a.path@), place_in(user, b.path@));
    let (da, db) = (mark(a.is_dir), mark(b.is_dir));
    let (ma, mb) = (a.mtime_ms as int, b.mtime_ms as int);
    lemma_lex_one(ma, mb);
    lemma_lex_cons(da, seq![ma], db, seq![mb]);
    let (sa, sb) = (cons(da, seq![ma]), cons(db, seq![mb]));
    lemma_lex_cons(pa, sa, pb, sb);
    let (ta, tb) = (cons(pa, sa), cons(pb, sb));
    lemma_lex_cons(-(la as int), ta, -(lb as int), tb);
    let (ua, ub) = (cons(-(la as int), ta), cons(-(lb as int), tb));
    lemma_lex_cons(-(ca as int), ua, -(cb as int), ub);
    lemma_lex_cons(1, cons(-(ca as int), ua), 1, cons(-(cb as int), ub));
}

/// In a fence ordered by time, the file changed last comes first, then folders, then by
/// name.
pub proof fn law_time_order_puts_the_newest_first(
    fence: FenceView,
    opened: Map<Seq<char>, UsageEntry>,
    p: Seq<int>,
    input: Seq<FileItem>,
    out: Seq<FileItem>,
    i: int,
    j: int,
)
    requires
        in_fence_order(fence, opened, p, input, out),
        fence.sort_mode == "时间"@,
        0 <= i < j < out.len(),
        !model::bin_path(out[i].path@),
        !model::bin_path(out[j].path@),
    ensures
        out[i].mtime_ms >= out[j].mtime_ms,
        out[i].mtime_ms == out[j].mtime_ms && out[j].is_dir ==> out[i].is_dir,
        out[i].mtime_ms == out[j].mtime_ms && out[j].is_dir == out[i].is_dir ==> order::natural(
            out[i].name@,
            out[j].name@,
        ) != Rank::After,
{
    let (a, b) = (out[i], out[j]);
    reveal_strlit("时间");
    reveal_strlit("常用");
    assert("时间"@[0] != "常用"@[0]);
    assert(item_le(fence.sort_mode, fence.item_order, opened, out[i], out[j]));
    let (da, db) = (mark(a.is_dir), mark(b.is_dir));
    let (ma, mb) = (-(a.mtime_ms as int), -(b.mtime_ms as int));
    lemma_lex_one(da, db);
    lemma_lex_cons(ma, seq![da], mb, seq![db]);
    lemma_lex_cons(1, cons(ma, seq![da]), 1, cons(mb, seq![db]));
}

/// In a fence ordered by name, no file comes behind one that its name follows.
pub proof fn law_name_order_is_natural(
    fence: FenceView,
    opened: Map<Seq<char>, UsageEntry>,
    p: Seq<int>,
    input: Seq<FileItem>,
    out: Seq<FileItem>,
    i: int,
    j: int,
)
    requires
        in_fence_order(fence, opened, p, input, out),
        fence.sort_mode == "名称"@,
        0 <= i < j < out.len(),
        !model::bin_path(out[i].path@),
        !model::bin_path(out[j].path@),
    ensures
        order::natural(out[i].name@, out[j].name@) != Rank::After,
{
    reveal_strlit("时间");
    reveal_strlit("常用");
    reveal_strlit("名称");
    assert("时间"@[0] != "名称"@[0]);
    assert("常用"@[0] != "名称"@[0]);
    assert(item_le(fence.sort_mode, fence.item_order, opened, out[i], out[j]));
    lemma_lex_one(1, 1);
}

/// Files that rank alike keep the order in which they were found.
pub proof fn law_equal_files_keep_their_order(
    fence: FenceView,
    opened: Map<Seq<char>, UsageEntry>,
    p: Seq<int>,
    input: Seq<FileItem>,
    out: Seq<FileItem>,
    i: int,
    j: int,
)
    requires
        in_fence_order(fence, opened, p, input, out),
        0 <= i < j < out.len(),
        out[i].name@ == out[j].name@,
        out[i].path@ == out[j].path@,
        out[i].is_dir == out[j].is_dir,
        out[i].mtime_ms == out[j].mtime_ms,
    ensures
        p[i] < p[j],
        out[i] == input[p[i]],
        out[j] == input[p[j]],
{
    assert(sort_key(fence.sort_mode, fence.item_order, opened, out[i]) == sort_key(
        fence.sort_mode,
        fence.item_order,
        opened,
        out[j],
    ));
    assert(item_le(fence.sort_mode, fence.item_order, opened, out[i], out[j]));
}

// ---------------------------------------------------------------- what is shown

/// Which files a fence shows: those dragged onto it, and those of its category that were
/// dragged onto no fence. While categories are not automatic, the fence of `未分类`, or
/// where there is none the one of `其他`, shows in place of the latter the files whose
/// category has no fence; the one of `其他` shows those of `其他` too.
pub proof fn law_fence_shows_its_files(
    fences: Seq<FenceView>,
    auto: bool,
    fence: FenceView,
    all: Seq<FileItem>,
    k: int,
)
    requires
        0 <= k < all.len(),
        model::paths_of(all).no_duplicates(),
    ensures
        ({
            let f = all[k];
            let dragged = exists|i: int|
                0 <= i < fences.len() && (#[trigger] fences[i]).pinned.contains(f.path@);
            let fenced = f.category@.len() > 0 && exists|i: int|
                0 <= i < fences.len() && (#[trigger] fences[i]).category == f.category@;
            let old_home = exists|i: int|
                0 <= i < fences.len() && (#[trigger] fences[i]).category == "未分类"@;
            let home = !auto && fence.category == (if old_home {
                "未分类"@
            } else {
                "其他"@
            });
            let shown = members(fence, registry_by(auto, fences), all);
            &&& shown.contains(f) <==> fence.pinned.contains(f.path@) || (!dragged && (if home {
                !fenced || (fence.category == "其他"@ && f.category@ == "其他"@)
            } else {
                fence.category.len() > 0 && f.category@ == fence.category
            }))
        }),
{
    let f = all[k];
    let reg = registry_by(auto, fences);
    reveal_strlit("未分类");
    assert("未分类"@.len() == 3);
    let base = by_category(fence, reg, all);
    let shown = members(fence, reg, all);
    lemma_by_category(fence, reg, all);
    lemma_with_pinned(base, fence.pinned, all);
    let paths = model::paths_of(all);
    assert(paths[k] == f.path@);
    assert forall|g: FileItem| #[trigger] all.contains(g) && g.path@ == f.path@ implies g == f by {
        let n = choose|n: int| 0 <= n < all.len() && all[n] == g;
        assert(paths[n] == paths[k]);
    }
    if model::paths_of(shown).contains(f.path@) {
        let n = choose|n: int| 0 <= n < shown.len() && model::paths_of(shown)[n] == f.path@;
        if n < base.len() {
            assert(shown[n] == base[n]);
        }
        assert(all.contains(shown[n]));
        assert(shown[n] == f);
    }
    if shown.contains(f) {
        let n = choose|n: int| 0 <= n < shown.len() && shown[n] == f;
        if n < base.len() {
            assert(shown[n] == base[n]);
            assert(shows_by_category(fence, reg, base[n]));
        }
        assert(model::paths_of(shown)[n] == f.path@);
    }
    if shows_by_category(fence, reg, f) {
        let n = choose|n: int| 0 <= n < base.len() && model::paths_of(base)[n] == f.path@;
        assert(shown[n] == base[n]);
        assert(model::paths_of(shown)[n] == f.path@);
    }
    if fence.pinned.contains(f.path@) {
        assert(model::paths_of(shown).contains(f.path@));
    }
}

/// A file is located in the first list that shows it, at its first place there, and not
/// at all only where no list shows it.
pub proof fn law_file_is_found_where_it_is_shown(lists: Seq<Seq<FileItem>>, path: Seq<char>)
    ensures
        match located(lists, path) {
            Some((f, k)) => {
                &&& 0 <= f < lists.len()
                &&& 0 <= k < lists[f].len()
                &&& lists[f][k].path@ == path
                &&& forall|j: int| 0 <= j < k ==> (#[trigger] lists[f][j]).path@ != path
                &&& forall|g: int, j: int|
                    0 <= g < f && 0 <= j < lists[g].len() ==> (#[trigger] lists[g][j]).path@ != path
            },
            None => forall|g: int, j: int|
                0 <= g < lists.len() && 0 <= j < lists[g].len() ==> (#[trigger] lists[g][j]).path@
                    != path,
        },
    decreases lists.len(),
{
    if lists.len() > 0 {
        let h = lists.drop_last();
        law_file_is_found_where_it_is_shown(h, path);
        let last = lists.last();
        let v = model::paths_of(last);
        text::lemma_first_index(v, path);
        assert forall|g: int| 0 <= g < h.len() implies #[trigger] h[g] == lists[g] by {}
        if located(h, path) is None {
            assert forall|g: int, j: int|
                0 <= g < lists.len() - 1 && 0 <= j < lists[g].len() implies (
            #[trigger] lists[g][j]).path@ != path by {
                assert(h[g][j].path@ != path);
            }
            match text::first_index(v, path) {
                Some(k) => {
                    assert forall|j: int| 0 <= j < k implies (#[trigger] last[j]).path@ != path by {
                        assert(v[j] != path);
                    }
                },
                None => {
                    assert forall|j: int| 0 <= j < last.len() implies (
                    #[trigger] last[j]).path@ != path by {
                        assert(v[j] == last[j].path@);
                    }
                },
            }
        } else {
            let (f, k) = located(h, path)->0;
            assert(h[f] == lists[f]);
            assert forall|j: int| 0 <= j < k implies (#[trigger] lists[f][j]).path@ != path by {
                assert(h[f][j].path@ != path);
            }
            assert forall|g: int, j: int| 0 <= g < f && 0 <= j < lists[g].len() implies (
            #[trigger] lists[g][j]).path@ != path by {
                assert(h[g][j].path@ != path);
            }
        }
    }
}

/// What a fence shows is one list.
pub proof fn law_fence_shows_one_list(
    fence: FenceView,
    reg: RegistryView,
    opened: Map<Seq<char>, UsageEntry>,
    all: Seq<FileItem>,
    a: Seq<FileItem>,
    b: Seq<FileItem>,
)
    requires
        shown_by(fence, reg, opened, all, a),
        shown_by(fence, reg, opened, all, b),
    ensures
        a == b,
        a.len() == members(fence, reg, all).len(),
{
    let input = members(fence, reg, all);
    let p = choose|p: Seq<int>| in_fence_order(fence, opened, p, input, a);
    let q = choose|q: Seq<int>| in_fence_order(fence, opened, q, input, b);
    law_list_is_determined(fence, opened, input, p, a, q, b);
}

proof fn lemma_scan_order(
    fence: FenceView,
    reg: RegistryView,
    all: Seq<FileItem>,
    a: int,
    b: int,
)
    requires
        0 <= a < b < by_category(fence, reg, all).len(),
    ensures
        exists|i: int, j: int|
            0 <= i < j < all.len() && #[trigger] all[i] == by_category(fence, reg, all)[a]
                && #[trigger] all[j] == by_category(fence, reg, all)[b],
    decreases all.len(),
{
    let h = all.drop_last();
    let (was, out) = (by_category(fence, reg, h), by_category(fence, reg, all));
    if b < was.len() {
        lemma_scan_order(fence, reg, h, a, b);
        let (i, j) = choose|i: int, j: int|
            0 <= i < j < h.len() && #[trigger] h[i] == was[a] && #[trigger] h[j] == was[b];
        assert(all[i] == out[a] && all[j] == out[b]);
    } else {
        lemma_by_category(fence, reg, h);
        assert(h.contains(was[a]));
        let i = choose|i: int| 0 <= i < h.len() && h[i] == was[a];
        assert(all[i] == out[a]);
        assert(all[all.len() - 1] == out[b]);
    }
}

proof fn lemma_pin_order(base: Seq<FileItem>, pins: Seq<Seq<char>>, all: Seq<FileItem>, a: int, b: int)
    requires
        base.len() <= a < b < with_pinned(base, pins, all).len(),
    ensures
        exists|i: int, j: int|
            0 <= i < j < pins.len() && #[trigger] pins[i] == with_pinned(base, pins, all)[a].path@
                && #[trigger] pins[j] == with_pinned(base, pins, all)[b].path@,
    decreases pins.len(),
{
    let h = pins.drop_last();
    let (was, out) = (with_pinned(base, h, all), with_pinned(base, pins, all));
    lemma_with_pinned(base, h, all);
    text::lemma_first_index(model::paths_of(all), pins.last());
    if b < was.len() {
        lemma_pin_order(base, h, all, a, b);
        let (i, j) = choose|i: int, j: int|
            0 <= i < j < h.len() && #[trigger] h[i] == was[a].path@ && #[trigger] h[j]
                == was[b].path@;
        assert(pins[i] == out[a].path@ && pins[j] == out[b].path@);
    } else {
        assert(h.contains(was[a].path@));
        let i = choose|i: int| 0 <= i < h.len() && h[i] == was[a].path@;
        assert(pins[i] == out[a].path@);
        assert(pins[pins.len() - 1] == out[b].path@);
    }
}

/// Before they are sorted, the files of a fence stand as the scan found them, and those that
/// were dragged onto it behind all others, as they were dragged.
pub proof fn law_dragged_files_come_last(
    fences: Seq<FenceView>,
    auto: bool,
    n: int,
    all: Seq<FileItem>,
    a: int,
    b: int,
)
    requires
        0 <= n < fences.len(),
        0 <= a < b < members(fences[n], registry_by(auto, fences), all).len(),
    ensures
        ({
            let m = members(fences[n], registry_by(auto, fences), all);
            let pins = fences[n].pinned;
            let (x, y) = (pins.contains(m[a].path@), pins.contains(m[b].path@));
            &&& x ==> y
            &&& !x && !y ==> exists|i: int, j: int|
                0 <= i < j < all.len() && #[trigger] all[i] == m[a] && #[trigger] all[j] == m[b]
            &&& x && y ==> exists|i: int, j: int|
                0 <= i < j < pins.len() && #[trigger] pins[i] == m[a].path@ && #[trigger] pins[j]
                    == m[b].path@
        }),
{
    let fence = fences[n];
    let reg = registry_by(auto, fences);
    let base = by_category(fence, reg, all);
    let m = members(fence, reg, all);
    lemma_by_category(fence, reg, all);
    lemma_with_pinned(base, fence.pinned, all);
    assert forall|k: int| 0 <= k < base.len() implies !fence.pinned.contains(
        (#[trigger] m[k]).path@,
    ) by {
        assert(m[k] == base[k]);
        assert(shows_by_category(fence, reg, base[k]));
        if fence.pinned.contains(m[k].path@) {
            assert(fences[n].pinned.contains(m[k].path@));
            assert(reg.pinned.contains(m[k].path@));
        }
    }
    if b < base.len() {
        assert(m[a] == base[a] && m[b] == base[b]);
        lemma_scan_order(fence, reg, all, a, b);
    } else if a >= base.len() {
        lemma_pin_order(base, fence.pinned, all, a, b);
    }
}

} // verus!

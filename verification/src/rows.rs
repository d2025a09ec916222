//! Rows of fences: which slot a dragged fence goes to, and which fences move up.
//!
//! A row lists, from left to right, the numbers of the fences in it.
use crate::model;
use crate::model::{Fence, FenceView};
use crate::order;
use crate::order::Preorder;
use vstd::prelude::*;

verus! {

// ---------------------------------------------------------------- which fences make a row

/// How the fences stand, as far as it matters for their rows. The numbers only order
/// the fences: `middle` from top to bottom, `left` from left to right.
pub struct Standing {
    pub middle: Vec<i64>,
    pub left: Vec<i64>,
    /// Whether a fence (the second number) stands so far below another (the first)
    /// that they cannot be in one row.
    pub apart: Vec<Vec<bool>>,
}

/// The contents of a `Standing`.
pub struct StandingView {
    pub middle: Seq<i64>,
    pub left: Seq<i64>,
    pub apart: Seq<Seq<bool>>,
}

impl View for Standing {
    type V = StandingView;

    open spec fn view(&self) -> StandingView {
        StandingView {
            middle: self.middle@,
            left: self.left@,
            apart: Seq::new(self.apart@.len(), |i: int| self.apart@[i]@),
        }
    }
}

impl StandingView {
    /// Everything is known of every fence.
    pub open spec fn wf(self) -> bool {
        &&& self.left.len() == self.middle.len()
        &&& self.apart.len() == self.middle.len()
        &&& forall|i: int|
            0 <= i < self.apart.len() ==> (#[trigger] self.apart[i]).len() == self.middle.len()
    }
}

/// The number by which a fence is ordered.
pub open spec fn key_of(keys: Seq<i64>, a: usize) -> int {
    if a < keys.len() {
        keys[a as int] as int
    } else {
        0
    }
}

/// `out` are the fences `input` by their keys, `p[i]` being where `out[i]` stood; those
/// with one key stay in their order.
pub open spec fn keyed(p: Seq<int>, input: Seq<usize>, keys: Seq<i64>, out: Seq<usize>) -> bool {
    &&& order::permutes(p, input, out)
    &&& forall|i: int, j: int|
        0 <= i < j < out.len() ==> key_of(keys, #[trigger] out[i]) <= key_of(
            keys,
            #[trigger] out[j],
        ) && (key_of(keys, out[i]) == key_of(keys, out[j]) ==> p[i] < p[j])
}

/// `out` are the fences `input` by their keys.
pub open spec fn by_key(input: Seq<usize>, keys: Seq<i64>, out: Seq<usize>) -> bool {
    exists|p: Seq<int>| keyed(p, input, keys, out)
}

/// All fences, by their numbers.
pub open spec fn all_fences(n: int) -> Seq<usize> {
    Seq::new(n as nat, |i: int| i as usize)
}

/// The fences of `order`, which goes from top to bottom, in bands: a fence starts a new
/// one where it is apart from the first of the last band.
pub open spec fn bands(order: Seq<usize>, apart: Seq<Seq<bool>>) -> Seq<Seq<usize>>
    decreases order.len(),
{
    if order.len() == 0 {
        Seq::empty()
    } else {
        let r = bands(order.drop_last(), apart);
        let x = order.last();
        if r.len() == 0 || apart[r.last()[0] as int][x as int] {
            r.push(seq![x])
        } else {
            r.update(r.len() - 1, r.last().push(x))
        }
    }
}

/// `rows` are the rows of the fences that stand as `s` tells: the bands from top to
/// bottom, each from left to right.
pub open spec fn rows_of(s: StandingView, rows: Seq<Seq<usize>>) -> bool {
    exists|o: Seq<usize>| #[trigger] rows_by(s, o, rows)
}

/// `rows` are the rows of the fences, which are `o` from top to bottom.
pub open spec fn rows_by(s: StandingView, o: Seq<usize>, rows: Seq<Seq<usize>>) -> bool {
    let b = bands(o, s.apart);
    &&& by_key(all_fences(s.middle.len() as int), s.middle, o)
    &&& rows.len() == b.len()
    &&& forall|i: int| 0 <= i < b.len() ==> by_key(#[trigger] b[i], s.left, rows[i])
}

/// The order of fences by a key.
struct ByKey<'a> {
    keys: &'a Vec<i64>,
}

impl<'a> Preorder<usize> for ByKey<'a> {
    closed spec fn ready(&self) -> bool {
        true
    }

    closed spec fn le(&self, a: usize, b: usize) -> bool {
        key_of(self.keys@, a) <= key_of(self.keys@, b)
    }

    proof fn total(&self, a: usize, b: usize) {
    }

    proof fn transitive(&self, a: usize, b: usize, c: usize) {
    }

    fn may_precede(&self, a: &usize, b: &usize) -> (r: bool) {
        let x: i64 = if *a < self.keys.len() {
            self.keys[*a]
        } else {
            0
        };
        let y: i64 = if *b < self.keys.len() {
            self.keys[*b]
        } else {
            0
        };
        x <= y
    }
}

fn sort_by_key(v: &mut Vec<usize>, keys: &Vec<i64>)
    ensures
        by_key(old(v)@, keys@, final(v)@),
{
    let o = ByKey { keys };
    let ghost was = v@;
    order::stable_sort(v, &o);
    proof {
        let p = choose|p: Seq<int>| order::sorted_from(&o, p, was, v@);
        assert forall|i: int, j: int| 0 <= i < j < v@.len() implies key_of(
            keys@,
            #[trigger] v@[i],
        ) <= key_of(keys@, #[trigger] v@[j]) && (key_of(keys@, v@[i]) == key_of(keys@, v@[j])
            ==> p[i] < p[j]) by {
            assert(o.le(v@[i], v@[j]));
        }
        assert(keyed(p, was, keys@, v@));
    }
}

proof fn lemma_bands_hold(order: Seq<usize>, apart: Seq<Seq<bool>>)
    ensures
        forall|i: int, j: int|
            0 <= i < bands(order, apart).len() && 0 <= j < bands(order, apart)[i].len()
                ==> order.contains(#[trigger] bands(order, apart)[i][j]),
        forall|i: int| 0 <= i < bands(order, apart).len() ==> (#[trigger] bands(order, apart)[i]).len()
            > 0,
    decreases order.len(),
{
    if order.len() > 0 {
        let o = order.drop_last();
        lemma_bands_hold(o, apart);
        let r = bands(o, apart);
        let b = bands(order, apart);
        assert forall|i: int, j: int| 0 <= i < b.len() && 0 <= j < b[i].len() implies order.contains(
            #[trigger] b[i][j],
        ) by {
            if i < r.len() && j < r[i].len() {
                assert(b[i][j] == r[i][j]);
                assert(o.contains(r[i][j]));
                let k = choose|k: int| 0 <= k < o.len() && o[k] == r[i][j];
                assert(order[k] == b[i][j]);
            } else {
                assert(b[i][j] == order.last());
                assert(order[order.len() - 1] == b[i][j]);
            }
        }
    }
}

/// The rows of the fences that stand as `s` tells.
pub fn rows_from_rects(s: &Standing) -> (r: Vec<Vec<usize>>)
    requires
        s@.wf(),
    ensures
        rows_of(s@, row_seqs(r@)),
        forall|i: int| 0 <= i < r@.len() ==> (#[trigger] r@[i]).len() > 0,
        forall|i: int, j: int|
            0 <= i < r@.len() && 0 <= j < r@[i].len() ==> #[trigger] r@[i]@[j] < s.middle.len(),
{
    let n: usize = s.middle.len();
    let mut all: Vec<usize> = Vec::new();
    let mut i: usize = 0;
    while i < n
        invariant
            i <= n,
            all@.len() == i,
            forall|k: int| 0 <= k < i ==> #[trigger] all@[k] == k,
        decreases n - i,
    {
        all.push(i);
        i = i + 1;
    }
    assert(all@ =~= all_fences(n as int));
    sort_by_key(&mut all, &s.middle);
    let ghost o = all@;
    let ghost apart = s@.apart;
    proof {
        let p = choose|p: Seq<int>| keyed(p, all_fences(n as int), s.middle@, o);
        assert forall|k: int| 0 <= k < o.len() implies #[trigger] o[k] < n by {
            assert(o[k] == all_fences(n as int)[p[k]]);
        }
    }
    let mut rows: Vec<Vec<usize>> = Vec::new();
    let mut k: usize = 0;
    assert(o.take(0) =~= Seq::empty());
    assert(row_seqs(rows@) =~= bands(o.take(0), apart));
    while k < all.len()
        invariant
            k <= all.len() == o.len(),
            all@ == o,
            n == s.middle.len(),
            s@.wf(),
            apart == s@.apart,
            forall|j: int| 0 <= j < o.len() ==> #[trigger] o[j] < n,
            row_seqs(rows@) == bands(o.take(k as int), apart),
        decreases all.len() - k,
    {
        let x: usize = all[k];
        let ghost b = bands(o.take(k as int), apart);
        let ghost before = rows@;
        proof {
            lemma_bands_hold(o.take(k as int), apart);
            assert(o.take(k + 1).drop_last() =~= o.take(k as int));
            assert(o.take(k + 1).last() == x);
        }
        if rows.len() == 0 {
            let mut row: Vec<usize> = Vec::new();
            row.push(x);
            rows.push(row);
            assert(rows@.last()@ =~= seq![x]);
        } else {
            let last: usize = rows.len() - 1;
            assert(b[last as int] == rows@[last as int]@);
            assert(b[last as int].len() > 0);
            let first: usize = rows[last][0];
            assert(first < n) by {
                assert(o.take(k as int).contains(b[last as int][0]));
            }
            assert(s@.apart[first as int] == s.apart@[first as int]@);
            if s.apart[first][x] {
                let mut row: Vec<usize> = Vec::new();
                row.push(x);
                rows.push(row);
                assert(rows@.last()@ =~= seq![x]);
            } else {
                rows[last].push(x);
            }
        }
        assert(row_seqs(rows@) =~= bands(o.take(k + 1), apart));
        k = k + 1;
    }
    assert(o.take(o.len() as int) =~= o);
    let ghost b = bands(o, apart);
    let mut i: usize = 0;
    while i < rows.len()
        invariant
            i <= rows.len() == b.len(),
            forall|j: int| 0 <= j < i ==> by_key(#[trigger] b[j], s.left@, rows@[j]@),
            forall|j: int| i <= j < rows.len() ==> #[trigger] b[j] == rows@[j]@,
        decreases rows.len() - i,
    {
        assert(b[i as int] == rows@[i as int]@);
        sort_by_key(&mut rows[i], &s.left);
        i = i + 1;
    }
    assert(rows_by(s@, o, row_seqs(rows@)));
    proof {
        lemma_bands_hold(o, apart);
        assert forall|i: int| 0 <= i < rows@.len() implies (#[trigger] rows@[i]).len() > 0 by {
            assert(by_key(b[i], s.left@, rows@[i]@));
        }
        assert forall|i: int, j: int| 0 <= i < rows@.len() && 0 <= j < rows@[i].len() implies
            #[trigger] rows@[i]@[j] < n by {
            assert(by_key(b[i], s.left@, rows@[i]@));
            let p = choose|p: Seq<int>| keyed(p, b[i], s.left@, rows@[i]@);
            assert(rows@[i]@[j] == b[i][p[j]]);
            assert(o.contains(b[i][p[j]]));
        }
    }
    rows
}

// ---------------------------------------------------------------- shelves

/// How the fences stand, as far as it matters for putting them on shelves. The numbers
/// only order the fences and their sides; `top`, `bottom` and `zero` are of one order.
pub struct Spread {
    pub middle: Vec<i64>,
    pub left: Vec<i64>,
    pub top: Vec<i64>,
    pub bottom: Vec<i64>,
    /// The upper side of the screen: no shelf ends above it.
    pub zero: i64,
}

impl Spread {
    /// Everything is known of every fence.
    pub open spec fn wf(&self) -> bool {
        &&& self.left.len() == self.middle.len()
        &&& self.top.len() == self.middle.len()
        &&& self.bottom.len() == self.middle.len()
    }
}

/// The highest top on a shelf.
pub open spec fn shelf_top(row: Seq<usize>, top: Seq<i64>) -> int
    decreases row.len(),
{
    if row.len() <= 1 {
        top[row[0] as int] as int
    } else {
        let t = shelf_top(row.drop_last(), top);
        if top[row.last() as int] < t {
            top[row.last() as int] as int
        } else {
            t
        }
    }
}

/// The lowest bottom on a shelf, `zero` at least.
pub open spec fn shelf_bottom(row: Seq<usize>, bottom: Seq<i64>, zero: i64) -> int
    decreases row.len(),
{
    if row.len() == 0 {
        zero as int
    } else {
        let b = shelf_bottom(row.drop_last(), bottom, zero);
        if bottom[row.last() as int] > b {
            bottom[row.last() as int] as int
        } else {
            b
        }
    }
}

/// The fences of `order`, which goes from top to bottom, on shelves: a fence goes onto
/// the last one where it reaches into its height, else onto a new one.
pub open spec fn shelves(
    order: Seq<usize>,
    top: Seq<i64>,
    bottom: Seq<i64>,
    zero: i64,
) -> Seq<Seq<usize>>
    decreases order.len(),
{
    if order.len() == 0 {
        Seq::empty()
    } else {
        let r = shelves(order.drop_last(), top, bottom, zero);
        let x = order.last();
        if r.len() > 0 && top[x as int] < shelf_bottom(r.last(), bottom, zero) && bottom[x as int]
            > shelf_top(r.last(), top) {
            r.update(r.len() - 1, r.last().push(x))
        } else {
            r.push(seq![x])
        }
    }
}

/// `rows` are the shelves of the fences that stand as `s` tells: from top to bottom,
/// and from left to right where they are of one height, each shelf then from left to
/// right.
pub open spec fn shelves_of(s: Spread, rows: Seq<Seq<usize>>) -> bool {
    exists|l: Seq<usize>, o: Seq<usize>| #[trigger] shelved(s, l, o, rows)
}

/// `rows` are the shelves of the fences, which are `l` from left to right and `o` from
/// top to bottom.
pub open spec fn shelved(s: Spread, l: Seq<usize>, o: Seq<usize>, rows: Seq<Seq<usize>>) -> bool {
    let b = shelves(o, s.top@, s.bottom@, s.zero);
    &&& by_key(all_fences(s.middle@.len() as int), s.left@, l)
    &&& by_key(l, s.middle@, o)
    &&& rows.len() == b.len()
    &&& forall|i: int| 0 <= i < b.len() ==> by_key(#[trigger] b[i], s.left@, rows[i])
}

proof fn lemma_shelves_hold(order: Seq<usize>, top: Seq<i64>, bottom: Seq<i64>, zero: i64)
    ensures
        ({
            let b = shelves(order, top, bottom, zero);
            &&& forall|i: int, j: int|
                0 <= i < b.len() && 0 <= j < b[i].len() ==> order.contains(#[trigger] b[i][j])
            &&& forall|i: int| 0 <= i < b.len() ==> (#[trigger] b[i]).len() > 0
        }),
    decreases order.len(),
{
    if order.len() > 0 {
        let o = order.drop_last();
        lemma_shelves_hold(o, top, bottom, zero);
        let r = shelves(o, top, bottom, zero);
        let b = shelves(order, top, bottom, zero);
        assert forall|i: int, j: int| 0 <= i < b.len() && 0 <= j < b[i].len() implies order.contains(
            #[trigger] b[i][j],
        ) by {
            if i < r.len() && j < r[i].len() {
                assert(b[i][j] == r[i][j]);
                assert(o.contains(r[i][j]));
                let k = choose|k: int| 0 <= k < o.len() && o[k] == r[i][j];
                assert(order[k] == b[i][j]);
            } else {
                assert(b[i][j] == order.last());
                assert(order[order.len() - 1] == b[i][j]);
            }
        }
    }
}

proof fn lemma_by_key_holds(input: Seq<usize>, keys: Seq<i64>, out: Seq<usize>, n: int)
    requires
        by_key(input, keys, out),
        forall|k: int| 0 <= k < input.len() ==> #[trigger] input[k] < n,
    ensures
        out.len() == input.len(),
        forall|k: int| 0 <= k < out.len() ==> #[trigger] out[k] < n,
{
    let p = choose|p: Seq<int>| keyed(p, input, keys, out);
    assert forall|k: int| 0 <= k < out.len() implies #[trigger] out[k] < n by {
        assert(out[k] == input[p[k]]);
    }
}

fn joins(s: &Spread, row: &Vec<usize>, x: usize) -> (r: bool)
    requires
        s.wf(),
        row.len() > 0,
        x < s.middle.len(),
        forall|k: int| 0 <= k < row.len() ==> #[trigger] row@[k] < s.middle.len(),
    ensures
        r == (s.top@[x as int] < shelf_bottom(row@, s.bottom@, s.zero) && s.bottom@[x as int]
            > shelf_top(row@, s.top@)),
{
    let mut top: i64 = s.top[row[0]];
    let mut bottom: i64 = s.zero;
    let mut i: usize = 0;
    assert(row@.take(0) =~= Seq::empty());
    while i < row.len()
        invariant
            s.wf(),
            i <= row.len(),
            row.len() > 0,
            forall|k: int| 0 <= k < row.len() ==> #[trigger] row@[k] < s.middle.len(),
            bottom == shelf_bottom(row@.take(i as int), s.bottom@, s.zero),
            i == 0 ==> top == s.top@[row@[0] as int],
            i > 0 ==> top == shelf_top(row@.take(i as int), s.top@),
        decreases row.len() - i,
    {
        proof {
            let t = row@.take(i + 1);
            assert(t.drop_last() =~= row@.take(i as int));
            assert(t.last() == row@[i as int]);
            assert(t[0] == row@[0]);
        }
        let m: usize = row[i];
        if s.top[m] < top {
            top = s.top[m];
        }
        if s.bottom[m] > bottom {
            bottom = s.bottom[m];
        }
        i = i + 1;
    }
    assert(row@.take(i as int) =~= row@);
    s.top[x] < bottom && s.bottom[x] > top
}

/// The fences on shelves: those whose heights reach into each other beside each other.
pub fn flow_rows(s: &Spread) -> (r: Vec<Vec<usize>>)
    requires
        s.wf(),
    ensures
        shelves_of(*s, row_seqs(r@)),
        forall|i: int| 0 <= i < r@.len() ==> (#[trigger] r@[i]).len() > 0,
        forall|i: int, j: int|
            0 <= i < r@.len() && 0 <= j < r@[i].len() ==> #[trigger] r@[i]@[j] < s.middle.len(),
{
    let n: usize = s.middle.len();
    let mut all: Vec<usize> = Vec::new();
    let mut i: usize = 0;
    while i < n
        invariant
            i <= n,
            all@.len() == i,
            forall|k: int| 0 <= k < i ==> #[trigger] all@[k] == k,
        decreases n - i,
    {
        all.push(i);
        i = i + 1;
    }
    assert(all@ =~= all_fences(n as int));
    sort_by_key(&mut all, &s.left);
    let ghost l = all@;
    sort_by_key(&mut all, &s.middle);
    let ghost o = all@;
    proof {
        lemma_by_key_holds(all_fences(n as int), s.left@, l, n as int);
        lemma_by_key_holds(l, s.middle@, o, n as int);
    }
    let mut rows: Vec<Vec<usize>> = Vec::new();
    let mut k: usize = 0;
    assert(o.take(0) =~= Seq::empty());
    assert(row_seqs(rows@) =~= shelves(o.take(0), s.top@, s.bottom@, s.zero));
    while k < all.len()
        invariant
            k <= all.len() == o.len(),
            all@ == o,
            n == s.middle.len(),
            s.wf(),
            forall|j: int| 0 <= j < o.len() ==> #[trigger] o[j] < n,
            row_seqs(rows@) == shelves(o.take(k as int), s.top@, s.bottom@, s.zero),
        decreases all.len() - k,
    {
        let x: usize = all[k];
        let ghost b = shelves(o.take(k as int), s.top@, s.bottom@, s.zero);
        proof {
            lemma_shelves_hold(o.take(k as int), s.top@, s.bottom@, s.zero);
            assert(o.take(k + 1).drop_last() =~= o.take(k as int));
            assert(o.take(k + 1).last() == x);
        }
        let joined = if rows.len() == 0 {
            false
        } else {
            let last: usize = rows.len() - 1;
            assert(b[last as int] == rows@[last as int]@);
            assert forall|j: int| 0 <= j < rows@[last as int].len() implies #[trigger] rows@[last as int]@[j]
                < n by {
                assert(o.take(k as int).contains(b[last as int][j]));
            }
            joins(s, &rows[last], x)
        };
        if joined {
            let last: usize = rows.len() - 1;
            rows[last].push(x);
        } else {
            let mut row: Vec<usize> = Vec::new();
            row.push(x);
            rows.push(row);
            assert(rows@.last()@ =~= seq![x]);
        }
        assert(row_seqs(rows@) =~= shelves(o.take(k + 1), s.top@, s.bottom@, s.zero));
        k = k + 1;
    }
    assert(o.take(o.len() as int) =~= o);
    let ghost b = shelves(o, s.top@, s.bottom@, s.zero);
    let mut i: usize = 0;
    while i < rows.len()
        invariant
            i <= rows.len() == b.len(),
            forall|j: int| 0 <= j < i ==> by_key(#[trigger] b[j], s.left@, rows@[j]@),
            forall|j: int| i <= j < rows.len() ==> #[trigger] b[j] == rows@[j]@,
        decreases rows.len() - i,
    {
        assert(b[i as int] == rows@[i as int]@);
        sort_by_key(&mut rows[i], &s.left);
        i = i + 1;
    }
    assert(shelved(*s, l, o, row_seqs(rows@)));
    proof {
        lemma_shelves_hold(o, s.top@, s.bottom@, s.zero);
        assert forall|i: int| 0 <= i < rows@.len() implies (#[trigger] rows@[i]).len() > 0 by {
            assert(by_key(b[i], s.left@, rows@[i]@));
        }
        assert forall|i: int, j: int| 0 <= i < rows@.len() && 0 <= j < rows@[i].len() implies
            #[trigger] rows@[i]@[j] < n by {
            assert(by_key(b[i], s.left@, rows@[i]@));
            let p = choose|p: Seq<int>| keyed(p, b[i], s.left@, rows@[i]@);
            assert(rows@[i]@[j] == b[i][p[j]]);
            assert(o.contains(b[i][p[j]]));
        }
    }
    rows
}

/// How many members of a row are marked.
pub open spec fn marked(row: Seq<usize>, marks: Seq<bool>) -> nat
    decreases row.len(),
{
    if row.len() == 0 {
        0
    } else {
        marked(row.drop_last(), marks) + if marks[row.last() as int] {
            1nat
        } else {
            0nat
        }
    }
}

/// `r` is the first of the places where `d` is least.
pub open spec fn first_least(d: Seq<i64>, r: int) -> bool {
    &&& 0 <= r < d.len()
    &&& forall|i: int| 0 <= i < d.len() ==> d[r] <= #[trigger] d[i]
    &&& forall|i: int| 0 <= i < r ==> d[r] < #[trigger] d[i]
}

/// The first of the places where `d` is least: the nearest of some rows or screens, `d`
/// being how far each is.
pub fn nearest(d: &Vec<i64>) -> (r: Option<usize>)
    ensures
        match r {
            Some(i) => first_least(d@, i as int),
            None => d@.len() == 0,
        },
{
    if d.len() == 0 {
        return None;
    }
    let mut best: usize = 0;
    let mut i: usize = 1;
    while i < d.len()
        invariant
            1 <= i <= d.len(),
            best < i,
            forall|k: int| 0 <= k < i ==> d@[best as int] <= #[trigger] d@[k],
            forall|k: int| 0 <= k < best ==> d@[best as int] < #[trigger] d@[k],
        decreases d.len() - i,
    {
        if d[i] < d[best] {
            best = i;
        }
        i = i + 1;
    }
    Some(best)
}

/// The row of a point and the slot in it: the nearest row, `distance` being how far
/// each is, and in it the number of fences whose middle lies left of the point.
pub fn row_slot_of(rows: &Vec<Vec<usize>>, distance: &Vec<i64>, left: &Vec<bool>) -> (r: (
    usize,
    usize,
))
    requires
        distance.len() == rows.len(),
        forall|i: int, j: int|
            0 <= i < rows.len() && 0 <= j < rows@[i].len() ==> #[trigger] rows@[i]@[j] < left.len(),
    ensures
        rows@.len() == 0 ==> r == (0usize, 0usize),
        rows@.len() > 0 ==> first_least(distance@, r.0 as int) && r.1 == marked(
            rows@[r.0 as int]@,
            left@,
        ) && r.1 <= rows@[r.0 as int].len(),
{
    let best: usize = match nearest(distance) {
        Some(i) => i,
        None => {
            return (0, 0);
        },
    };
    let row = &rows[best];
    let mut count: usize = 0;
    let mut j: usize = 0;
    assert(row@.take(0) =~= Seq::empty());
    while j < row.len()
        invariant
            j <= row.len(),
            count <= j,
            forall|k: int| 0 <= k < row.len() ==> #[trigger] row@[k] < left.len(),
            count == marked(row@.take(j as int), left@),
        decreases row.len() - j,
    {
        assert(row@.take(j + 1).drop_last() =~= row@.take(j as int));
        if left[row[j]] {
            count = count + 1;
        }
        j = j + 1;
    }
    assert(row@.take(row@.len() as int) =~= row@);
    (best, count)
}

/// The marked fences, the one at `anchor` left out.
pub open spec fn marked_but(marks: Seq<bool>, anchor: int) -> Seq<usize>
    decreases marks.len(),
{
    if marks.len() == 0 {
        Seq::empty()
    } else {
        let r = marked_but(marks.drop_last(), anchor);
        if marks.last() && marks.len() - 1 != anchor {
            r.push((marks.len() - 1) as usize)
        } else {
            r
        }
    }
}

/// The fences that line up with the fence at `anchor`, which was moved or resized: those
/// that `beside` marks, the nearest first, `keys` being how far along each stands.
pub fn neighbours_in_order(anchor: usize, beside: &Vec<bool>, keys: &Vec<i64>) -> (r: Vec<usize>)
    ensures
        by_key(marked_but(beside@, anchor as int), keys@, r@),
{
    let mut out: Vec<usize> = Vec::new();
    let mut i: usize = 0;
    assert(beside@.take(0) =~= Seq::empty());
    while i < beside.len()
        invariant
            i <= beside.len(),
            out@ == marked_but(beside@.take(i as int), anchor as int),
        decreases beside.len() - i,
    {
        assert(beside@.take(i + 1).drop_last() =~= beside@.take(i as int));
        if beside[i] && i != anchor {
            out.push(i);
        }
        i = i + 1;
    }
    assert(beside@.take(beside@.len() as int) =~= beside@);
    sort_by_key(&mut out, keys);
    out
}

// ---------------------------------------------------------------- slots in rows

/// The members of `rows`.
pub open spec fn row_seqs(rows: Seq<Vec<usize>>) -> Seq<Seq<usize>> {
    Seq::new(rows.len(), |i: int| rows[i]@)
}

/// Where `a` first stands in a row.
pub open spec fn place(row: Seq<usize>, a: usize) -> Option<int>
    decreases row.len(),
{
    if row.len() == 0 {
        None
    } else {
        match place(row.drop_last(), a) {
            Some(j) => Some(j),
            None => if row.last() == a {
                Some(row.len() - 1)
            } else {
                None
            },
        }
    }
}

/// The row of `a` and its place there.
pub open spec fn home(rows: Seq<Seq<usize>>, a: usize) -> Option<(int, int)>
    decreases rows.len(),
{
    if rows.len() == 0 {
        None
    } else {
        match home(rows.drop_last(), a) {
            Some(h) => Some(h),
            None => match place(rows.last(), a) {
                Some(j) => Some((rows.len() - 1, j)),
                None => None,
            },
        }
    }
}

proof fn lemma_place(row: Seq<usize>, a: usize)
    ensures
        match place(row, a) {
            Some(j) => 0 <= j < row.len() && row[j] == a,
            None => !row.contains(a),
        },
    decreases row.len(),
{
    if row.len() > 0 {
        let p = row.drop_last();
        lemma_place(p, a);
        match place(row, a) {
            None => {
                assert forall|j: int| 0 <= j < row.len() implies row[j] != a by {
                    if j < p.len() {
                        assert(p[j] == row[j]);
                        assert(p.contains(p[j]));
                    }
                }
            },
            Some(j) => {
                if j < p.len() {
                    assert(p[j] == row[j]);
                }
            },
        }
    }
}

proof fn lemma_home(rows: Seq<Seq<usize>>, a: usize)
    ensures
        match home(rows, a) {
            Some((i, j)) => 0 <= i < rows.len() && 0 <= j < rows[i].len() && rows[i][j] == a,
            None => forall|i: int| 0 <= i < rows.len() ==> !(#[trigger] rows[i]).contains(a),
        },
    decreases rows.len(),
{
    if rows.len() > 0 {
        let p = rows.drop_last();
        lemma_home(p, a);
        lemma_place(rows.last(), a);
        match home(p, a) {
            Some((i, j)) => {
                assert(p[i] == rows[i]);
            },
            None => {
                assert forall|i: int| 0 <= i < rows.len() && place(rows.last(), a) is None implies !(
                #[trigger] rows[i]).contains(a) by {
                    if i < p.len() {
                        assert(p[i] == rows[i]);
                    }
                }
            },
        }
    }
}

fn place_of(row: &Vec<usize>, a: usize) -> (r: Option<usize>)
    ensures
        match r {
            Some(j) => place(row@, a) == Some(j as int) && j < row.len(),
            None => place(row@, a) is None,
        },
{
    let mut j: usize = 0;
    let mut found: Option<usize> = None;
    assert(row@.take(0) =~= Seq::empty());
    while j < row.len()
        invariant
            j <= row.len(),
            match found {
                Some(k) => place(row@.take(j as int), a) == Some(k as int) && k < j,
                None => place(row@.take(j as int), a) is None,
            },
        decreases row.len() - j,
    {
        assert(row@.take(j + 1).drop_last() =~= row@.take(j as int));
        if found.is_none() && row[j] == a {
            found = Some(j);
        }
        j = j + 1;
    }
    assert(row@.take(row@.len() as int) =~= row@);
    found
}

/// The row of `a` and its place there.
pub fn home_of(rows: &Vec<Vec<usize>>, a: usize) -> (r: Option<(usize, usize)>)
    ensures
        match r {
            Some((i, j)) => home(row_seqs(rows@), a) == Some((i as int, j as int)) && i < rows.len()
                && j < rows@[i as int].len() && rows@[i as int]@[j as int] == a,
            None => home(row_seqs(rows@), a) is None,
        },
{
    let ghost all = row_seqs(rows@);
    let mut i: usize = 0;
    let mut found: Option<(usize, usize)> = None;
    assert(all.take(0) =~= Seq::empty());
    while i < rows.len()
        invariant
            i <= rows.len(),
            all == row_seqs(rows@),
            match found {
                Some((p, q)) => home(all.take(i as int), a) == Some((p as int, q as int)) && p < i,
                None => home(all.take(i as int), a) is None,
            },
        decreases rows.len() - i,
    {
        assert(all.take(i + 1).drop_last() =~= all.take(i as int));
        assert(all.take(i + 1).last() == rows@[i as int]@);
        if found.is_none() {
            match place_of(&rows[i], a) {
                Some(j) => {
                    found = Some((i, j));
                },
                None => {},
            }
        }
        i = i + 1;
    }
    assert(all.take(all.len() as int) =~= all);
    proof {
        lemma_home(all, a);
    }
    found
}

/// A row that is laid out anew: its members from left to right. The first comes to
/// where the leftmost fence of the row `row` stood, or, where `from_first` is set,
/// to where the first one stood.
pub struct Reflow {
    pub row: usize,
    pub members: Vec<usize>,
    pub from_first: bool,
}

/// The contents of a `Reflow`.
pub struct ReflowView {
    pub row: int,
    pub members: Seq<usize>,
    pub from_first: bool,
}

impl View for Reflow {
    type V = ReflowView;

    open spec fn view(&self) -> ReflowView {
        ReflowView { row: self.row as int, members: self.members@, from_first: self.from_first }
    }
}

/// The contents of a list of rows that are laid out anew.
pub open spec fn reflow_views(r: Seq<Reflow>) -> Seq<ReflowView> {
    Seq::new(r.len(), |i: int| r[i]@)
}

/// `row` without `a`.
pub open spec fn row_without(row: Seq<usize>, a: usize) -> Seq<usize>
    decreases row.len(),
{
    if row.len() == 0 {
        Seq::empty()
    } else {
        let r = row_without(row.drop_last(), a);
        if row.last() == a {
            r
        } else {
            r.push(row.last())
        }
    }
}

fn drop_from_row(row: &Vec<usize>, a: usize) -> (r: Vec<usize>)
    ensures
        r@ == row_without(row@, a),
{
    let mut out: Vec<usize> = Vec::new();
    let mut i: usize = 0;
    assert(row@.take(0) =~= Seq::empty());
    while i < row.len()
        invariant
            i <= row.len(),
            out@ == row_without(row@.take(i as int), a),
        decreases row.len() - i,
    {
        assert(row@.take(i + 1).drop_last() =~= row@.take(i as int));
        if row[i] != a {
            out.push(row[i]);
        }
        i = i + 1;
    }
    assert(row@.take(row@.len() as int) =~= row@);
    out
}

/// `k`, but at most `limit`.
pub open spec fn at_most(k: int, limit: int) -> int {
    if k < limit {
        k
    } else {
        limit
    }
}

/// The rows that are laid out anew when `a`, which stands at `h`, goes to the slot
/// `k` of the row `t`: its own row alone, or the row it leaves, unless it is left
/// empty, and the row it joins.
pub open spec fn insertions(
    rows: Seq<Seq<usize>>,
    a: usize,
    h: (int, int),
    t: int,
    k: int,
) -> Seq<ReflowView> {
    if (t, k) == h {
        Seq::empty()
    } else if t == h.0 {
        let rest = rows[h.0].remove(h.1);
        let at = at_most(
            if k > h.1 {
                k - 1
            } else {
                k
            },
            rest.len() as int,
        );
        seq![ReflowView { row: h.0, members: rest.insert(at, a), from_first: false }]
    } else {
        let rest = row_without(rows[h.0], a);
        let to = at_most(t, rows.len() - 1);
        let joined = ReflowView {
            row: to,
            members: rows[to].insert(at_most(k, rows[to].len() as int), a),
            from_first: true,
        };
        if rest.len() > 0 {
            seq![ReflowView { row: h.0, members: rest, from_first: false }, joined]
        } else {
            seq![joined]
        }
    }
}

fn copy_row(row: &Vec<usize>) -> (r: Vec<usize>)
    ensures
        r@ == row@,
{
    let mut out: Vec<usize> = Vec::new();
    let mut i: usize = 0;
    while i < row.len()
        invariant
            i <= row.len(),
            out@ == row@.take(i as int),
        decreases row.len() - i,
    {
        out.push(row[i]);
        assert(out@ =~= row@.take(i + 1));
        i = i + 1;
    }
    assert(out@ =~= row@);
    out
}

/// The rows that are laid out anew when `a` goes to `target`, a row and a slot in it.
pub fn row_insert_layout(
    rows: &Vec<Vec<usize>>,
    a: usize,
    target: (usize, usize),
) -> (r: Vec<Reflow>)
    requires
        home(row_seqs(rows@), a) is Some,
    ensures
        reflow_views(r@) == insertions(
            row_seqs(rows@),
            a,
            home(row_seqs(rows@), a)->0,
            target.0 as int,
            target.1 as int,
        ),
{
    let ghost all = row_seqs(rows@);
    let mut out: Vec<Reflow> = Vec::new();
    let (hr, hj): (usize, usize) = match home_of(rows, a) {
        Some(h) => h,
        None => (0, 0),
    };
    let (t, k): (usize, usize) = target;
    if t == hr && k == hj {
        assert(reflow_views(out@) =~= Seq::empty());
        return out;
    }
    if t == hr {
        let mut order = copy_row(&rows[hr]);
        let _ = order.remove(hj);
        let want: usize = if k > hj {
            k - 1
        } else {
            k
        };
        let at: usize = if want < order.len() {
            want
        } else {
            order.len()
        };
        order.insert(at, a);
        out.push(Reflow { row: hr, members: order, from_first: false });
        assert(reflow_views(out@) =~= insertions(all, a, (hr as int, hj as int), t as int, k as int));
        return out;
    }
    let rest = drop_from_row(&rows[hr], a);
    if rest.len() > 0 {
        out.push(Reflow { row: hr, members: rest, from_first: false });
    }
    let to: usize = if t < rows.len() - 1 {
        t
    } else {
        rows.len() - 1
    };
    let mut order = copy_row(&rows[to]);
    let at: usize = if k < order.len() {
        k
    } else {
        order.len()
    };
    order.insert(at, a);
    out.push(Reflow { row: to, members: order, from_first: true });
    assert(reflow_views(out@) =~= insertions(all, a, (hr as int, hj as int), t as int, k as int));
    out
}

/// The row of `a` and the members that are laid out anew in it when `a` is deleted.
pub fn row_after_delete(rows: &Vec<Vec<usize>>, a: usize) -> (r: Option<Reflow>)
    ensures
        match (r, home(row_seqs(rows@), a)) {
            (Some(f), Some(h)) => f@ == (ReflowView {
                row: h.0,
                members: row_without(rows@[h.0]@, a),
                from_first: false,
            }),
            (None, None) => true,
            _ => false,
        },
{
    match home_of(rows, a) {
        Some((i, j)) => Some(
            Reflow { row: i, members: drop_from_row(&rows[i], a), from_first: false },
        ),
        None => None,
    }
}

/// The numbers of the fences that stand in rows: those that are neither hidden nor
/// collapsed.
pub open spec fn in_rows(fences: Seq<FenceView>) -> Seq<usize>
    decreases fences.len(),
{
    if fences.len() == 0 {
        Seq::empty()
    } else {
        let r = in_rows(fences.drop_last());
        let f = fences.last();
        if !f.hidden && !f.collapsed {
            r.push((fences.len() - 1) as usize)
        } else {
            r
        }
    }
}

/// The numbers of the fences that stand in rows.
pub fn fences_in_rows(fences: &Vec<Fence>) -> (r: Vec<usize>)
    ensures
        r@ == in_rows(model::fence_views(fences@)),
        forall|k: int| 0 <= k < r@.len() ==> #[trigger] r@[k] < fences.len(),
{
    let ghost f = model::fence_views(fences@);
    let mut out: Vec<usize> = Vec::new();
    let mut i: usize = 0;
    assert(f.take(0) =~= Seq::empty());
    while i < fences.len()
        invariant
            i <= fences.len(),
            f == model::fence_views(fences@),
            out@ == in_rows(f.take(i as int)),
            forall|k: int| 0 <= k < out@.len() ==> #[trigger] out@[k] < i,
        decreases fences.len() - i,
    {
        assert(f.take(i + 1).drop_last() =~= f.take(i as int));
        assert(f.take(i + 1).last() == fences@[i as int]@);
        if !fences[i].hidden && !fences[i].collapsed {
            out.push(i);
        }
        i = i + 1;
    }
    assert(f.take(f.len() as int) =~= f);
    out
}

/// Where a dragged fence would go, and the line that shows it.
#[derive(Clone, Copy)]
pub struct Slot {
    pub row: usize,
    pub at: usize,
    /// The fence beside which the line stands.
    pub beside: usize,
    /// Whether the line stands to its left.
    pub before: bool,
}

/// The slot of the dragged fence `a` for the place `target`, which is near a row
/// where `near` is set: none for a fence that is alone, is far from every row or is
/// still at home.
pub open spec fn planned(
    rows: Seq<Seq<usize>>,
    count: int,
    a: usize,
    near: bool,
    target: (usize, usize),
) -> Option<Slot> {
    if count < 2 || home(rows, a) is None || !near || home(rows, a) == Some(
        (target.0 as int, target.1 as int),
    ) {
        None
    } else {
        let row = rows[target.0 as int];
        Some(
            Slot {
                row: target.0,
                at: target.1,
                beside: if target.1 < row.len() {
                    row[target.1 as int]
                } else {
                    row.last()
                },
                before: target.1 < row.len(),
            },
        )
    }
}

/// The slot of the dragged fence `a` among the `count` fences in `rows`.
pub fn fence_insertion_plan(
    rows: &Vec<Vec<usize>>,
    count: usize,
    a: usize,
    near: bool,
    target: (usize, usize),
) -> (r: Option<Slot>)
    requires
        target.0 < rows.len(),
        rows@[target.0 as int].len() > 0,
    ensures
        r == planned(row_seqs(rows@), count as int, a, near, target),
{
    if count < 2 {
        return None;
    }
    let (hr, hj): (usize, usize) = match home_of(rows, a) {
        None => {
            return None;
        },
        Some(h) => h,
    };
    if !near || (hr == target.0 && hj == target.1) {
        return None;
    }
    let n: usize = rows[target.0].len();
    if target.1 < n {
        Some(
            Slot {
                row: target.0,
                at: target.1,
                beside: rows[target.0][target.1],
                before: true,
            },
        )
    } else {
        Some(
            Slot { row: target.0, at: target.1, beside: rows[target.0][n - 1], before: false },
        )
    }
}

// ---------------------------------------------------------------- laws

/// How often `x` stands in the rows.
pub open spec fn times(rows: Seq<Seq<usize>>, x: usize) -> nat
    decreases rows.len(),
{
    if rows.len() == 0 {
        0
    } else {
        times(rows.drop_last(), x) + rows.last().to_multiset().count(x)
    }
}

/// The rows after some were laid out anew. A row that `a` left empty is empty.
pub open spec fn reflowed(
    rows: Seq<Seq<usize>>,
    a: usize,
    h: (int, int),
    t: int,
    k: int,
) -> Seq<Seq<usize>> {
    let r = insertions(rows, a, h, t, k);
    if r.len() == 0 {
        rows
    } else if t == h.0 {
        rows.update(h.0, r[0].members)
    } else {
        rows.update(h.0, row_without(rows[h.0], a)).update(r.last().row, r.last().members)
    }
}

proof fn lemma_times_update(rows: Seq<Seq<usize>>, i: int, row: Seq<usize>, x: usize)
    requires
        0 <= i < rows.len(),
    ensures
        times(rows.update(i, row), x) + rows[i].to_multiset().count(x) == times(rows, x)
            + row.to_multiset().count(x),
    decreases rows.len(),
{
    let u = rows.update(i, row);
    if i == rows.len() - 1 {
        assert(u.drop_last() =~= rows.drop_last());
    } else {
        assert(u.drop_last() =~= rows.drop_last().update(i, row));
        lemma_times_update(rows.drop_last(), i, row, x);
    }
}

proof fn lemma_row_without(row: Seq<usize>, a: usize, x: usize)
    ensures
        row_without(row, a).to_multiset().count(x) == (if x == a {
            0
        } else {
            row.to_multiset().count(x)
        }),
    decreases row.len(),
{
    broadcast use vstd::seq_lib::group_to_multiset_ensures;

    if row.len() > 0 {
        let p = row.drop_last();
        lemma_row_without(p, a, x);
        assert(row =~= p.push(row.last()));
        assert(row.to_multiset() =~= p.to_multiset().insert(row.last()));
        let w = row_without(p, a);
        assert(w.push(row.last()).to_multiset() =~= w.to_multiset().insert(row.last()));
    } else {
        assert(row =~= Seq::empty());
    }
}

proof fn lemma_insert_count(row: Seq<usize>, at: int, a: usize, x: usize)
    requires
        0 <= at <= row.len(),
    ensures
        row.insert(at, a).to_multiset().count(x) == row.to_multiset().count(x) + (if x == a {
            1nat
        } else {
            0nat
        }),
{
    broadcast use vstd::seq_lib::group_to_multiset_ensures;

    let (b, c) = (row.take(at), row.skip(at));
    assert(row =~= b + c);
    assert(row.insert(at, a) =~= b.push(a) + c);
    vstd::seq_lib::lemma_multiset_commutative(b, c);
    vstd::seq_lib::lemma_multiset_commutative(b.push(a), c);
}

proof fn lemma_remove_count(row: Seq<usize>, at: int, x: usize)
    requires
        0 <= at < row.len(),
    ensures
        row.remove(at).to_multiset().count(x) + (if x == row[at] {
            1nat
        } else {
            0nat
        }) == row.to_multiset().count(x),
{
    let r = row.remove(at);
    lemma_insert_count(r, at, row[at], x);
    assert(r.insert(at, row[at]) =~= row);
}

/// A fence that goes to another slot is still there, once, and so is every other. Left
/// out is a row behind the last for a fence of the last row.
pub proof fn law_insertion_keeps_every_fence(
    rows: Seq<Seq<usize>>,
    a: usize,
    t: int,
    k: int,
    x: usize,
)
    requires
        home(rows, a) is Some,
        0 <= t,
        0 <= k,
        t < rows.len() || (home(rows, a)->0).0 != rows.len() - 1,
        rows[(home(rows, a)->0).0].to_multiset().count(a) == 1,
    ensures
        times(reflowed(rows, a, home(rows, a)->0, t, k), x) == times(rows, x),
{
    lemma_home(rows, a);
    let h = home(rows, a)->0;
    if (t, k) != h {
        if t == h.0 {
            let rest = rows[h.0].remove(h.1);
            let at = at_most(
                if k > h.1 {
                    k - 1
                } else {
                    k
                },
                rest.len() as int,
            );
            lemma_remove_count(rows[h.0], h.1, x);
            lemma_insert_count(rest, at, a, x);
            lemma_times_update(rows, h.0, rest.insert(at, a), x);
        } else {
            let to = at_most(t, rows.len() - 1);
            let rest = row_without(rows[h.0], a);
            let joined = rows[to].insert(at_most(k, rows[to].len() as int), a);
            lemma_row_without(rows[h.0], a, x);
            lemma_times_update(rows, h.0, rest, x);
            let u = rows.update(h.0, rest);
            assert(u[to] == rows[to]);
            lemma_insert_count(rows[to], at_most(k, rows[to].len() as int), a, x);
            lemma_times_update(u, to, joined, x);
        }
    }
}

/// Only the row that a fence leaves and the row that it joins are laid out anew.
pub proof fn law_other_rows_stay(
    rows: Seq<Seq<usize>>,
    a: usize,
    t: int,
    k: int,
    i: int,
)
    requires
        home(rows, a) is Some,
        0 <= t,
        0 <= k,
        0 <= i < rows.len(),
        i != at_most(t, rows.len() - 1),
        i != (home(rows, a)->0).0,
    ensures
        reflowed(rows, a, home(rows, a)->0, t, k)[i] == rows[i],
        forall|j: int|
            0 <= j < insertions(rows, a, home(rows, a)->0, t, k).len() ==> (
            #[trigger] insertions(rows, a, home(rows, a)->0, t, k)[j]).row != i,
{
    lemma_home(rows, a);
}

proof fn lemma_permuted_counts(p: Seq<int>, input: Seq<usize>, out: Seq<usize>, x: usize)
    requires
        order::permutes(p, input, out),
    ensures
        input.to_multiset().count(x) == out.to_multiset().count(x),
    decreases out.len(),
{
    if out.len() > 0 {
        let k = p.last();
        let rest = input.remove(k);
        let q = Seq::new(
            (p.len() - 1) as nat,
            |i: int|
                if p[i] > k {
                    p[i] - 1
                } else {
                    p[i]
                },
        );
        let head = out.drop_last();
        assert forall|i: int| 0 <= i < q.len() implies 0 <= #[trigger] q[i] < rest.len() by {
            assert(p[i] != p[p.len() - 1]);
        }
        assert forall|i: int, j: int| 0 <= i < j < q.len() implies #[trigger] q[i]
            != #[trigger] q[j] by {
            assert(p[i] != p[j]);
            assert(p[i] != p[p.len() - 1]);
            assert(p[j] != p[p.len() - 1]);
        }
        assert forall|i: int| 0 <= i < q.len() implies #[trigger] head[i] == rest[q[i]] by {
            assert(p[i] != p[p.len() - 1]);
            assert(out[i] == input[p[i]]);
        }
        lemma_permuted_counts(q, rest, head, x);
        lemma_remove_count(input, k, x);
        lemma_remove_count(out, out.len() - 1, x);
        assert(out.remove(out.len() - 1) =~= head);
        assert(out[out.len() - 1] == input[k]);
    } else {
        assert(input =~= out);
    }
}

proof fn lemma_band_counts(o: Seq<usize>, apart: Seq<Seq<bool>>, x: usize)
    ensures
        times(bands(o, apart), x) == o.to_multiset().count(x),
    decreases o.len(),
{
    broadcast use vstd::seq_lib::group_to_multiset_ensures;

    if o.len() > 0 {
        let h = o.drop_last();
        let y = o.last();
        lemma_band_counts(h, apart, x);
        assert(o =~= h.push(y));
        assert(o.to_multiset() =~= h.to_multiset().insert(y));
        let r = bands(h, apart);
        let b = bands(o, apart);
        if r.len() == 0 || apart[r.last()[0] as int][y as int] {
            assert(b.drop_last() =~= r);
            assert(seq![y] =~= Seq::<usize>::empty().push(y));
            assert(seq![y].to_multiset() =~= Seq::<usize>::empty().to_multiset().insert(y));
        } else {
            lemma_times_update(r, r.len() - 1, r.last().push(y), x);
            assert(r.last().push(y).to_multiset() =~= r.last().to_multiset().insert(y));
        }
    } else {
        assert(o =~= Seq::empty());
        assert(o.to_multiset().count(x) == 0);
    }
}

proof fn lemma_sorted_rows(b: Seq<Seq<usize>>, keys: Seq<i64>, rows: Seq<Seq<usize>>, x: usize)
    requires
        rows.len() == b.len(),
        forall|i: int| 0 <= i < b.len() ==> by_key(#[trigger] b[i], keys, rows[i]),
    ensures
        times(rows, x) == times(b, x),
    decreases b.len(),
{
    if b.len() > 0 {
        let (c, r) = (b.drop_last(), rows.drop_last());
        assert forall|i: int| 0 <= i < c.len() implies by_key(#[trigger] c[i], keys, r[i]) by {
            assert(by_key(b[i], keys, rows[i]));
        }
        lemma_sorted_rows(c, keys, r, x);
        assert(by_key(b[b.len() - 1], keys, rows[b.len() - 1]));
        let p = choose|p: Seq<int>| keyed(p, b.last(), keys, rows.last());
        lemma_permuted_counts(p, b.last(), rows.last(), x);
    }
}

/// Every fence stands in one row, once.
pub proof fn law_every_fence_stands_in_one_row(
    s: StandingView,
    rows: Seq<Seq<usize>>,
    x: usize,
)
    requires
        s.wf(),
        s.middle.len() <= usize::MAX,
        rows_of(s, rows),
        x < s.middle.len(),
    ensures
        times(rows, x) == 1,
        home(rows, x) is Some,
{
    broadcast use vstd::seq_lib::group_to_multiset_ensures;

    let n = s.middle.len() as int;
    let o = choose|o: Seq<usize>| #[trigger] rows_by(s, o, rows);
    let p = choose|p: Seq<int>| keyed(p, all_fences(n), s.middle, o);
    let all = all_fences(n);
    assert(all[x as int] == x);
    assert(all.no_duplicates());
    all.lemma_multiset_has_no_duplicates();
    assert(all.to_multiset().count(x) > 0);
    lemma_permuted_counts(p, all, o, x);
    lemma_band_counts(o, s.apart, x);
    lemma_sorted_rows(bands(o, s.apart), s.left, rows, x);
    lemma_home(rows, x);
    if home(rows, x) is None {
        lemma_absent(rows, x);
    }
}

proof fn lemma_shelf_counts(o: Seq<usize>, top: Seq<i64>, bottom: Seq<i64>, zero: i64, x: usize)
    ensures
        times(shelves(o, top, bottom, zero), x) == o.to_multiset().count(x),
    decreases o.len(),
{
    broadcast use vstd::seq_lib::group_to_multiset_ensures;

    if o.len() > 0 {
        let h = o.drop_last();
        let y = o.last();
        lemma_shelf_counts(h, top, bottom, zero, x);
        assert(o =~= h.push(y));
        assert(o.to_multiset() =~= h.to_multiset().insert(y));
        let r = shelves(h, top, bottom, zero);
        let b = shelves(o, top, bottom, zero);
        if b.len() == r.len() {
            lemma_times_update(r, r.len() - 1, r.last().push(y), x);
            assert(r.last().push(y).to_multiset() =~= r.last().to_multiset().insert(y));
        } else {
            assert(b.drop_last() =~= r);
            assert(seq![y] =~= Seq::<usize>::empty().push(y));
            assert(seq![y].to_multiset() =~= Seq::<usize>::empty().to_multiset().insert(y));
        }
    } else {
        assert(o =~= Seq::empty());
        assert(o.to_multiset().count(x) == 0);
    }
}

/// Every fence goes onto one shelf, once.
pub proof fn law_every_fence_is_on_one_shelf(s: Spread, rows: Seq<Seq<usize>>, x: usize)
    requires
        s.wf(),
        shelves_of(s, rows),
        x < s.middle@.len(),
    ensures
        times(rows, x) == 1,
        home(rows, x) is Some,
{
    broadcast use vstd::seq_lib::group_to_multiset_ensures;

    let n = s.middle@.len() as int;
    let (l, o) = choose|l: Seq<usize>, o: Seq<usize>| #[trigger] shelved(s, l, o, rows);
    let p = choose|p: Seq<int>| keyed(p, all_fences(n), s.left@, l);
    let q = choose|q: Seq<int>| keyed(q, l, s.middle@, o);
    let all = all_fences(n);
    assert(all[x as int] == x);
    assert(all.no_duplicates());
    all.lemma_multiset_has_no_duplicates();
    assert(all.to_multiset().count(x) > 0);
    lemma_permuted_counts(p, all, l, x);
    lemma_permuted_counts(q, l, o, x);
    lemma_shelf_counts(o, s.top@, s.bottom@, s.zero, x);
    lemma_sorted_rows(shelves(o, s.top@, s.bottom@, s.zero), s.left@, rows, x);
    lemma_home(rows, x);
    if home(rows, x) is None {
        lemma_absent(rows, x);
    }
}

proof fn lemma_absent(rows: Seq<Seq<usize>>, x: usize)
    requires
        forall|i: int| 0 <= i < rows.len() ==> !(#[trigger] rows[i]).contains(x),
    ensures
        times(rows, x) == 0,
    decreases rows.len(),
{
    broadcast use vstd::seq_lib::group_to_multiset_ensures;

    if rows.len() > 0 {
        let r = rows.drop_last();
        assert forall|i: int| 0 <= i < r.len() implies !(#[trigger] r[i]).contains(x) by {
            assert(r[i] == rows[i]);
        }
        lemma_absent(r, x);
        assert(!rows[rows.len() - 1].contains(x));
    }
}

proof fn lemma_place_at(row: Seq<usize>, a: usize, j: int)
    requires
        0 <= j < row.len(),
        row[j] == a,
        forall|i: int| 0 <= i < j ==> #[trigger] row[i] != a,
    ensures
        place(row, a) == Some(j),
    decreases row.len(),
{
    let p = row.drop_last();
    if j < p.len() {
        assert forall|i: int| 0 <= i < j implies #[trigger] p[i] != a by {
            assert(p[i] == row[i]);
        }
        lemma_place_at(p, a, j);
    } else {
        lemma_place(p, a);
        if let Some(i) = place(p, a) {
            assert(p[i] == row[i]);
        }
    }
}

proof fn lemma_home_at(rows: Seq<Seq<usize>>, a: usize, r: int, j: int)
    requires
        0 <= r < rows.len(),
        0 <= j < rows[r].len(),
        rows[r][j] == a,
        forall|i: int| 0 <= i < r ==> !(#[trigger] rows[i]).contains(a),
        forall|i: int| 0 <= i < j ==> #[trigger] rows[r][i] != a,
    ensures
        home(rows, a) == Some((r, j)),
    decreases rows.len(),
{
    let p = rows.drop_last();
    if r < p.len() {
        assert forall|i: int| 0 <= i < r implies !(#[trigger] p[i]).contains(a) by {
            assert(p[i] == rows[i]);
        }
        assert(p[r] == rows[r]);
        lemma_home_at(p, a, r, j);
    } else {
        lemma_home(p, a);
        if let Some((i, k)) = home(p, a) {
            assert(p[i] == rows[i]);
            assert(rows[i].contains(a));
        }
        lemma_place_at(rows[r], a, j);
    }
}

/// A fence that goes to a slot of its own row comes to stand there: the fences that
/// stood before the slot stand before it, those from the slot on behind it, each in
/// their order. So it lands right before the fence that stood at the slot, and the slot
/// behind its own changes nothing.
pub proof fn law_fence_moves_within_its_row(
    rows: Seq<Seq<usize>>,
    a: usize,
    r: int,
    j: int,
    k: int,
)
    requires
        0 <= r < rows.len(),
        0 <= j < rows[r].len(),
        rows[r][j] == a,
        forall|i: int| 0 <= i < r ==> !(#[trigger] rows[i]).contains(a),
        forall|i: int| 0 <= i < j ==> #[trigger] rows[r][i] != a,
        0 <= k,
    ensures
        home(rows, a) == Some((r, j)),
        ({
            let row = rows[r];
            let out = insertions(rows, a, home(rows, a)->0, r, k);
            let m = out[0].members;
            if k == j {
                out.len() == 0
            } else {
                &&& out.len() == 1
                &&& out[0].row == r
                &&& !out[0].from_first
                &&& k < j ==> m == row.take(k) + seq![a] + row.subrange(k, j) + row.skip(j + 1)
                &&& j < k <= row.len() ==> m == row.take(j) + row.subrange(j + 1, k) + seq![a]
                    + row.skip(k)
                &&& k > row.len() ==> m == row.take(j) + row.skip(j + 1) + seq![a]
                &&& k < j ==> m[k] == a && m[k + 1] == row[k]
                &&& j < k < row.len() ==> m[k - 1] == a && m[k] == row[k]
                &&& k >= row.len() ==> m.last() == a
                &&& k == j + 1 ==> m == row
            }
        }),
{
    lemma_home_at(rows, a, r, j);
    let row = rows[r];
    if k != j {
        let m = insertions(rows, a, (r, j), r, k)[0].members;
        if k < j {
            assert(m =~= row.take(k) + seq![a] + row.subrange(k, j) + row.skip(j + 1));
        } else if k <= row.len() {
            assert(m =~= row.take(j) + row.subrange(j + 1, k) + seq![a] + row.skip(k));
        } else {
            assert(m =~= row.take(j) + row.skip(j + 1) + seq![a]);
        }
        if k == j + 1 {
            assert(m =~= row);
        }
    }
}

proof fn lemma_row_filtered(row: Seq<usize>, a: usize)
    ensures
        row_without(row, a) == row.filter(|x: usize| x != a),
    decreases row.len(),
{
    reveal(Seq::filter);
    if row.len() > 0 {
        lemma_row_filtered(row.drop_last(), a);
    } else {
        assert(row_without(row, a) =~= row.filter(|x: usize| x != a));
    }
}

/// A fence that goes to another row comes to stand at the slot, or at the end of a
/// shorter row, among the fences of that row in their order. Those of the row it left
/// close up. A row behind the last is the last.
pub proof fn law_fence_joins_another_row(
    rows: Seq<Seq<usize>>,
    a: usize,
    r: int,
    j: int,
    t: int,
    k: int,
)
    requires
        0 <= r < rows.len(),
        0 <= j < rows[r].len(),
        rows[r][j] == a,
        forall|i: int| 0 <= i < r ==> !(#[trigger] rows[i]).contains(a),
        forall|i: int| 0 <= i < j ==> #[trigger] rows[r][i] != a,
        0 <= t,
        t != r,
        0 <= k,
    ensures
        ({
            let rest = rows[r].filter(|x: usize| x != a);
            let to = if t < rows.len() {
                t
            } else {
                rows.len() - 1
            };
            let out = insertions(rows, a, home(rows, a)->0, t, k);
            let m = out.last();
            &&& m.row == to
            &&& m.from_first
            &&& k <= rows[to].len() ==> m.members == rows[to].take(k) + seq![a] + rows[to].skip(k)
            &&& k > rows[to].len() ==> m.members == rows[to] + seq![a]
            &&& rest.len() == 0 ==> out.len() == 1
            &&& rest.len() > 0 ==> out.len() == 2 && out[0].row == r && out[0].members == rest
                && !out[0].from_first
        }),
{
    lemma_home_at(rows, a, r, j);
    lemma_row_filtered(rows[r], a);
    let to = if t < rows.len() {
        t
    } else {
        rows.len() - 1
    };
    let m = insertions(rows, a, (r, j), t, k).last();
    if k <= rows[to].len() {
        assert(m.members =~= rows[to].take(k) + seq![a] + rows[to].skip(k));
    } else {
        assert(m.members =~= rows[to] + seq![a]);
    }
}

/// Where a fence is deleted, the others of its row close up in their order.
pub proof fn law_deleted_fence_leaves_its_row(row: Seq<usize>, a: usize)
    ensures
        row_without(row, a) == row.filter(|x: usize| x != a),
{
    lemma_row_filtered(row, a);
}

/// In `members`, `a` stands right before `other` or, where `before` is not set, last and
/// right behind it.
pub open spec fn lands_at(members: Seq<usize>, a: usize, other: usize, before: bool) -> bool {
    if before {
        exists|i: int|
            0 <= i < members.len() - 1 && #[trigger] members[i] == a && members[i + 1] == other
    } else {
        members.last() == a && (other == a || members[members.len() - 2] == other)
    }
}

/// The line shows where the fence will stand: it lands right before the fence that the
/// line stands left of, and behind the one that it stands right of. No line is shown
/// for a lone fence, far from the rows, or at the fence's own slot, and else one is.
pub proof fn law_line_shows_the_slot(
    rows: Seq<Seq<usize>>,
    count: int,
    a: usize,
    r: int,
    j: int,
    near: bool,
    target: (usize, usize),
)
    requires
        0 <= r < rows.len(),
        0 <= j < rows[r].len(),
        rows[r][j] == a,
        forall|i: int| 0 <= i < r ==> !(#[trigger] rows[i]).contains(a),
        forall|i: int| 0 <= i < j ==> #[trigger] rows[r][i] != a,
        target.0 < rows.len(),
        rows[target.0 as int].len() > 0,
    ensures
        planned(rows, count, a, near, target) is Some <==> count >= 2 && near && !(target.0 == r
            && target.1 == j),
        planned(rows, count, a, near, target) matches Some(s) ==> (s.row, s.at) == target,
        planned(rows, count, a, near, target) matches Some(s) ==> lands_at(
            insertions(rows, a, home(rows, a)->0, s.row as int, s.at as int).last().members,
            a,
            s.beside,
            s.before,
        ),
{
    lemma_home_at(rows, a, r, j);
    if let Some(s) = planned(rows, count, a, near, target) {
        let (t, k) = (target.0 as int, target.1 as int);
        let m = insertions(rows, a, (r, j), t, k).last();
        if t == r {
            law_fence_moves_within_its_row(rows, a, r, j, k);
            if s.before {
                let i = if k < j {
                    k
                } else {
                    k - 1
                };
                assert(m.members[i] == a && m.members[i + 1] == s.beside);
            } else if s.beside != a {
                assert(j < rows[r].len() - 1);
                assert(m.members.len() == rows[r].len());
                assert(m.members[m.members.len() - 2] == s.beside);
            }
        } else {
            law_fence_joins_another_row(rows, a, r, j, t, k);
            if s.before {
                assert(m.members[k] == a && m.members[k + 1] == s.beside);
            } else {
                assert(m.members.len() == rows[t].len() + 1);
                assert(m.members[m.members.len() - 2] == s.beside);
            }
        }
    }
}

proof fn lemma_joined_flat(r: Seq<Seq<usize>>, x: usize)
    requires
        r.len() > 0,
    ensures
        r.update(r.len() - 1, r.last().push(x)).flatten() == r.flatten().push(x),
{
    let h = r.drop_last();
    let last = r.last();
    h.lemma_flatten_push(last);
    h.lemma_flatten_push(last.push(x));
    assert(h.push(last) =~= r);
    assert(h.push(last.push(x)) =~= r.update(r.len() - 1, last.push(x)));
    assert(h.flatten() + last.push(x) =~= (h.flatten() + last).push(x));
}

/// The bands hold the fences in their order, one after the other. A band goes on while
/// the fences are not apart from its first, and the next begins with one that is.
pub proof fn law_bands_part_where_fences_are_apart(order: Seq<usize>, apart: Seq<Seq<bool>>)
    ensures
        ({
            let b = bands(order, apart);
            &&& b.flatten() == order
            &&& forall|i: int| 0 <= i < b.len() ==> (#[trigger] b[i]).len() > 0
            &&& forall|i: int, j: int|
                0 <= i < b.len() && 0 < j < b[i].len()
                    ==> !apart[b[i][0] as int][#[trigger] b[i][j] as int]
            &&& forall|i: int|
                0 < i < b.len() ==> apart[b[i - 1][0] as int][(#[trigger] b[i])[0] as int]
        }),
    decreases order.len(),
{
    let b = bands(order, apart);
    if order.len() > 0 {
        let o = order.drop_last();
        let x = order.last();
        let r = bands(o, apart);
        law_bands_part_where_fences_are_apart(o, apart);
        lemma_bands_hold(order, apart);
        if b.len() == r.len() {
            lemma_joined_flat(r, x);
            assert(r.flatten().push(x) =~= order);
            assert forall|i: int, j: int| 0 <= i < b.len() && 0 < j < b[i].len() implies !apart[
            b[i][0] as int][#[trigger] b[i][j] as int] by {
                if i < r.len() - 1 || j < r[i].len() {
                    assert(b[i][j] == r[i][j]);
                    assert(b[i][0] == r[i][0]);
                }
            }
            assert forall|i: int| 0 < i < b.len() implies apart[b[i - 1][0] as int][(
            #[trigger] b[i])[0] as int] by {
                assert(r[i].len() > 0);
                assert(b[i][0] == r[i][0]);
                assert(b[i - 1][0] == r[i - 1][0]);
            }
        } else {
            r.lemma_flatten_push(seq![x]);
            assert(r.flatten() + seq![x] =~= order);
            assert forall|i: int, j: int| 0 <= i < b.len() && 0 < j < b[i].len() implies !apart[
            b[i][0] as int][#[trigger] b[i][j] as int] by {
                assert(b[i] == r[i]);
                assert(b[i][j] == r[i][j]);
            }
            assert forall|i: int| 0 < i < b.len() implies apart[b[i - 1][0] as int][(
            #[trigger] b[i])[0] as int] by {
                assert(b[i - 1] == r[i - 1]);
                if i < r.len() {
                    assert(b[i] == r[i]);
                }
            }
        }
    } else {
        assert(b.flatten() =~= order);
    }
}

proof fn lemma_bands_ordered(
    order: Seq<usize>,
    apart: Seq<Seq<bool>>,
    before: spec_fn(usize, usize) -> bool,
)
    requires
        forall|p: int, q: int|
            0 <= p < q < order.len() ==> before(#[trigger] order[p], #[trigger] order[q]),
    ensures
        ({
            let b = bands(order, apart);
            forall|i: int, u: int, k: int, v: int|
                0 <= i < b.len() && 0 <= k < b.len() && 0 <= u < b[i].len() && 0 <= v < b[k].len()
                    && (i < k || (i == k && u < v)) ==> before(
                    #[trigger] b[i][u],
                    #[trigger] b[k][v],
                )
        }),
    decreases order.len(),
{
    if order.len() > 0 {
        let o = order.drop_last();
        let x = order.last();
        let r = bands(o, apart);
        let b = bands(order, apart);
        assert forall|p: int, q: int| 0 <= p < q < o.len() implies before(
            #[trigger] o[p],
            #[trigger] o[q],
        ) by {
            assert(before(order[p], order[q]));
        }
        lemma_bands_ordered(o, apart, before);
        lemma_bands_hold(o, apart);
        assert forall|i: int, u: int, k: int, v: int|
            0 <= i < b.len() && 0 <= k < b.len() && 0 <= u < b[i].len() && 0 <= v < b[k].len() && (
            i < k || (i == k && u < v)) implies before(#[trigger] b[i][u], #[trigger] b[k][v]) by {
            assert(i < r.len() && u < r[i].len());
            assert(b[i][u] == r[i][u]);
            if k < r.len() && v < r[k].len() {
                assert(b[k][v] == r[k][v]);
            } else {
                assert(b[k][v] == x);
                assert(o.contains(r[i][u]));
                let p = choose|p: int| 0 <= p < o.len() && o[p] == r[i][u];
                assert(order[p] == r[i][u]);
                assert(before(order[p], order[order.len() - 1]));
            }
        }
    }
}

/// The rows go from top to bottom, and each from left to right: no fence of a row is
/// below one of a later row, and no fence is left of one that comes before it in its
/// row. Where two are level, the one with the lower number comes first, and where two
/// begin at one place, the upper one does.
pub proof fn law_rows_go_down_and_right(
    s: StandingView,
    rows: Seq<Seq<usize>>,
    i: int,
    u: int,
    k: int,
    v: int,
)
    requires
        s.wf(),
        s.middle.len() <= usize::MAX,
        rows_of(s, rows),
        0 <= i < rows.len(),
        0 <= u < rows[i].len(),
        0 <= k < rows.len(),
        0 <= v < rows[k].len(),
        i < k || (i == k && u < v),
    ensures
        ({
            let (x, y) = (rows[i][u] as int, rows[k][v] as int);
            &&& 0 <= x < s.middle.len()
            &&& 0 <= y < s.middle.len()
            &&& i < k ==> s.middle[x] < s.middle[y] || (s.middle[x] == s.middle[y] && x < y)
            &&& i == k ==> s.left[x] <= s.left[y]
            &&& i == k && s.left[x] == s.left[y] ==> s.middle[x] < s.middle[y] || (s.middle[x]
                == s.middle[y] && x < y)
        }),
{
    let n = s.middle.len() as int;
    let all = all_fences(n);
    let o = choose|o: Seq<usize>| #[trigger] rows_by(s, o, rows);
    let p = choose|p: Seq<int>| keyed(p, all, s.middle, o);
    let before = |a: usize, b: usize|
        a < n && b < n && (s.middle[a as int] < s.middle[b as int] || (s.middle[a as int]
            == s.middle[b as int] && a < b));
    assert forall|g: int, h: int| 0 <= g < h < o.len() implies before(
        #[trigger] o[g],
        #[trigger] o[h],
    ) by {
        assert(o[g] == all[p[g]] && o[h] == all[p[h]]);
        assert(key_of(s.middle, o[g]) <= key_of(s.middle, o[h]));
    }
    lemma_bands_ordered(o, s.apart, before);
    lemma_bands_hold(o, s.apart);
    let b = bands(o, s.apart);
    assert(by_key(b[i], s.left, rows[i]));
    assert(by_key(b[k], s.left, rows[k]));
    let f = choose|f: Seq<int>| keyed(f, b[i], s.left, rows[i]);
    let g = choose|g: Seq<int>| keyed(g, b[k], s.left, rows[k]);
    assert(rows[i][u] == b[i][f[u]]);
    assert(rows[k][v] == b[k][g[v]]);
    if i < k {
        assert(before(b[i][f[u]], b[k][g[v]]));
    } else {
        assert(rows[i][v] == b[i][f[v]]);
        assert(o.contains(b[i][f[u]]));
        assert(o.contains(b[i][f[v]]));
        let c = choose|c: int| 0 <= c < o.len() && o[c] == b[i][f[u]];
        let d = choose|d: int| 0 <= d < o.len() && o[d] == b[i][f[v]];
        assert(o[c] == all[p[c]] && o[d] == all[p[d]]);
        assert(key_of(s.left, rows[i][u]) <= key_of(s.left, rows[i][v]));
        if s.left[rows[i][u] as int] == s.left[rows[i][v] as int] {
            assert(f[u] < f[v]);
            assert(before(b[i][f[u]], b[i][f[v]]));
        }
    }
}

proof fn lemma_shelf_reach(row: Seq<usize>, bottom: Seq<i64>, zero: i64, v: int)
    ensures
        shelf_bottom(row, bottom, zero) > v <==> zero > v || exists|m: int|
            0 <= m < row.len() && bottom[#[trigger] row[m] as int] > v,
    decreases row.len(),
{
    if row.len() > 0 {
        let h = row.drop_last();
        lemma_shelf_reach(h, bottom, zero, v);
        assert(row[row.len() - 1] == row.last());
        if exists|m: int| 0 <= m < h.len() && bottom[#[trigger] h[m] as int] > v {
            let m = choose|m: int| 0 <= m < h.len() && bottom[#[trigger] h[m] as int] > v;
            assert(row[m] == h[m]);
        }
        if exists|m: int| 0 <= m < row.len() && bottom[#[trigger] row[m] as int] > v {
            let m = choose|m: int| 0 <= m < row.len() && bottom[#[trigger] row[m] as int] > v;
            if m < h.len() {
                assert(h[m] == row[m]);
            }
        }
    }
}

proof fn lemma_shelf_height(row: Seq<usize>, top: Seq<i64>, v: int)
    requires
        row.len() > 0,
    ensures
        shelf_top(row, top) < v <==> exists|m: int|
            0 <= m < row.len() && top[#[trigger] row[m] as int] < v,
    decreases row.len(),
{
    assert(row[row.len() - 1] == row.last());
    if row.len() > 1 {
        let h = row.drop_last();
        lemma_shelf_height(h, top, v);
        if exists|m: int| 0 <= m < h.len() && top[#[trigger] h[m] as int] < v {
            let m = choose|m: int| 0 <= m < h.len() && top[#[trigger] h[m] as int] < v;
            assert(row[m] == h[m]);
        }
        if exists|m: int| 0 <= m < row.len() && top[#[trigger] row[m] as int] < v {
            let m = choose|m: int| 0 <= m < row.len() && top[#[trigger] row[m] as int] < v;
            if m < h.len() {
                assert(h[m] == row[m]);
            }
        }
    }
}

/// The last shelf takes the next fence if and only if it reaches into the shelf: its top
/// is above the bottom of some fence there, or above the screen's upper side, and its
/// bottom is below the top of some fence there. Else it goes onto a new shelf, and it
/// does so at the start.
pub proof fn law_shelf_takes_what_reaches_into_it(
    order: Seq<usize>,
    x: usize,
    top: Seq<i64>,
    bottom: Seq<i64>,
    zero: i64,
)
    ensures
        ({
            let r = shelves(order, top, bottom, zero);
            let b = shelves(order.push(x), top, bottom, zero);
            let joins = r.len() > 0 && (top[x as int] < zero || exists|m: int|
                0 <= m < r.last().len() && top[x as int] < bottom[#[trigger] r.last()[m] as int])
                && exists|m: int|
                0 <= m < r.last().len() && bottom[x as int] > top[#[trigger] r.last()[m] as int];
            &&& r.flatten() == order
            &&& joins ==> b == r.drop_last().push(r.last().push(x))
            &&& !joins ==> b == r.push(seq![x])
        }),
    decreases order.len(),
{
    let r = shelves(order, top, bottom, zero);
    let b = shelves(order.push(x), top, bottom, zero);
    assert(order.push(x).drop_last() =~= order);
    if r.len() > 0 {
        lemma_shelves_hold(order, top, bottom, zero);
        let last = r.last();
        assert(r[r.len() - 1].len() > 0);
        lemma_shelf_reach(last, bottom, zero, top[x as int] as int);
        lemma_shelf_height(last, top, bottom[x as int] as int);
        assert(r.update(r.len() - 1, last.push(x)) =~= r.drop_last().push(last.push(x)));
    }
    if order.len() > 0 {
        let o = order.drop_last();
        let y = order.last();
        law_shelf_takes_what_reaches_into_it(o, y, top, bottom, zero);
        assert(o.push(y) =~= order);
        let q = shelves(o, top, bottom, zero);
        if r.len() == q.len() {
            lemma_joined_flat(q, y);
            assert(q.drop_last().push(q.last().push(y)) =~= q.update(
                q.len() - 1,
                q.last().push(y),
            ));
        } else {
            q.lemma_flatten_push(seq![y]);
            assert(q.flatten() + seq![y] =~= order);
        }
    } else {
        assert(r.flatten() =~= order);
    }
}

/// The slot of a point is the number of fences of the row that are left of it.
pub proof fn law_slot_counts_the_fences_to_the_left(row: Seq<usize>, left: Seq<bool>)
    ensures
        marked(row, left) == row.filter(|x: usize| left[x as int]).len(),
    decreases row.len(),
{
    reveal(Seq::filter);
    if row.len() > 0 {
        law_slot_counts_the_fences_to_the_left(row.drop_last(), left);
    }
}

/// The nearest row is one that no other is nearer than, and the first of these.
pub proof fn law_nearest_comes_first(d: Seq<i64>, r: int, i: int)
    requires
        first_least(d, r),
        0 <= i < d.len(),
    ensures
        0 <= r < d.len(),
        d[r] <= d[i],
        d[i] == d[r] ==> r <= i,
{
}

/// The fences that stand in rows are those that are shown and open, by their numbers.
pub proof fn law_hidden_and_collapsed_fences_stand_in_no_row(
    fences: Seq<FenceView>,
    x: usize,
)
    requires
        fences.len() <= usize::MAX,
    ensures
        in_rows(fences).contains(x) <==> x < fences.len() && !fences[x as int].hidden
            && !fences[x as int].collapsed,
        forall|i: int, j: int|
            0 <= i < j < in_rows(fences).len() ==> #[trigger] in_rows(fences)[i]
                < #[trigger] in_rows(fences)[j],
    decreases fences.len(),
{
    lemma_in_rows(fences);
    let r = in_rows(fences);
    if fences.len() > 0 {
        let h = fences.drop_last();
        law_hidden_and_collapsed_fences_stand_in_no_row(h, x);
        lemma_in_rows(h);
        let p = in_rows(h);
        if r.len() > p.len() {
            assert(r.last() == r[r.len() - 1]);
        }
        if p.contains(x) {
            let i = choose|i: int| 0 <= i < p.len() && p[i] == x;
            assert(r[i] == x);
        }
        if r.contains(x) {
            let i = choose|i: int| 0 <= i < r.len() && r[i] == x;
            if i < p.len() {
                assert(p[i] == x);
            }
        }
    }
}

proof fn lemma_in_rows(fences: Seq<FenceView>)
    requires
        fences.len() <= usize::MAX,
    ensures
        forall|i: int| 0 <= i < in_rows(fences).len() ==> #[trigger] in_rows(fences)[i] < fences.len(),
    decreases fences.len(),
{
    if fences.len() > 0 {
        let h = fences.drop_last();
        lemma_in_rows(h);
        assert forall|i: int| 0 <= i < in_rows(fences).len() implies #[trigger] in_rows(fences)[i]
            < fences.len() by {
            if i < in_rows(h).len() {
                assert(in_rows(fences)[i] == in_rows(h)[i]);
            }
        }
    }
}

/// The fences that line up with another one are those that are marked, but for the
/// fence itself; the nearest comes first.
pub proof fn law_neighbours_are_the_others(
    beside: Seq<bool>,
    anchor: int,
    keys: Seq<i64>,
    out: Seq<usize>,
    x: usize,
)
    requires
        beside.len() <= usize::MAX,
        beside.len() <= keys.len(),
        by_key(marked_but(beside, anchor), keys, out),
    ensures
        out.contains(x) <==> x < beside.len() && beside[x as int] && x != anchor,
        forall|i: int, j: int|
            0 <= i < j < out.len() ==> keys[#[trigger] out[i] as int] <= keys[
            #[trigger] out[j] as int],
{
    let input = marked_but(beside, anchor);
    let p = choose|p: Seq<int>| keyed(p, input, keys, out);
    lemma_marked_but(beside, anchor, x);
    assert forall|i: int| 0 <= i < out.len() implies #[trigger] out[i] < beside.len() by {
        assert(out[i] == input[p[i]]);
        lemma_marked_but(beside, anchor, out[i]);
        assert(input.contains(input[p[i]]));
    }
    if out.contains(x) {
        let i = choose|i: int| 0 <= i < out.len() && out[i] == x;
        assert(input[p[i]] == x);
    }
    if input.contains(x) {
        let k = choose|k: int| 0 <= k < input.len() && input[k] == x;
        order::lemma_permutes_onto(p, input, out, k);
        let i = choose|i: int| 0 <= i < p.len() && p[i] == k;
        assert(out[i] == x);
    }
    assert forall|i: int, j: int| 0 <= i < j < out.len() implies keys[#[trigger] out[i] as int]
        <= keys[#[trigger] out[j] as int] by {
        assert(key_of(keys, out[i]) <= key_of(keys, out[j]));
    }
}

proof fn lemma_marked_but(marks: Seq<bool>, anchor: int, x: usize)
    requires
        marks.len() <= usize::MAX,
    ensures
        marked_but(marks, anchor).contains(x) <==> x < marks.len() && marks[x as int] && x
            != anchor,
    decreases marks.len(),
{
    let r = marked_but(marks, anchor);
    if marks.len() > 0 {
        let h = marks.drop_last();
        lemma_marked_but(h, anchor, x);
        let p = marked_but(h, anchor);
        if r.len() > p.len() {
            assert(r.last() == r[r.len() - 1]);
        }
        if p.contains(x) {
            let i = choose|i: int| 0 <= i < p.len() && p[i] == x;
            assert(r[i] == x);
        }
        if r.contains(x) {
            let i = choose|i: int| 0 <= i < r.len() && r[i] == x;
            if i < p.len() {
                assert(p[i] == x);
            }
        }
    }
}

proof fn lemma_shelves_ordered(
    order: Seq<usize>,
    top: Seq<i64>,
    bottom: Seq<i64>,
    zero: i64,
    before: spec_fn(usize, usize) -> bool,
)
    requires
        forall|p: int, q: int|
            0 <= p < q < order.len() ==> before(#[trigger] order[p], #[trigger] order[q]),
    ensures
        ({
            let b = shelves(order, top, bottom, zero);
            forall|i: int, u: int, k: int, v: int|
                0 <= i < b.len() && 0 <= k < b.len() && 0 <= u < b[i].len() && 0 <= v < b[k].len()
                    && (i < k || (i == k && u < v)) ==> before(
                    #[trigger] b[i][u],
                    #[trigger] b[k][v],
                )
        }),
    decreases order.len(),
{
    if order.len() > 0 {
        let o = order.drop_last();
        let x = order.last();
        let r = shelves(o, top, bottom, zero);
        let b = shelves(order, top, bottom, zero);
        assert forall|p: int, q: int| 0 <= p < q < o.len() implies before(
            #[trigger] o[p],
            #[trigger] o[q],
        ) by {
            assert(before(order[p], order[q]));
        }
        lemma_shelves_ordered(o, top, bottom, zero, before);
        lemma_shelves_hold(o, top, bottom, zero);
        assert forall|i: int, u: int, k: int, v: int|
            0 <= i < b.len() && 0 <= k < b.len() && 0 <= u < b[i].len() && 0 <= v < b[k].len() && (
            i < k || (i == k && u < v)) implies before(#[trigger] b[i][u], #[trigger] b[k][v]) by {
            assert(i < r.len() && u < r[i].len());
            assert(b[i][u] == r[i][u]);
            if k < r.len() && v < r[k].len() {
                assert(b[k][v] == r[k][v]);
            } else {
                assert(b[k][v] == x);
                assert(o.contains(r[i][u]));
                let p = choose|p: int| 0 <= p < o.len() && o[p] == r[i][u];
                assert(order[p] == r[i][u]);
                assert(before(order[p], order[order.len() - 1]));
            }
        }
    }
}

/// The shelves go from top to bottom, and each from left to right: no fence of a shelf is
/// below one of a later shelf, and where two are level the left one comes first.
pub proof fn law_shelves_go_down_and_right(
    s: Spread,
    rows: Seq<Seq<usize>>,
    i: int,
    u: int,
    k: int,
    v: int,
)
    requires
        s.wf(),
        shelves_of(s, rows),
        0 <= i < rows.len(),
        0 <= u < rows[i].len(),
        0 <= k < rows.len(),
        0 <= v < rows[k].len(),
        i < k || (i == k && u < v),
    ensures
        ({
            let (x, y) = (rows[i][u] as int, rows[k][v] as int);
            let (m, l) = (s.middle@, s.left@);
            &&& 0 <= x < m.len()
            &&& 0 <= y < m.len()
            &&& i < k ==> m[x] < m[y] || (m[x] == m[y] && (l[x] < l[y] || (l[x] == l[y] && x < y)))
            &&& i == k ==> l[x] <= l[y]
        }),
{
    let n = s.middle@.len() as int;
    let all = all_fences(n);
    let (m, l) = (s.middle@, s.left@);
    let (lo, o) = choose|lo: Seq<usize>, o: Seq<usize>| #[trigger] shelved(s, lo, o, rows);
    let p = choose|p: Seq<int>| keyed(p, all, l, lo);
    let q = choose|q: Seq<int>| keyed(q, lo, m, o);
    let before = |a: usize, b: usize|
        a < n && b < n && (m[a as int] < m[b as int] || (m[a as int] == m[b as int] && (l[a as int]
            < l[b as int] || (l[a as int] == l[b as int] && a < b))));
    assert forall|g: int, h: int| 0 <= g < h < o.len() implies before(
        #[trigger] o[g],
        #[trigger] o[h],
    ) by {
        assert(o[g] == lo[q[g]] && o[h] == lo[q[h]]);
        assert(lo[q[g]] == all[p[q[g]]] && lo[q[h]] == all[p[q[h]]]);
        assert(key_of(m, o[g]) <= key_of(m, o[h]));
        if m[o[g] as int] == m[o[h] as int] {
            assert(q[g] < q[h]);
            assert(key_of(l, lo[q[g]]) <= key_of(l, lo[q[h]]));
        }
    }
    lemma_shelves_ordered(o, s.top@, s.bottom@, s.zero, before);
    lemma_shelves_hold(o, s.top@, s.bottom@, s.zero);
    let b = shelves(o, s.top@, s.bottom@, s.zero);
    assert(by_key(b[i], l, rows[i]));
    assert(by_key(b[k], l, rows[k]));
    let f = choose|f: Seq<int>| keyed(f, b[i], l, rows[i]);
    let g = choose|g: Seq<int>| keyed(g, b[k], l, rows[k]);
    assert(rows[i][u] == b[i][f[u]]);
    assert(rows[k][v] == b[k][g[v]]);
    assert(o.contains(b[i][f[u]]));
    assert(o.contains(b[k][g[v]]));
    let c = choose|c: int| 0 <= c < o.len() && o[c] == b[i][f[u]];
    let d = choose|d: int| 0 <= d < o.len() && o[d] == b[k][g[v]];
    assert(o[c] == lo[q[c]] && lo[q[c]] == all[p[q[c]]]);
    assert(o[d] == lo[q[d]] && lo[q[d]] == all[p[q[d]]]);
    if i < k {
        assert(before(b[i][f[u]], b[k][g[v]]));
    } else {
        assert(key_of(l, rows[i][u]) <= key_of(l, rows[i][v]));
    }
}

/// A fence is at home in the first row that holds it, and nowhere only where none does.
pub proof fn law_fence_is_at_home_where_it_stands(rows: Seq<Seq<usize>>, a: usize)
    ensures
        home(rows, a) is None <==> forall|i: int|
            0 <= i < rows.len() ==> !(#[trigger] rows[i]).contains(a),
        home(rows, a) matches Some((i, j)) ==> 0 <= i < rows.len() && 0 <= j < rows[i].len()
            && rows[i][j] == a,
{
    lemma_home(rows, a);
    if let Some((i, j)) = home(rows, a) {
        assert(rows[i].contains(a));
    }
}

} // verus!

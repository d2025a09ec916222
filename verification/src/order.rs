//! Orders: three-way ranks, stable sorting, and the natural order of names.
use crate::text;
use std::cmp::Ordering;
use vstd::prelude::*;

verus! {

/// How one thing stands to another.
#[derive(Clone, Copy, PartialEq, Eq, Structural, Debug)]
pub enum Rank {
    Before,
    Same,
    After,
}

/// The rank of two numbers, the lesser first.
pub open spec fn num_rank(a: int, b: int) -> Rank {
    if a < b {
        Rank::Before
    } else if a == b {
        Rank::Same
    } else {
        Rank::After
    }
}

/// The first rank that tells the two apart.
pub open spec fn chain(a: Rank, b: Rank) -> Rank {
    if a == Rank::Same {
        b
    } else {
        a
    }
}

/// The lexicographic rank of two lists of numbers.
pub open spec fn lex_rank(a: Seq<int>, b: Seq<int>) -> Rank
    decreases a.len(),
{
    if a.len() == 0 {
        if b.len() == 0 {
            Rank::Same
        } else {
            Rank::Before
        }
    } else if b.len() == 0 {
        Rank::After
    } else {
        chain(num_rank(a[0], b[0]), lex_rank(a.drop_first(), b.drop_first()))
    }
}

/// The opposite rank.
pub open spec fn flipped(r: Rank) -> Rank {
    match r {
        Rank::Before => Rank::After,
        Rank::Same => Rank::Same,
        Rank::After => Rank::Before,
    }
}

/// The rank of two unsigned numbers.
pub fn rank_u64(a: u64, b: u64) -> (r: Rank)
    ensures
        r == num_rank(a as int, b as int),
{
    if a < b {
        Rank::Before
    } else if a == b {
        Rank::Same
    } else {
        Rank::After
    }
}

/// The rank that puts what is marked first.
pub fn rank_marked(a: bool, b: bool) -> (r: Rank)
    ensures
        r == num_rank(
            if a {
                0
            } else {
                1
            },
            if b {
                0
            } else {
                1
            },
        ),
{
    if a == b {
        Rank::Same
    } else if a {
        Rank::Before
    } else {
        Rank::After
    }
}

/// Swapping the lists turns the rank round.
pub proof fn lemma_lex_flip(a: Seq<int>, b: Seq<int>)
    ensures
        lex_rank(b, a) == flipped(lex_rank(a, b)),
    decreases a.len(),
{
    if a.len() > 0 && b.len() > 0 {
        lemma_lex_flip(a.drop_first(), b.drop_first());
    }
}

/// Lists of rank `Same` are equal.
pub proof fn lemma_lex_same(a: Seq<int>, b: Seq<int>)
    ensures
        lex_rank(a, b) == Rank::Same <==> a == b,
    decreases a.len(),
{
    if a.len() > 0 && b.len() > 0 {
        lemma_lex_same(a.drop_first(), b.drop_first());
        if lex_rank(a, b) == Rank::Same {
            assert(a =~= seq![a[0]] + a.drop_first());
            assert(b =~= seq![b[0]] + b.drop_first());
        }
    } else if a.len() == 0 && b.len() == 0 {
        assert(a =~= b);
    }
}

/// The lexicographic rank is transitive.
pub proof fn lemma_lex_transitive(a: Seq<int>, b: Seq<int>, c: Seq<int>)
    requires
        lex_rank(a, b) != Rank::After,
        lex_rank(b, c) != Rank::After,
    ensures
        lex_rank(a, c) != Rank::After,
        lex_rank(a, b) == Rank::Before || lex_rank(b, c) == Rank::Before ==> lex_rank(a, c)
            == Rank::Before,
    decreases a.len(),
{
    if a.len() > 0 && b.len() > 0 && c.len() > 0 {
        if a[0] == b[0] && b[0] == c[0] {
            lemma_lex_transitive(a.drop_first(), b.drop_first(), c.drop_first());
        }
    }
}

// ---------------------------------------------------------------- names

/// The length of the run of digits at the start of `s`.
pub open spec fn digit_run(s: Seq<char>) -> nat
    decreases s.len(),
{
    if s.len() > 0 && text::digit_char(s[0]) {
        1 + digit_run(s.drop_first())
    } else {
        0
    }
}

/// The value of one digit.
pub open spec fn digit_value(c: char) -> nat {
    (c as nat - 48) as nat
}

/// The number that a run of digits writes.
pub open spec fn run_value(s: Seq<char>) -> nat
    decreases s.len(),
{
    if s.len() == 0 {
        0
    } else {
        10 * run_value(s.drop_last()) + digit_value(s.last())
    }
}

/// A number as it is ordered: nothing is told apart beyond `u128::MAX`.
pub open spec fn capped(n: nat) -> nat {
    if n <= u128::MAX {
        n
    } else {
        u128::MAX as nat
    }
}

/// The natural rank of two names: runs of digits compare by their number, and of
/// equal numbers the shorter run comes first; other characters compare by their
/// lowercase form; a name that ends first comes first.
pub open spec fn natural(a: Seq<char>, b: Seq<char>) -> Rank
    decreases a.len(),
{
    if a.len() == 0 {
        if b.len() == 0 {
            Rank::Same
        } else {
            Rank::Before
        }
    } else if b.len() == 0 {
        Rank::After
    } else if text::digit_char(a[0]) && text::digit_char(b[0]) {
        proof {
            lemma_digit_run(a);
        }
        let m = digit_run(a) as int;
        let n = digit_run(b) as int;
        chain(
            num_rank(capped(run_value(a.take(m))) as int, capped(run_value(b.take(n))) as int),
            chain(num_rank(m, n), natural(a.skip(m), b.skip(n))),
        )
    } else {
        chain(
            num_rank(text::folded(a[0]) as int, text::folded(b[0]) as int),
            natural(a.skip(1), b.skip(1)),
        )
    }
}

/// A run of digits is no longer than the text, and holds digits only.
pub proof fn lemma_digit_run(s: Seq<char>)
    ensures
        digit_run(s) <= s.len(),
        forall|i: int| 0 <= i < digit_run(s) ==> text::digit_char(#[trigger] s[i]),
        digit_run(s) < s.len() ==> !text::digit_char(s[digit_run(s) as int]),
        s.len() > 0 && text::digit_char(s[0]) ==> digit_run(s) > 0,
    decreases s.len(),
{
    if s.len() > 0 && text::digit_char(s[0]) {
        let t = s.drop_first();
        lemma_digit_run(t);
        assert forall|i: int| 0 <= i < digit_run(s) implies text::digit_char(#[trigger] s[i]) by {
            if i > 0 {
                assert(text::digit_char(t[i - 1]));
            }
        }
        if digit_run(s) < s.len() {
            assert(s[digit_run(s) as int] == t[digit_run(t) as int]);
        }
    }
}

/// A prefix of digits that ends at a character that is none is the run.
pub proof fn lemma_digit_run_is(s: Seq<char>, n: int)
    requires
        0 <= n <= s.len(),
        forall|i: int| 0 <= i < n ==> text::digit_char(#[trigger] s[i]),
        n == s.len() || !text::digit_char(s[n]),
    ensures
        digit_run(s) == n,
    decreases s.len(),
{
    if n > 0 {
        let t = s.drop_first();
        assert(text::digit_char(s[0]));
        assert forall|i: int| 0 <= i < n - 1 implies text::digit_char(#[trigger] t[i]) by {
            assert(text::digit_char(s[i + 1]));
        }
        lemma_digit_run_is(t, n - 1);
    }
}

/// Swapping the names turns the rank round; a name ranks `Same` with itself.
pub proof fn law_natural_antisymmetric(a: Seq<char>, b: Seq<char>)
    ensures
        natural(b, a) == flipped(natural(a, b)),
        a == b ==> natural(a, b) == Rank::Same,
    decreases a.len(),
{
    if a.len() > 0 && b.len() > 0 {
        lemma_digit_run(a);
        lemma_digit_run(b);
        if text::digit_char(a[0]) && text::digit_char(b[0]) {
            law_natural_antisymmetric(a.skip(digit_run(a) as int), b.skip(digit_run(b) as int));
        } else {
            law_natural_antisymmetric(a.skip(1), b.skip(1));
        }
    }
}

/// The natural order is transitive, so that sorting by it has one result.
pub proof fn law_natural_transitive(a: Seq<char>, b: Seq<char>, c: Seq<char>)
    requires
        natural(a, b) != Rank::After,
        natural(b, c) != Rank::After,
    ensures
        natural(a, c) != Rank::After,
        natural(a, b) == Rank::Before || natural(b, c) == Rank::Before ==> natural(a, c)
            == Rank::Before,
    decreases a.len(),
{
    if a.len() > 0 && b.len() > 0 && c.len() > 0 {
        lemma_digit_run(a);
        lemma_digit_run(b);
        lemma_digit_run(c);
        let (da, db, dc) = (text::digit_char(a[0]), text::digit_char(b[0]), text::digit_char(c[0]));
        if da && db && dc {
            let (m, n, k) = (digit_run(a) as int, digit_run(b) as int, digit_run(c) as int);
            if m == n && n == k && natural(a.skip(m), b.skip(n)) != Rank::After && natural(
                b.skip(n),
                c.skip(k),
            ) != Rank::After {
                law_natural_transitive(a.skip(m), b.skip(n), c.skip(k));
            }
        } else if !da && !db && !dc {
            if natural(a.skip(1), b.skip(1)) != Rank::After && natural(b.skip(1), c.skip(1))
                != Rank::After {
                law_natural_transitive(a.skip(1), b.skip(1), c.skip(1));
            }
        } else {
            assert(da ==> text::folded(a[0]) == a[0]);
            assert(db ==> text::folded(b[0]) == b[0]);
            assert(dc ==> text::folded(c[0]) == c[0]);
            assert(!da ==> !text::digit_char(text::folded(a[0])));
            assert(!db ==> !text::digit_char(text::folded(b[0])));
            assert(!dc ==> !text::digit_char(text::folded(c[0])));
            if natural(a.skip(1), b.skip(1)) != Rank::After && natural(b.skip(1), c.skip(1))
                != Rank::After {
                law_natural_transitive(a.skip(1), b.skip(1), c.skip(1));
            }
        }
    }
}

/// The rank that an `Ordering` stands for.
pub open spec fn rank_of(o: Ordering) -> Rank {
    match o {
        Ordering::Less => Rank::Before,
        Ordering::Equal => Rank::Same,
        Ordering::Greater => Rank::After,
    }
}

/// The `Ordering` that a rank stands for.
fn ordering_of(r: Rank) -> (o: Ordering)
    ensures
        rank_of(o) == r,
{
    match r {
        Rank::Before => Ordering::Less,
        Rank::Same => Ordering::Equal,
        Rank::After => Ordering::Greater,
    }
}

fn code(c: char) -> (r: u32)
    ensures
        r == c as int,
{
    c as u32
}

/// The end of the run of digits at `from`, and its capped number.
fn read_run(s: &Vec<char>, from: usize) -> (r: (usize, u128))
    requires
        from <= s.len(),
    ensures
        from <= r.0 <= s.len(),
        r.0 - from == digit_run(s@.skip(from as int)),
        r.1 == capped(run_value(s@.skip(from as int).take(r.0 - from))),
{
    let mut i: usize = from;
    let mut v: u128 = 0;
    let mut over = false;
    let ghost t = s@.skip(from as int);
    assert(t.take(0) =~= Seq::empty());
    while i < s.len() && text::is_digit(s[i])
        invariant
            from <= i <= s.len(),
            t == s@.skip(from as int),
            forall|j: int| 0 <= j < i - from ==> text::digit_char(#[trigger] t[j]),
            over <==> run_value(t.take(i - from)) > u128::MAX,
            !over ==> v == run_value(t.take(i - from)),
        decreases s.len() - i,
    {
        let d: u128 = (code(s[i]) - 48) as u128;
        proof {
            let p = t.take(i - from + 1);
            assert(p.drop_last() =~= t.take(i - from));
            assert(p.last() == s@[i as int]);
            assert(run_value(p) == 10 * run_value(t.take(i - from)) + d);
            assert(t[i - from] == s@[i as int]);
        }
        if !over {
            if v > (u128::MAX - d) / 10 {
                over = true;
            } else {
                v = v * 10 + d;
            }
        }
        i = i + 1;
    }
    proof {
        if i < s.len() {
            assert(t[i - from] == s@[i as int]);
        }
        lemma_digit_run_is(t, i - from);
    }
    if over {
        (i, u128::MAX)
    } else {
        (i, v)
    }
}

fn rank_u128(a: u128, b: u128) -> (r: Rank)
    ensures
        r == num_rank(a as int, b as int),
{
    if a < b {
        Rank::Before
    } else if a == b {
        Rank::Same
    } else {
        Rank::After
    }
}

/// The natural rank of two names.
pub fn natural_rank(a: &str, b: &str) -> (r: Rank)
    ensures
        r == natural(a@, b@),
{
    let x = text::chars_of(a);
    let y = text::chars_of(b);
    let mut i: usize = 0;
    let mut j: usize = 0;
    assert(x@.skip(0) =~= x@);
    assert(y@.skip(0) =~= y@);
    loop
        invariant
            i <= x.len(),
            j <= y.len(),
            natural(x@, y@) == natural(x@.skip(i as int), y@.skip(j as int)),
            x@ == a@,
            y@ == b@,
        decreases x.len() - i,
    {
        let ghost s = x@.skip(i as int);
        let ghost t = y@.skip(j as int);
        if i >= x.len() {
            return if j >= y.len() {
                Rank::Same
            } else {
                Rank::Before
            };
        }
        if j >= y.len() {
            return Rank::After;
        }
        proof {
            assert(s[0] == x@[i as int]);
            assert(t[0] == y@[j as int]);
            lemma_digit_run(s);
            lemma_digit_run(t);
        }
        if text::is_digit(x[i]) && text::is_digit(y[j]) {
            let (i2, m) = read_run(&x, i);
            let (j2, n) = read_run(&y, j);
            if m != n {
                return rank_u128(m, n);
            }
            if i2 - i != j2 - j {
                return rank_u128((i2 - i) as u128, (j2 - j) as u128);
            }
            proof {
                assert(s.skip(i2 - i) =~= x@.skip(i2 as int));
                assert(t.skip(j2 - j) =~= y@.skip(j2 as int));
            }
            i = i2;
            j = j2;
        } else {
            let p: u32 = code(text::char_lowercase_first(x[i]));
            let q: u32 = code(text::char_lowercase_first(y[j]));
            if p != q {
                return rank_u128(p as u128, q as u128);
            }
            proof {
                assert(s.skip(1) =~= x@.skip(i + 1));
                assert(t.skip(1) =~= y@.skip(j + 1));
            }
            i = i + 1;
            j = j + 1;
        }
    }
}

/// The natural order of names, as a file manager shows them.
pub fn natural_name_cmp(a: &str, b: &str) -> (r: Ordering)
    ensures
        rank_of(r) == natural(a@, b@),
{
    ordering_of(natural_rank(a, b))
}

// ---------------------------------------------------------------- stable sorting

/// A total preorder on `T`, with the test that decides it.
pub trait Preorder<T> {
    /// What must hold of the order for the test to decide it.
    spec fn ready(&self) -> bool;

    /// `a` may stand before `b`.
    spec fn le(&self, a: T, b: T) -> bool;

    /// Of any two, one may stand before the other.
    proof fn total(&self, a: T, b: T)
        ensures
            self.le(a, b) || self.le(b, a),
    ;

    /// The order is transitive.
    proof fn transitive(&self, a: T, b: T, c: T)
        requires
            self.le(a, b),
            self.le(b, c),
        ensures
            self.le(a, c),
    ;

    /// Whether `a` may stand before `b`.
    fn may_precede(&self, a: &T, b: &T) -> (r: bool)
        requires
            self.ready(),
        ensures
            r == self.le(*a, *b),
    ;
}

/// `out` lists the elements of `input`, each once: `p[i]` is where `out[i]` stood.
pub open spec fn permutes<T>(p: Seq<int>, input: Seq<T>, out: Seq<T>) -> bool {
    &&& p.len() == out.len() == input.len()
    &&& forall|i: int| 0 <= i < p.len() ==> 0 <= #[trigger] p[i] < input.len()
    &&& forall|i: int, j: int| 0 <= i < j < p.len() ==> #[trigger] p[i] != #[trigger] p[j]
    &&& forall|i: int| 0 <= i < p.len() ==> #[trigger] out[i] == input[p[i]]
}

/// A list of `n` different numbers below `n` holds each of them.
proof fn lemma_all_below(p: Seq<int>, k: int)
    requires
        forall|i: int| 0 <= i < p.len() ==> 0 <= #[trigger] p[i] < p.len(),
        forall|i: int, j: int| 0 <= i < j < p.len() ==> #[trigger] p[i] != #[trigger] p[j],
        0 <= k < p.len(),
    ensures
        p.contains(k),
{
    assert(p.no_duplicates());
    p.unique_seq_to_set();
    let all = vstd::set_lib::set_int_range(0, p.len() as int);
    vstd::set_lib::lemma_int_range(0, p.len() as int);
    assert(p.to_set().subset_of(all));
    vstd::set_lib::lemma_subset_equality(p.to_set(), all);
    assert(all.contains(k));
    assert(p.to_set().contains(k));
}

/// Every element of `input` is listed by `out`.
pub proof fn lemma_permutes_onto<T>(p: Seq<int>, input: Seq<T>, out: Seq<T>, k: int)
    requires
        permutes(p, input, out),
        0 <= k < input.len(),
    ensures
        exists|j: int| 0 <= j < out.len() && #[trigger] p[j] == k,
{
    lemma_all_below(p, k);
    let j = choose|j: int| 0 <= j < p.len() && p[j] == k;
    assert(p[j] == k);
}

/// `out` is `input` sorted by `o`, what ranks alike in the order in which it stood.
pub open spec fn sorted_from<T, O: Preorder<T>>(
    o: &O,
    p: Seq<int>,
    input: Seq<T>,
    out: Seq<T>,
) -> bool {
    &&& permutes(p, input, out)
    &&& forall|i: int, j: int|
        0 <= i < j < out.len() ==> o.le(#[trigger] out[i], #[trigger] out[j]) && (o.le(
            out[j],
            out[i],
        ) ==> p[i] < p[j])
}

/// Sorts `v` by `o`; what ranks alike keeps its order.
pub fn stable_sort<T, O: Preorder<T>>(v: &mut Vec<T>, o: &O)
    requires
        o.ready(),
    ensures
        exists|p: Seq<int>| sorted_from(o, p, old(v)@, final(v)@),
{
    let ghost input = v@;
    let ghost mut p: Seq<int> = Seq::new(input.len(), |i: int| i);
    let n: usize = v.len();
    let mut i: usize = 0;
    while i < n
        invariant
            o.ready(),
            i <= n,
            n == v@.len() == input.len(),
            permutes(p, input, v@),
            forall|k: int| 0 <= k < i ==> #[trigger] p[k] < i,
            forall|k: int| i <= k < n ==> #[trigger] p[k] == k,
            forall|a: int, b: int|
                0 <= a < b < i ==> o.le(#[trigger] v@[a], #[trigger] v@[b]) && (o.le(v@[b], v@[a])
                    ==> p[a] < p[b]),
        decreases n - i,
    {
        let ghost was = v@;
        let ghost q = p;
        let mut j: usize = i;
        while j > 0 && !o.may_precede(&v[j - 1], &v[i])
            invariant
                o.ready(),
                j <= i < n,
                n == v@.len(),
                forall|k: int| j <= k < i ==> !o.le(#[trigger] v@[k], v@[i as int]),
            decreases j,
        {
            j = j - 1;
        }
        let x = v.remove(i);
        v.insert(j, x);
        proof {
            p = q.remove(i as int).insert(j as int, i as int);
            let now = v@;
            assert(forall|k: int| 0 <= k < j ==> #[trigger] now[k] == was[k] && p[k] == q[k]);
            assert(now[j as int] == was[i as int] && p[j as int] == i);
            assert(forall|k: int|
                j < k <= i ==> #[trigger] now[k] == was[k - 1] && p[k] == q[k - 1]);
            assert(forall|k: int| i < k < n ==> #[trigger] now[k] == was[k] && p[k] == q[k]);
            assert forall|a: int| 0 <= a < p.len() implies 0 <= #[trigger] p[a] < input.len()
                && now[a] == input[p[a]] by {
                if a < j {
                    assert(was[a] == input[q[a]]);
                } else if a == j {
                    assert(was[i as int] == input[q[i as int]]);
                } else if a <= i {
                    assert(was[a - 1] == input[q[a - 1]]);
                    assert(0 <= q[a - 1]);
                } else {
                    assert(was[a] == input[q[a]]);
                }
            }
            assert forall|a: int| 0 <= a < i + 1 implies #[trigger] p[a] < i + 1 by {
                if a < j {
                    assert(q[a] < i);
                } else if a > j {
                    assert(q[a - 1] < i);
                }
            }
            assert forall|a: int, b: int| 0 <= a < b < p.len() implies #[trigger] p[a]
                != #[trigger] p[b] by {
                let a2 = if a < j {
                    a
                } else if a == j {
                    i as int
                } else if a <= i {
                    a - 1
                } else {
                    a
                };
                let b2 = if b < j {
                    b
                } else if b == j {
                    i as int
                } else if b <= i {
                    b - 1
                } else {
                    b
                };
                assert(p[a] == q[a2]);
                assert(p[b] == q[b2]);
                assert(a2 != b2);
                if a2 < b2 {
                    assert(q[a2] != q[b2]);
                } else {
                    assert(q[b2] != q[a2]);
                }
            }
            let item = was[i as int];
            assert forall|k: int| 0 <= k < j implies o.le(#[trigger] was[k], item) by {
                if k < j - 1 {
                    assert(o.le(was[k], was[j - 1]));
                    o.transitive(was[k], was[j - 1], item);
                }
            }
            assert forall|k: int| j <= k < i implies o.le(item, #[trigger] was[k]) && !o.le(
                was[k],
                item,
            ) by {
                o.total(item, was[k]);
            }
            assert forall|a: int, b: int| 0 <= a < b < i + 1 implies o.le(
                #[trigger] now[a],
                #[trigger] now[b],
            ) && (o.le(now[b], now[a]) ==> p[a] < p[b]) by {
                if b < j {
                    assert(o.le(was[a], was[b]));
                } else if b == j {
                    assert(o.le(was[a], item));
                    assert(q[a] < i);
                } else if a < j {
                    assert(o.le(was[a], was[b - 1]));
                } else if a == j {
                    assert(o.le(item, was[b - 1]));
                } else {
                    assert(o.le(was[a - 1], was[b - 1]));
                }
            }
        }
        i = i + 1;
    }
    assert(sorted_from(o, p, input, v@));
}

// ---------------------------------------------------------------- one order

/// Two lists of the same numbers, each in the strict order `before`, are one list.
proof fn lemma_one_list(before: spec_fn(int, int) -> bool, p: Seq<int>, q: Seq<int>)
    requires
        p.len() == q.len(),
        forall|x: int| #[trigger] p.contains(x) == q.contains(x),
        forall|i: int, j: int| 0 <= i < j < p.len() ==> before(#[trigger] p[i], #[trigger] p[j]),
        forall|i: int, j: int| 0 <= i < j < q.len() ==> before(#[trigger] q[i], #[trigger] q[j]),
        forall|a: int, b: int| #[trigger] before(a, b) ==> !before(b, a),
    ensures
        p == q,
    decreases p.len(),
{
    if p.len() == 0 {
        assert(p =~= q);
    } else {
        let n = p.len() - 1;
        let (x, y) = (p[n], q[n]);
        assert(p.contains(x));
        assert(q.contains(y));
        assert(q.contains(x));
        assert(p.contains(y));
        let k = choose|k: int| 0 <= k < p.len() && p[k] == y;
        let m = choose|m: int| 0 <= m < q.len() && q[m] == x;
        if k < n {
            assert(before(p[k], p[n]));
            if m < n {
                assert(before(q[m], q[n]));
            }
        }
        assert(x == y);
        let (ps, qs) = (p.drop_last(), q.drop_last());
        assert forall|z: int| #[trigger] ps.contains(z) == qs.contains(z) by {
            if ps.contains(z) {
                let i = choose|i: int| 0 <= i < ps.len() && ps[i] == z;
                assert(p[i] == z);
                assert(before(p[i], p[n]));
                assert(p.contains(z));
                let j = choose|j: int| 0 <= j < q.len() && q[j] == z;
                assert(z != y);
                assert(qs[j] == z);
            }
            if qs.contains(z) {
                let i = choose|i: int| 0 <= i < qs.len() && qs[i] == z;
                assert(q[i] == z);
                assert(before(q[i], q[n]));
                assert(q.contains(z));
                assert(p.contains(z));
                let j = choose|j: int| 0 <= j < p.len() && p[j] == z;
                assert(z != x);
                assert(ps[j] == z);
            }
        }
        lemma_one_list(before, ps, qs);
        assert(p =~= ps.push(x));
        assert(q =~= qs.push(y));
    }
}

/// There is one way to put `input` in the order `le`, where what ranks alike keeps
/// the order it had.
pub proof fn lemma_sorted_once<T>(
    le: spec_fn(T, T) -> bool,
    input: Seq<T>,
    p: Seq<int>,
    out: Seq<T>,
    q: Seq<int>,
    other: Seq<T>,
)
    requires
        permutes(p, input, out),
        permutes(q, input, other),
        forall|i: int, j: int|
            0 <= i < j < out.len() ==> le(#[trigger] out[i], #[trigger] out[j]) && (le(
                out[j],
                out[i],
            ) ==> p[i] < p[j]),
        forall|i: int, j: int|
            0 <= i < j < other.len() ==> le(#[trigger] other[i], #[trigger] other[j]) && (le(
                other[j],
                other[i],
            ) ==> q[i] < q[j]),
    ensures
        out == other,
{
    let before = |a: int, b: int| le(input[a], input[b]) && (le(input[b], input[a]) ==> a < b);
    assert forall|x: int| #[trigger] p.contains(x) == q.contains(x) by {
        if 0 <= x < input.len() {
            lemma_all_below(p, x);
            lemma_all_below(q, x);
        }
    }
    assert forall|i: int, j: int| 0 <= i < j < p.len() implies before(
        #[trigger] p[i],
        #[trigger] p[j],
    ) by {
        assert(out[i] == input[p[i]] && out[j] == input[p[j]]);
    }
    assert forall|i: int, j: int| 0 <= i < j < q.len() implies before(
        #[trigger] q[i],
        #[trigger] q[j],
    ) by {
        assert(other[i] == input[q[i]] && other[j] == input[q[j]]);
    }
    lemma_one_list(before, p, q);
    assert(out =~= other);
}

/// Sorting has one result.
pub proof fn law_sorting_is_determined<T, O: Preorder<T>>(
    o: &O,
    input: Seq<T>,
    p: Seq<int>,
    out: Seq<T>,
    q: Seq<int>,
    other: Seq<T>,
)
    requires
        sorted_from(o, p, input, out),
        sorted_from(o, q, input, other),
    ensures
        out == other,
{
    lemma_sorted_once(|a: T, b: T| o.le(a, b), input, p, out, q, other);
}

// ---------------------------------------------------------------- what the order of names means

/// A run of digits writes its number in base ten.
pub proof fn law_digits_write_a_number(s: Seq<char>, c: char)
    requires
        '0' <= c <= '9',
    ensures
        run_value(Seq::empty()) == 0,
        run_value(s.push(c)) == 10 * run_value(s) + (c as int - '0' as int),
{
    assert(s.push(c).drop_last() =~= s);
}

/// Names that are alike up to a place are ordered by their characters there, upper and
/// lower case alike.
pub proof fn law_names_differ_at_a_character(
    p: Seq<char>,
    c: char,
    s: Seq<char>,
    d: char,
    t: Seq<char>,
)
    requires
        !('0' <= c <= '9'),
        !('0' <= d <= '9'),
        !('0' <= text::lowercase_first(c) <= '9'),
        !('0' <= text::lowercase_first(d) <= '9'),
        text::lowercase_first(c) != text::lowercase_first(d),
    ensures
        natural(p + seq![c] + s, p + seq![d] + t) == (if text::lowercase_first(c)
            < text::lowercase_first(d) {
            Rank::Before
        } else {
            Rank::After
        }),
    decreases p.len(),
{
    let a = p + seq![c] + s;
    let b = p + seq![d] + t;
    if p.len() > 0 {
        if text::digit_char(p[0]) {
            lemma_digit_run(a);
            lemma_digit_run(b);
            let m = digit_run(a) as int;
            assert(a[p.len() as int] == c && b[p.len() as int] == d);
            assert(m <= p.len());
            assert forall|i: int| 0 <= i < m implies text::digit_char(#[trigger] b[i]) by {
                assert(a[i] == p[i] && b[i] == p[i]);
            }
            assert(!text::digit_char(b[m])) by {
                if m < p.len() {
                    assert(a[m] == p[m] && b[m] == p[m]);
                }
            }
            lemma_digit_run_is(b, m);
            assert(a.take(m) =~= b.take(m));
            let q = p.skip(m);
            assert(a.skip(m) =~= q + seq![c] + s);
            assert(b.skip(m) =~= q + seq![d] + t);
            law_names_differ_at_a_character(q, c, s, d, t);
        } else {
            let q = p.skip(1);
            assert(a.skip(1) =~= q + seq![c] + s);
            assert(b.skip(1) =~= q + seq![d] + t);
            law_names_differ_at_a_character(q, c, s, d, t);
        }
    }
}

/// Names that are alike up to a number are ordered by its value, which nothing beyond the
/// greatest is told apart by, and of numbers with one value the shorter comes first; alike
/// numbers leave the order to what follows.
pub proof fn law_names_differ_in_a_number(
    p: Seq<char>,
    x: Seq<char>,
    s: Seq<char>,
    y: Seq<char>,
    t: Seq<char>,
)
    requires
        p.len() > 0 ==> !('0' <= p.last() <= '9'),
        x.len() > 0,
        y.len() > 0,
        forall|i: int| 0 <= i < x.len() ==> '0' <= #[trigger] x[i] <= '9',
        forall|i: int| 0 <= i < y.len() ==> '0' <= #[trigger] y[i] <= '9',
        s.len() > 0 ==> !('0' <= s[0] <= '9'),
        t.len() > 0 ==> !('0' <= t[0] <= '9'),
    ensures
        ({
            let r = natural(p + x + s, p + y + t);
            let m = if run_value(x) <= u128::MAX {
                run_value(x) as int
            } else {
                u128::MAX as int
            };
            let n = if run_value(y) <= u128::MAX {
                run_value(y) as int
            } else {
                u128::MAX as int
            };
            &&& m < n ==> r == Rank::Before
            &&& m > n ==> r == Rank::After
            &&& m == n && x.len() < y.len() ==> r == Rank::Before
            &&& m == n && x.len() > y.len() ==> r == Rank::After
            &&& m == n && x.len() == y.len() ==> r == natural(s, t)
        }),
    decreases p.len(),
{
    let a = p + x + s;
    let b = p + y + t;
    if p.len() > 0 {
        if text::digit_char(p[0]) {
            lemma_digit_run(a);
            lemma_digit_run(b);
            let m = digit_run(a) as int;
            assert(a[p.len() - 1] == p.last());
            assert(m < p.len());
            assert forall|i: int| 0 <= i < m implies text::digit_char(#[trigger] b[i]) by {
                assert(a[i] == p[i] && b[i] == p[i]);
            }
            assert(a[m] == p[m] && b[m] == p[m]);
            lemma_digit_run_is(b, m);
            assert(a.take(m) =~= b.take(m));
            let q = p.skip(m);
            assert(a.skip(m) =~= q + x + s);
            assert(b.skip(m) =~= q + y + t);
            law_names_differ_in_a_number(q, x, s, y, t);
        } else {
            let q = p.skip(1);
            assert(a.skip(1) =~= q + x + s);
            assert(b.skip(1) =~= q + y + t);
            law_names_differ_in_a_number(q, x, s, y, t);
        }
    } else {
        assert(a =~= x + s);
        assert(b =~= y + t);
        assert(a[0] == x[0] && b[0] == y[0]);
        assert forall|i: int| 0 <= i < x.len() implies text::digit_char(#[trigger] a[i]) by {
            assert(a[i] == x[i]);
        }
        assert forall|i: int| 0 <= i < y.len() implies text::digit_char(#[trigger] b[i]) by {
            assert(b[i] == y[i]);
        }
        if s.len() > 0 {
            assert(a[x.len() as int] == s[0]);
        }
        if t.len() > 0 {
            assert(b[y.len() as int] == t[0]);
        }
        lemma_digit_run_is(a, x.len() as int);
        lemma_digit_run_is(b, y.len() as int);
        assert(a.take(x.len() as int) =~= x);
        assert(b.take(y.len() as int) =~= y);
        assert(a.skip(x.len() as int) =~= s);
        assert(b.skip(y.len() as int) =~= t);
    }
}

proof fn lemma_longer_run(x: Seq<char>, y: Seq<char>)
    ensures
        run_value(x) <= run_value(x + y),
    decreases y.len(),
{
    if y.len() > 0 {
        lemma_longer_run(x, y.drop_last());
        assert((x + y).drop_last() =~= x + y.drop_last());
    } else {
        assert(x + y =~= x);
    }
}

/// A name comes before every name that goes on from it.
pub proof fn law_shorter_name_first(p: Seq<char>, s: Seq<char>)
    requires
        s.len() > 0,
    ensures
        natural(p, p + s) == Rank::Before,
    decreases p.len(),
{
    let b = p + s;
    if p.len() > 0 {
        assert(b[0] == p[0]);
        if text::digit_char(p[0]) {
            lemma_digit_run(p);
            lemma_digit_run(b);
            let m = digit_run(p) as int;
            if m < p.len() {
                assert forall|i: int| 0 <= i < m implies text::digit_char(#[trigger] b[i]) by {
                    assert(b[i] == p[i]);
                }
                assert(b[m] == p[m]);
                lemma_digit_run_is(b, m);
                assert(b.take(m) =~= p.take(m));
                assert(b.skip(m) =~= p.skip(m) + s);
                law_shorter_name_first(p.skip(m), s);
            } else {
                let n = digit_run(b) as int;
                if n < m {
                    assert(b[n] == p[n]);
                }
                assert(b.take(n) =~= p.take(m) + s.take(n - m));
                lemma_longer_run(p.take(m), s.take(n - m));
                if n == m {
                    assert(b.take(n) =~= p.take(m));
                    assert(b.skip(n) =~= s);
                    assert(natural(p.skip(m), s) == Rank::Before);
                }
            }
        } else {
            assert(b.skip(1) =~= p.skip(1) + s);
            law_shorter_name_first(p.skip(1), s);
        }
    }
}

/// A rank says which of two comes first: of numbers the lesser, and of several tests the
/// first that tells them apart decides.
pub proof fn law_ranks_say_what_comes_first(a: int, b: int, r: Rank, s: Rank)
    ensures
        num_rank(a, b) is Before <==> a < b,
        num_rank(a, b) is After <==> a > b,
        num_rank(a, b) is Same <==> a == b,
        r is Same ==> chain(r, s) == s,
        !(r is Same) ==> chain(r, s) == r,
        rank_of(Ordering::Less) is Before,
        rank_of(Ordering::Equal) is Same,
        rank_of(Ordering::Greater) is After,
{
}

/// A digit and another character, where two names part, are ordered by their characters.
pub proof fn law_names_differ_at_a_digit(
    p: Seq<char>,
    c: char,
    s: Seq<char>,
    d: char,
    t: Seq<char>,
)
    requires
        p.len() > 0 ==> !('0' <= p.last() <= '9'),
        '0' <= c <= '9',
        !('0' <= d <= '9'),
        !('0' <= text::lowercase_first(d) <= '9'),
    ensures
        natural(p + seq![c] + s, p + seq![d] + t) == (if c < text::lowercase_first(d) {
            Rank::Before
        } else {
            Rank::After
        }),
        natural(p + seq![d] + t, p + seq![c] + s) == (if c < text::lowercase_first(d) {
            Rank::After
        } else {
            Rank::Before
        }),
    decreases p.len(),
{
    let a = p + seq![c] + s;
    let b = p + seq![d] + t;
    if p.len() > 0 {
        assert(a[0] == p[0] && b[0] == p[0]);
        if text::digit_char(p[0]) {
            lemma_digit_run(a);
            lemma_digit_run(b);
            let m = digit_run(a) as int;
            assert(a[p.len() - 1] == p.last());
            assert(m < p.len());
            assert forall|i: int| 0 <= i < m implies text::digit_char(#[trigger] b[i]) by {
                assert(a[i] == p[i] && b[i] == p[i]);
            }
            assert(a[m] == p[m] && b[m] == p[m]);
            lemma_digit_run_is(b, m);
            assert(a.take(m) =~= b.take(m));
            let q = p.skip(m);
            assert(a.skip(m) =~= q + seq![c] + s);
            assert(b.skip(m) =~= q + seq![d] + t);
            law_names_differ_at_a_digit(q, c, s, d, t);
        } else {
            let q = p.skip(1);
            assert(a.skip(1) =~= q + seq![c] + s);
            assert(b.skip(1) =~= q + seq![d] + t);
            law_names_differ_at_a_digit(q, c, s, d, t);
        }
    } else {
        assert(a[0] == c && b[0] == d);
    }
}

/// Characters of one lowercase form leave the order to what follows them.
pub proof fn law_case_does_not_order(c: char, s: Seq<char>, d: char, t: Seq<char>)
    requires
        !('0' <= c <= '9'),
        !('0' <= d <= '9'),
        !('0' <= text::lowercase_first(c) <= '9'),
        text::lowercase_first(c) == text::lowercase_first(d),
    ensures
        natural(seq![c] + s, seq![d] + t) == natural(s, t),
{
    let (a, b) = (seq![c] + s, seq![d] + t);
    assert(a.skip(1) =~= s);
    assert(b.skip(1) =~= t);
}

} // verus!

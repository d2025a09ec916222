//! UTF-16 as the system takes and gives it: text ended by a zero unit.
use crate::text;
use vstd::prelude::*;

verus! {

/// The UTF-16 units of one character.
pub open spec fn units(c: char) -> Seq<u16> {
    let n = c as int;
    if n < 0x1_0000 {
        seq![n as u16]
    } else {
        seq![(0xd800 + (n - 0x1_0000) / 0x400) as u16, (0xdc00 + (n - 0x1_0000) % 0x400) as u16]
    }
}

/// The UTF-16 units of a text.
pub open spec fn encoded(s: Seq<char>) -> Seq<u16>
    decreases s.len(),
{
    if s.len() == 0 {
        Seq::empty()
    } else {
        encoded(s.drop_last()) + units(s.last())
    }
}

fn push_units(out: &mut Vec<u16>, c: char)
    ensures
        final(out)@ == old(out)@ + units(c),
{
    let ghost was = out@;
    let n: u32 = c as u32;
    if n < 0x1_0000 {
        out.push(n as u16);
    } else {
        let m: u32 = n - 0x1_0000;
        out.push((0xd800 + m / 0x400) as u16);
        out.push((0xdc00 + m % 0x400) as u16);
    }
    assert(out@ =~= was + units(c));
}

/// Appends the UTF-16 units of a text.
pub fn push_text(out: &mut Vec<u16>, v: &Vec<char>)
    ensures
        final(out)@ == old(out)@ + encoded(v@),
{
    let ghost start = out@;
    let mut i: usize = 0;
    assert(start + encoded(v@.take(0)) =~= out@);
    while i < v.len()
        invariant
            i <= v.len(),
            out@ == start + encoded(v@.take(i as int)),
        decreases v.len() - i,
    {
        let ghost before = out@;
        push_units(out, v[i]);
        proof {
            let t = v@.take(i + 1);
            assert(t.drop_last() =~= v@.take(i as int));
            assert(t.last() == v@[i as int]);
            assert(before + units(v@[i as int]) =~= start + encoded(t));
        }
        i = i + 1;
    }
    assert(v@.take(v@.len() as int) =~= v@);
}

/// A text as the system takes it: its units and a zero.
pub fn wide(s: &str) -> (r: Vec<u16>)
    ensures
        r@ == encoded(s@).push(0),
{
    let v = text::chars_of(s);
    let mut out: Vec<u16> = Vec::new();
    push_text(&mut out, &v);
    assert(out@ =~= encoded(s@));
    out.push(0);
    out
}

/// What `String::from_utf16_lossy` makes of a run of units.
pub uninterp spec fn utf16_lossy(u: Seq<u16>) -> Seq<char>;

/// The text in a run of units: the text whose units they are, and the lossy one
/// where they are those of no text.
pub open spec fn utf16_text(u: Seq<u16>) -> Seq<char> {
    if exists|s: Seq<char>| encoded(s) == u {
        choose|s: Seq<char>| encoded(s) == u
    } else {
        utf16_lossy(u)
    }
}

/// `String::from_utf16_lossy`: the units of a text are decoded to that text; of
/// other units the result is a function of the units alone.
#[verifier::external_body]
fn from_utf16_lossy(u: &[u16]) -> (r: String)
    ensures
        r@ == utf16_lossy(u@),
        r@ == utf16_text(u@),
{
    String::from_utf16_lossy(u)
}

/// The units before the first zero.
pub open spec fn until_nul(u: Seq<u16>) -> Seq<u16>
    decreases u.len(),
{
    if u.len() == 0 || u[0] == 0 {
        Seq::empty()
    } else {
        seq![u[0]] + until_nul(u.drop_first())
    }
}

proof fn lemma_until_nul(u: Seq<u16>, n: int)
    requires
        0 <= n <= u.len(),
        forall|i: int| 0 <= i < n ==> #[trigger] u[i] != 0,
        n == u.len() || u[n] == 0,
    ensures
        until_nul(u) == u.take(n),
    decreases u.len(),
{
    if n > 0 {
        let t = u.drop_first();
        assert(u[0] != 0);
        assert forall|i: int| 0 <= i < n - 1 implies #[trigger] t[i] != 0 by {
            assert(u[i + 1] != 0);
        }
        lemma_until_nul(t, n - 1);
        assert(seq![u[0]] + t.take(n - 1) =~= u.take(n));
    } else {
        assert(u.take(0) =~= Seq::empty());
    }
}

/// The text in a buffer that the system has filled: up to the first zero.
pub fn text_in(buf: &Vec<u16>) -> (r: String)
    ensures
        r@ == utf16_text(until_nul(buf@)),
{
    let mut n: usize = 0;
    while n < buf.len() && buf[n] != 0
        invariant
            n <= buf.len(),
            forall|i: int| 0 <= i < n ==> #[trigger] buf@[i] != 0,
        decreases buf.len() - n,
    {
        n = n + 1;
    }
    proof {
        lemma_until_nul(buf@, n as int);
    }
    let part = vstd::slice::slice_subrange(buf.as_slice(), 0, n);
    assert(part@ =~= buf@.take(n as int));
    from_utf16_lossy(part)
}

/// The text that `units` write.
pub fn text_of(units: &Vec<u16>) -> (r: String)
    ensures
        r@ == utf16_text(units@),
{
    from_utf16_lossy(units.as_slice())
}

/// The units of a character, as numbers.
proof fn lemma_unit_values(c: char)
    ensures
        c as int <= 0x10_ffff,
        (c as int) < 0x1_0000 ==> units(c).len() == 1 && units(c)[0] == c as int,
        c as int >= 0x1_0000 ==> units(c).len() == 2 && units(c)[0] == 0xd800 + (c as int
            - 0x1_0000) / 0x400 && units(c)[1] == 0xdc00 + (c as int - 0x1_0000) % 0x400,
{
    let n = c as int;
    assert(n <= 0x10_ffff);
    if n >= 0x1_0000 {
        let m = n - 0x1_0000;
        assert(0 <= m / 0x400 <= 0x3ff);
        assert(0 <= m % 0x400 <= 0x3ff);
    }
}

proof fn lemma_units_differ(a: char, b: char)
    requires
        units(a) == units(b),
    ensures
        a == b,
{
    lemma_unit_values(a);
    lemma_unit_values(b);
    assert(a as int == b as int);
}

proof fn lemma_unit_shape(c: char)
    ensures
        1 <= units(c).len() <= 2,
        units(c).len() == 1 ==> !(0xdc00 <= units(c)[0] < 0xe000),
        units(c).len() == 2 ==> 0xdc00 <= units(c)[1] < 0xe000,
{
    lemma_unit_values(c);
}

/// Two texts with the same units are the same text.
pub proof fn lemma_encoded_injective(a: Seq<char>, b: Seq<char>)
    requires
        encoded(a) == encoded(b),
    ensures
        a == b,
    decreases a.len(),
{
    if a.len() == 0 && b.len() == 0 {
        assert(a =~= b);
    } else if a.len() == 0 {
        lemma_unit_shape(b.last());
        assert(encoded(b).len() > 0);
    } else if b.len() == 0 {
        lemma_unit_shape(a.last());
        assert(encoded(a).len() > 0);
    } else {
        lemma_unit_shape(a.last());
        lemma_unit_shape(b.last());
        let (p, q) = (encoded(a.drop_last()), encoded(b.drop_last()));
        let (x, y) = (units(a.last()), units(b.last()));
        let e = encoded(a);
        assert(e == p + x && e == q + y);
        assert(e.last() == x.last());
        assert(e.last() == y.last());
        assert(x.len() == y.len());
        assert(p =~= e.take(e.len() - x.len()));
        assert(q =~= e.take(e.len() - y.len()));
        assert(x =~= e.skip(e.len() - x.len()));
        assert(y =~= e.skip(e.len() - y.len()));
        lemma_units_differ(a.last(), b.last());
        lemma_encoded_injective(a.drop_last(), b.drop_last());
        assert(a =~= a.drop_last().push(a.last()));
        assert(b =~= b.drop_last().push(b.last()));
    }
}

proof fn lemma_no_nul(s: Seq<char>)
    requires
        !s.contains('\0'),
    ensures
        forall|i: int| 0 <= i < encoded(s).len() ==> #[trigger] encoded(s)[i] != 0,
    decreases s.len(),
{
    if s.len() > 0 {
        let p = s.drop_last();
        assert forall|i: int| 0 <= i < p.len() implies p[i] != '\0' by {
            assert(s.contains(s[i]));
        }
        lemma_no_nul(p);
        assert(s.contains(s.last()));
        lemma_unit_values(s.last());
        assert(s.last() as int != 0);
        let e = encoded(s);
        assert forall|i: int| 0 <= i < e.len() implies #[trigger] e[i] != 0 by {
            if i < encoded(p).len() {
                assert(e[i] == encoded(p)[i]);
            } else {
                assert(e[i] == units(s.last())[i - encoded(p).len()]);
            }
        }
    }
}

/// A text without a zero that was handed to the system reads back as it was.
pub proof fn law_wide_reads_back(s: Seq<char>)
    requires
        !s.contains('\0'),
    ensures
        utf16_text(until_nul(encoded(s).push(0))) == s,
{
    let u = encoded(s).push(0);
    lemma_no_nul(s);
    assert forall|i: int| 0 <= i < encoded(s).len() implies #[trigger] u[i] != 0 by {
        assert(u[i] == encoded(s)[i]);
    }
    lemma_until_nul(u, encoded(s).len() as int);
    assert(u.take(encoded(s).len() as int) =~= encoded(s));
    let t = choose|t: Seq<char>| encoded(t) == encoded(s);
    lemma_encoded_injective(t, s);
}

/// The units of one path in a list of paths: up to a zero in it, and a zero.
pub open spec fn entry(path: Seq<char>) -> Seq<u16> {
    encoded(text::before(path, '\0')).push(0)
}

/// The units of a list of paths, without the zero that ends the list.
pub open spec fn entries(paths: Seq<Seq<char>>) -> Seq<u16>
    decreases paths.len(),
{
    if paths.len() == 0 {
        Seq::empty()
    } else {
        entries(paths.drop_last()) + entry(paths.last())
    }
}

/// A list of paths as the system takes it: each ended by a zero, and one more zero.
pub fn multistring(paths: &Vec<String>) -> (r: Vec<u16>)
    ensures
        r@ == entries(text::texts(paths@)).push(0),
{
    let ghost all = text::texts(paths@);
    let mut out: Vec<u16> = Vec::new();
    let mut i: usize = 0;
    assert(out@ =~= entries(all.take(0)));
    while i < paths.len()
        invariant
            i <= paths.len(),
            all == text::texts(paths@),
            out@ == entries(all.take(i as int)),
        decreases paths.len() - i,
    {
        let ghost was = out@;
        let v = text::chars_of(paths[i].as_str());
        let n: usize = text::len_before(&v, '\0');
        let s = text::string_of(&v, 0, n);
        let part = text::chars_of(s.as_str());
        push_text(&mut out, &part);
        out.push(0);
        proof {
            assert(all.take(i + 1).drop_last() =~= all.take(i as int));
            assert(all.take(i + 1).last() == paths@[i as int]@);
            assert(out@ =~= was + entry(paths@[i as int]@));
        }
        i = i + 1;
    }
    assert(all.take(all.len() as int) =~= all);
    out.push(0);
    out
}

/// A character is one unit where it is below 0x10000, and else two: a first from 0xd800 on
/// with its upper ten bits and a second from 0xdc00 on with its lower ten.
pub proof fn law_characters_have_their_units(c: char)
    ensures
        (c as int) < 0x1_0000 ==> units(c).len() == 1 && units(c)[0] == c as int,
        (c as int) >= 0x1_0000 ==> units(c).len() == 2 && 0xd800 <= units(c)[0] < 0xdc00 && 0xdc00
            <= units(c)[1] < 0xe000 && (units(c)[0] - 0xd800) * 0x400 + (units(c)[1] - 0xdc00)
            + 0x1_0000 == c as int,
{
}

/// The units of a text are those of its characters, one after the other.
pub proof fn law_texts_are_encoded_in_order(s: Seq<char>, t: Seq<char>)
    ensures
        encoded(s + t) == encoded(s) + encoded(t),
        encoded(Seq::empty()) == Seq::<u16>::empty(),
        t.len() == 1 ==> encoded(t) == units(t[0]),
    decreases t.len(),
{
    if t.len() > 0 {
        let h = t.drop_last();
        law_texts_are_encoded_in_order(s, h);
        assert((s + t).drop_last() =~= s + h);
        assert((s + t).last() == t.last());
        assert(encoded(s) + (encoded(h) + units(t.last())) =~= (encoded(s) + encoded(h)) + units(
            t.last(),
        ));
        if t.len() == 1 {
            assert(encoded(h) =~= Seq::<u16>::empty());
            assert(encoded(h) + units(t[0]) =~= units(t[0]));
        }
    } else {
        assert(s + t =~= s);
        assert(encoded(s) + encoded(t) =~= encoded(s));
    }
}

/// A buffer holds what stands before its first zero.
pub proof fn law_text_ends_at_the_zero(u: Seq<u16>)
    ensures
        until_nul(u).len() <= u.len(),
        until_nul(u) == u.take(until_nul(u).len() as int),
        forall|i: int| 0 <= i < until_nul(u).len() ==> #[trigger] u[i] != 0,
        until_nul(u).len() < u.len() ==> u[until_nul(u).len() as int] == 0,
    decreases u.len(),
{
    let r = until_nul(u);
    if u.len() > 0 && u[0] != 0 {
        let t = u.drop_first();
        law_text_ends_at_the_zero(t);
        let q = until_nul(t);
        assert(r =~= seq![u[0]] + q);
        assert forall|i: int| 0 <= i < r.len() implies #[trigger] u[i] != 0 && r[i] == u[i] by {
            if i > 0 {
                assert(t[i - 1] != 0);
                assert(q[i - 1] == t[i - 1]);
            }
        }
        assert(r =~= u.take(r.len() as int));
    } else {
        assert(r =~= u.take(0));
    }
}

/// A list of paths holds each of them up to its first zero, with a zero behind it, in their
/// order.
pub proof fn law_paths_are_listed_in_order(paths: Seq<Seq<char>>, p: Seq<char>)
    ensures
        entries(Seq::empty()) == Seq::<u16>::empty(),
        entries(paths.push(p)) == entries(paths) + encoded(text::before(p, '\0')) + seq![0u16],
{
    assert(paths.push(p).drop_last() =~= paths);
    let e = encoded(text::before(p, '\0'));
    assert(entries(paths) + e.push(0) =~= entries(paths) + e + seq![0u16]);
}

} // verus!

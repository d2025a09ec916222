//! Little-endian numbers in byte buffers.
use vstd::prelude::*;
use vstd::slice::slice_subrange;

verus! {

/// The number that `b` writes, least significant byte first.
pub open spec fn le(b: Seq<u8>) -> nat
    decreases b.len(),
{
    if b.len() == 0 {
        0
    } else {
        b[0] as nat + 256 * le(b.drop_first())
    }
}

/// The low `w` bytes of `n`, least significant byte first.
pub open spec fn to_le(n: nat, w: nat) -> Seq<u8>
    decreases w,
{
    if w == 0 {
        Seq::empty()
    } else {
        seq![(n % 256) as u8] + to_le(n / 256, (w - 1) as nat)
    }
}

/// 256 to the power `w`: the count of numbers that `w` bytes can write.
pub open spec fn range_of(w: nat) -> nat
    decreases w,
{
    if w == 0 {
        1
    } else {
        256 * range_of((w - 1) as nat)
    }
}

/// `to_le` writes `w` bytes, and they read back as the number where it fits.
pub proof fn lemma_le_round_trip(n: nat, w: nat)
    ensures
        to_le(n, w).len() == w,
        n < range_of(w) ==> le(to_le(n, w)) == n,
    decreases w,
{
    if w > 0 {
        lemma_le_round_trip(n / 256, (w - 1) as nat);
        let t = to_le(n, w);
        assert(t.drop_first() =~= to_le(n / 256, (w - 1) as nat));
        assert(t[0] == (n % 256) as u8);
    }
}

/// The widths in use.
pub proof fn lemma_ranges()
    ensures
        range_of(2) == 0x1_0000,
        range_of(4) == 0x1_0000_0000,
        range_of(8) == 0x1_0000_0000_0000_0000,
{
    reveal_with_fuel(range_of, 9);
}

/// A number of `w` bytes is below `range_of(w)`.
pub proof fn lemma_le_bound(b: Seq<u8>)
    ensures
        le(b) < range_of(b.len()),
    decreases b.len(),
{
    if b.len() > 0 {
        lemma_le_bound(b.drop_first());
    }
}

/// The bytes `buf[off..off + w]`.
pub open spec fn field(buf: Seq<u8>, off: int, w: int) -> Seq<u8> {
    buf.subrange(off, off + w)
}

/// The number in the `w` bytes at `off`.
pub open spec fn num(buf: Seq<u8>, off: int, w: int) -> int {
    le(field(buf, off, w)) as int
}

/// The number in the `w` bytes at `off`.
pub fn read_num(buf: &[u8], off: usize, w: usize) -> (r: u64)
    requires
        w <= 8,
        off + w <= buf@.len(),
    ensures
        r == num(buf@, off as int, w as int),
        r < range_of(w as nat),
{
    let total: usize = buf.len();
    let mut i: usize = w;
    let mut acc: u64 = 0;
    proof {
        assert(field(buf@, off + w, 0) =~= Seq::<u8>::empty());
    }
    while i > 0
        invariant
            i <= w <= 8,
            off + w <= total == buf@.len(),
            acc == le(field(buf@, off + i, w - i)),
        decreases i,
    {
        i = i - 1;
        let b: u8 = buf[off + i];
        proof {
            let f = field(buf@, off + i, w - i);
            assert(f[0] == b);
            assert(f.drop_first() =~= field(buf@, off + i + 1, w - i - 1));
            lemma_le_bound(field(buf@, off + i + 1, w - i - 1));
            reveal_with_fuel(range_of, 9);
            assert(range_of((w - i - 1) as nat) <= 0x100_0000_0000_0000);
        }
        acc = b as u64 + 256 * acc;
    }
    proof {
        lemma_le_bound(field(buf@, off as int, w as int));
    }
    acc
}

/// Appends the low `w` bytes of `n`.
pub fn put_num(out: &mut Vec<u8>, n: u64, w: usize)
    ensures
        final(out)@ == old(out)@ + to_le(n as nat, w as nat),
{
    let ghost start = out@;
    let mut rest: u64 = n;
    let mut left: usize = w;
    proof {
        assert(start + to_le(n as nat, w as nat) =~= out@ + to_le(rest as nat, left as nat));
    }
    while left > 0
        invariant
            start + to_le(n as nat, w as nat) == out@ + to_le(rest as nat, left as nat),
        decreases left,
    {
        let ghost before = out@;
        out.push((rest % 256) as u8);
        proof {
            assert(to_le(rest as nat, left as nat) =~= seq![(rest % 256) as u8] + to_le(
                (rest / 256) as nat,
                (left - 1) as nat,
            ));
            assert(before + to_le(rest as nat, left as nat) =~= out@ + to_le(
                (rest / 256) as nat,
                (left - 1) as nat,
            ));
        }
        rest = rest / 256;
        left = left - 1;
    }
    assert(out@ + to_le(rest as nat, 0) =~= out@);
}

/// Appends a run of bytes.
pub fn put_bytes(out: &mut Vec<u8>, b: &[u8])
    ensures
        final(out)@ == old(out)@ + b@,
{
    let ghost start = out@;
    out.extend_from_slice(b);
    assert(out@ =~= start + b@);
}

/// A copy of `buf[off..off + len]`.
pub fn copy_bytes(buf: &[u8], off: usize, len: usize) -> (r: Vec<u8>)
    requires
        off + len <= buf@.len(),
    ensures
        r@ == field(buf@, off as int, len as int),
{
    let total: usize = buf.len();
    assert(off + len <= total);
    let part = slice_subrange(buf, off, off + len);
    let mut out: Vec<u8> = Vec::new();
    out.extend_from_slice(part);
    assert(out@ =~= field(buf@, off as int, len as int));
    out
}

/// Whether the four bytes at `off` are `a b c d`.
pub fn has_magic(buf: &[u8], off: usize, a: u8, b: u8, c: u8, d: u8) -> (r: bool)
    requires
        off + 4 <= buf@.len(),
    ensures
        r == (field(buf@, off as int, 4) == seq![a, b, c, d]),
{
    let r = buf[off] == a && buf[off + 1] == b && buf[off + 2] == c && buf[off + 3] == d;
    proof {
        let f = field(buf@, off as int, 4);
        assert(f[0] == buf@[off as int] && f[1] == buf@[off + 1] && f[2] == buf@[off + 2] && f[3]
            == buf@[off + 3]);
        if r {
            assert(f =~= seq![a, b, c, d]);
        } else {
            assert(f == seq![a, b, c, d] ==> f[0] == a && f[1] == b && f[2] == c && f[3] == d);
        }
    }
    r
}

/// Numbers are kept with the low byte first.
pub proof fn law_low_byte_comes_first(buf: Seq<u8>, off: int, n: nat)
    requires
        0 <= off,
        off + 8 <= buf.len(),
    ensures
        num(buf, off, 2) == buf[off] + 0x100 * buf[off + 1],
        num(buf, off, 4) == buf[off] + 0x100 * buf[off + 1] + 0x1_0000 * buf[off + 2] + 0x100_0000
            * buf[off + 3],
        num(buf, off, 8) == num(buf, off, 4) + 0x1_0000_0000 * num(buf, off + 4, 4),
        to_le(n, 4).len() == 4,
        to_le(n, 4)[0] == n % 0x100,
        to_le(n, 4)[1] == n / 0x100 % 0x100,
        to_le(n, 4)[2] == n / 0x100 / 0x100 % 0x100,
        to_le(n, 4)[3] == n / 0x100 / 0x100 / 0x100 % 0x100,
{
    reveal_with_fuel(le, 9);
    reveal_with_fuel(to_le, 5);
    let f2 = field(buf, off, 2);
    assert(f2.drop_first() =~= seq![buf[off + 1]]);
    assert(seq![buf[off + 1]].drop_first() =~= Seq::<u8>::empty());
    lemma_le_four(buf, off);
    lemma_le_four(buf, off + 4);
    let f8 = field(buf, off, 8);
    let g = field(buf, off + 4, 4);
    let d1 = f8.drop_first();
    let d2 = d1.drop_first();
    let d3 = d2.drop_first();
    assert(d3.drop_first() =~= g);
}

proof fn lemma_le_four(buf: Seq<u8>, off: int)
    requires
        0 <= off,
        off + 4 <= buf.len(),
    ensures
        num(buf, off, 4) == buf[off] + 0x100 * buf[off + 1] + 0x1_0000 * buf[off + 2] + 0x100_0000
            * buf[off + 3],
{
    reveal_with_fuel(le, 6);
    let f = field(buf, off, 4);
    assert(f.drop_first() =~= seq![buf[off + 1], buf[off + 2], buf[off + 3]]);
    assert(f.drop_first().drop_first() =~= seq![buf[off + 2], buf[off + 3]]);
    assert(f.drop_first().drop_first().drop_first() =~= seq![buf[off + 3]]);
    assert(f.drop_first().drop_first().drop_first().drop_first() =~= Seq::<u8>::empty());
}

} // verus!

//! Snapshots of the wallpaper: when one is usable, when it has changed where a
//! fence can show it, and the file in which they are kept.
//!
//! Layout of the file, all numbers little-endian: `DFWP`, u32 version, u32 count,
//! then per snapshot {i32 x, i32 y, u32 w, u32 h, u64 length, pixels of 4 bytes}.
use crate::bytes;
use vstd::prelude::*;

verus! {

/// A snapshot of one screen's wallpaper: 4 bytes a pixel, row by row.
pub struct WallpaperPixels {
    pub px: Vec<u8>,
    pub w: u32,
    pub h: u32,
    pub origin_x: i32,
    pub origin_y: i32,
}

/// The contents of a `WallpaperPixels`.
#[verifier::ext_equal]
pub struct CapView {
    pub px: Seq<u8>,
    pub w: u32,
    pub h: u32,
    pub origin_x: i32,
    pub origin_y: i32,
}

impl View for WallpaperPixels {
    type V = CapView;

    open spec fn view(&self) -> CapView {
        CapView {
            px: self.px@,
            w: self.w,
            h: self.h,
            origin_x: self.origin_x,
            origin_y: self.origin_y,
        }
    }
}

/// The contents of a list of snapshots.
pub open spec fn cap_views(c: Seq<WallpaperPixels>) -> Seq<CapView> {
    Seq::new(c.len(), |i: int| c[i]@)
}

/// A snapshot of a sensible size with all its pixels.
pub open spec fn whole(c: CapView) -> bool {
    &&& 1 <= c.w <= 16384
    &&& 1 <= c.h <= 16384
    &&& c.px.len() == c.w * c.h * 4
}

// ---------------------------------------------------------------- usable

/// Pixel `k` is opaque black.
pub open spec fn black_pixel(px: Seq<u8>, k: int) -> bool {
    px[4 * k] == 0 && px[4 * k + 1] == 0 && px[4 * k + 2] == 0 && px[4 * k + 3] == 255
}

/// A frame that the system hands out while it changes the wallpaper: not empty, not
/// small, and opaque black as far as its first 4096 pixels show.
pub fn is_black_frame(px: &[u8], w: u32, h: u32) -> (r: bool)
    ensures
        r == (px@.len() > 0 && w > 64 && h > 64 && forall|k: int|
            0 <= k < px@.len() / 4 && k < 4096 ==> #[trigger] black_pixel(px@, k)),
{
    let total: usize = px.len();
    if total == 0 || w <= 64 || h <= 64 {
        return false;
    }
    let whole: usize = total / 4;
    let n: usize = if whole < 4096 {
        whole
    } else {
        4096
    };
    let mut k: usize = 0;
    while k < n
        invariant
            k <= n <= total / 4,
            n <= 4096,
            total == px@.len(),
            forall|j: int| 0 <= j < k ==> #[trigger] black_pixel(px@, j),
        decreases n - k,
    {
        if !(px[4 * k] == 0 && px[4 * k + 1] == 0 && px[4 * k + 2] == 0 && px[4 * k + 3] == 255) {
            assert(!black_pixel(px@, k as int));
            return false;
        }
        k = k + 1;
    }
    true
}

/// Precise rendering is given up only where there is no snapshot at all, two
/// captures have failed, and ten seconds have passed since the start.
pub fn capture_fallback_due(has_snapshot: bool, fails: u32, elapsed_ms: u64) -> (r: bool)
    ensures
        r == (!has_snapshot && fails >= 2 && elapsed_ms > 10_000),
{
    !has_snapshot && fails >= 2 && elapsed_ms > 10_000
}

// ---------------------------------------------------------------- changed

/// How far two bytes are apart.
pub open spec fn apart(a: u8, b: u8) -> int {
    if a < b {
        b - a
    } else {
        a - b
    }
}

/// Pixel `k` of `a` and pixel `m` of `b` differ by more than 8 in a colour.
pub open spec fn pixel_differs(a: Seq<u8>, k: int, b: Seq<u8>, m: int) -> bool {
    apart(a[4 * k], b[4 * m]) > 8 || apart(a[4 * k + 1], b[4 * m + 1]) > 8 || apart(
        a[4 * k + 2],
        b[4 * m + 2],
    ) > 8
}

/// Two runs of pixels differ: in length, or in a pixel by more than 8.
pub open spec fn pixels_differ(a: Seq<u8>, b: Seq<u8>) -> bool {
    a.len() != b.len() || exists|k: int|
        0 <= k < a.len() / 4 && #[trigger] pixel_differs(a, k, b, k)
}

fn byte_differs(a: u8, b: u8) -> (r: bool)
    ensures
        r == (apart(a, b) > 8),
{
    if a < b {
        b - a > 8
    } else {
        a - b > 8
    }
}

/// Whether two runs of pixels differ, small differences of brightness aside.
pub fn px_differs(a: &[u8], b: &[u8]) -> (r: bool)
    ensures
        r == pixels_differ(a@, b@),
{
    if a.len() != b.len() {
        return true;
    }
    let total: usize = a.len();
    let n: usize = total / 4;
    let mut k: usize = 0;
    while k < n
        invariant
            k <= n == total / 4,
            total == a@.len() == b@.len(),
            forall|j: int| 0 <= j < k ==> !#[trigger] pixel_differs(a@, j, b@, j),
        decreases n - k,
    {
        if byte_differs(a[4 * k], b[4 * k]) || byte_differs(a[4 * k + 1], b[4 * k + 1])
            || byte_differs(a[4 * k + 2], b[4 * k + 2]) {
            assert(pixel_differs(a@, k as int, b@, k as int));
            return true;
        }
        k = k + 1;
    }
    false
}

/// The area of a fence in whole pixels of the screen.
#[derive(Clone, Copy, PartialEq, Eq, Structural, Debug)]
pub struct Area {
    pub x: i32,
    pub y: i32,
    pub w: i32,
    pub h: i32,
}

/// Two snapshots are of the same screen.
pub open spec fn same_frame(a: CapView, b: CapView) -> bool {
    a.w == b.w && a.h == b.h && a.origin_x == b.origin_x && a.origin_y == b.origin_y
}

/// The pixel in column `x` of row `y` lies in the snapshot and under the fence.
pub open spec fn under(a: CapView, f: Area, x: int, y: int) -> bool {
    &&& 0 <= x < a.w
    &&& 0 <= y < a.h
    &&& f.x <= x + a.origin_x < f.x + f.w
    &&& f.y <= y + a.origin_y < f.y + f.h
}

/// A pixel under the fence differs between two snapshots.
pub open spec fn changed_under(a: CapView, b: CapView, f: Area) -> bool {
    exists|x: int, y: int|
        under(a, f, x, y) && #[trigger] pixel_differs(a.px, y * a.w + x, b.px, y * a.w + x)
}

/// The snapshots differ where it matters: in number or in their screens, or in a
/// pixel under a fence; without fences, in any pixel.
pub open spec fn changed(was: Seq<CapView>, now: Seq<CapView>, fences: Seq<Area>) -> bool {
    ||| was.len() != now.len()
    ||| exists|i: int| 0 <= i < was.len() && !same_frame(#[trigger] was[i], now[i])
    ||| fences.len() == 0 && exists|i: int|
        0 <= i < was.len() && pixels_differ((#[trigger] was[i]).px, now[i].px)
    ||| exists|i: int, j: int|
        0 <= i < was.len() && 0 <= j < fences.len() && changed_under(
            #[trigger] was[i],
            now[i],
            #[trigger] fences[j],
        )
}

fn later(a: i64, b: i64) -> (r: i64)
    ensures
        r == (if a < b {
            b
        } else {
            a
        }),
{
    if a < b {
        b
    } else {
        a
    }
}

fn sooner(a: i64, b: i64) -> (r: i64)
    ensures
        r == (if a < b {
            a
        } else {
            b
        }),
{
    if a < b {
        a
    } else {
        b
    }
}

proof fn lemma_pixel_index(w: int, h: int, x: int, y: int)
    requires
        0 <= x < w <= 16384,
        0 <= y < h <= 16384,
    ensures
        0 <= y * w + x < w * h,
        w * h <= 0x1000_0000,
{
    assert(0 <= y * w) by (nonlinear_arith)
        requires
            0 <= y,
            0 <= w,
    ;
    assert(y * w + x < w * h) by (nonlinear_arith)
        requires
            0 <= x < w,
            0 <= y < h,
    ;
    assert(w * h <= 0x1000_0000) by (nonlinear_arith)
        requires
            0 <= w <= 16384,
            0 <= h <= 16384,
    ;
}

/// Whether a pixel under the fence differs between two whole snapshots of one screen.
fn differs_under(a: &WallpaperPixels, b: &WallpaperPixels, f: Area) -> (r: bool)
    requires
        whole(a@),
        whole(b@),
        same_frame(a@, b@),
    ensures
        r == changed_under(a@, b@, f),
{
    let x0: i64 = later(f.x as i64 - a.origin_x as i64, 0);
    let y0: i64 = later(f.y as i64 - a.origin_y as i64, 0);
    let x1: i64 = sooner(f.x as i64 + f.w as i64 - a.origin_x as i64, a.w as i64);
    let y1: i64 = sooner(f.y as i64 + f.h as i64 - a.origin_y as i64, a.h as i64);
    let w: usize = a.w as usize;
    let mut y: i64 = y0;
    while y < y1
        invariant
            whole(a@),
            whole(b@),
            same_frame(a@, b@),
            w == a.w,
            0 <= x0,
            0 <= y0 <= y,
            x1 <= a.w,
            y1 <= a.h,
            forall|p: int, q: int|
                under(a@, f, p, q) <==> x0 <= p < x1 && y0 <= q < y1,
            forall|p: int, q: int|
                x0 <= p < x1 && y0 <= q < y ==> !#[trigger] pixel_differs(
                    a@.px,
                    q * a.w + p,
                    b@.px,
                    q * a.w + p,
                ),
        decreases y1 - y,
    {
        let mut x: i64 = x0;
        while x < x1
            invariant
                whole(a@),
                whole(b@),
                same_frame(a@, b@),
                w == a.w,
                0 <= x0 <= x,
                0 <= y0 <= y < y1,
                x1 <= a.w,
                y1 <= a.h,
                forall|p: int, q: int|
                    under(a@, f, p, q) <==> x0 <= p < x1 && y0 <= q < y1,
                forall|p: int|
                    x0 <= p < x ==> !#[trigger] pixel_differs(
                        a@.px,
                        y * a.w + p,
                        b@.px,
                        y * a.w + p,
                    ),
            decreases x1 - x,
        {
            proof {
                lemma_pixel_index(a.w as int, a.h as int, x as int, y as int);
            }
            let k: usize = (y as usize) * w + x as usize;
            if byte_differs(a.px[4 * k], b.px[4 * k]) || byte_differs(
                a.px[4 * k + 1],
                b.px[4 * k + 1],
            ) || byte_differs(a.px[4 * k + 2], b.px[4 * k + 2]) {
                assert(under(a@, f, x as int, y as int));
                assert(pixel_differs(a@.px, y * a.w + x, b@.px, y * a.w + x));
                return true;
            }
            x = x + 1;
        }
        assert forall|p: int, q: int| x0 <= p < x1 && y0 <= q < y + 1 implies !#[trigger] pixel_differs(
            a@.px,
            q * a.w + p,
            b@.px,
            q * a.w + p,
        ) by {
            if q == y {
                assert(!pixel_differs(a@.px, y * a.w + p, b@.px, y * a.w + p));
            }
        }
        y = y + 1;
    }
    false
}

/// Whether the wallpaper has changed where a fence can show it.
pub fn wallpaper_changed_under_fences(
    was: &Vec<WallpaperPixels>,
    now: &Vec<WallpaperPixels>,
    fences: &Vec<Area>,
) -> (r: bool)
    requires
        forall|i: int| 0 <= i < was@.len() ==> whole(#[trigger] cap_views(was@)[i]),
        forall|i: int| 0 <= i < now@.len() ==> whole(#[trigger] cap_views(now@)[i]),
    ensures
        r == changed(cap_views(was@), cap_views(now@), fences@),
{
    let ghost a = cap_views(was@);
    let ghost b = cap_views(now@);
    if was.len() != now.len() {
        return true;
    }
    let n: usize = was.len();
    let mut i: usize = 0;
    while i < n
        invariant
            i <= n == was@.len() == now@.len(),
            a == cap_views(was@),
            b == cap_views(now@),
            forall|k: int| 0 <= k < i ==> same_frame(#[trigger] a[k], b[k]),
        decreases n - i,
    {
        assert(a[i as int] == was@[i as int]@ && b[i as int] == now@[i as int]@);
        if was[i].w != now[i].w || was[i].h != now[i].h || was[i].origin_x != now[i].origin_x
            || was[i].origin_y != now[i].origin_y {
            assert(!same_frame(a[i as int], b[i as int]));
            return true;
        }
        i = i + 1;
    }
    if fences.len() == 0 {
        let mut k: usize = 0;
        while k < n
            invariant
                k <= n == was@.len() == now@.len(),
                a == cap_views(was@),
                b == cap_views(now@),
                fences@.len() == 0,
                forall|j: int| 0 <= j < k ==> !pixels_differ((#[trigger] a[j]).px, b[j].px),
            decreases n - k,
        {
            assert(a[k as int] == was@[k as int]@ && b[k as int] == now@[k as int]@);
            if px_differs(was[k].px.as_slice(), now[k].px.as_slice()) {
                assert(pixels_differ(a[k as int].px, b[k as int].px));
                return true;
            }
            k = k + 1;
        }
        return false;
    }
    let mut j: usize = 0;
    while j < fences.len()
        invariant
            j <= fences.len(),
            n == was@.len() == now@.len(),
            a == cap_views(was@),
            b == cap_views(now@),
            forall|k: int| 0 <= k < n ==> same_frame(#[trigger] a[k], b[k]),
            forall|k: int| 0 <= k < n ==> whole(#[trigger] a[k]),
            forall|k: int| 0 <= k < n ==> whole(#[trigger] b[k]),
            forall|k: int, m: int|
                0 <= k < n && 0 <= m < j ==> !changed_under(
                    #[trigger] a[k],
                    b[k],
                    #[trigger] fences@[m],
                ),
        decreases fences.len() - j,
    {
        let mut k: usize = 0;
        while k < n
            invariant
                j < fences.len(),
                k <= n == was@.len() == now@.len(),
                a == cap_views(was@),
                b == cap_views(now@),
                forall|p: int| 0 <= p < n ==> same_frame(#[trigger] a[p], b[p]),
                forall|p: int| 0 <= p < n ==> whole(#[trigger] a[p]),
                forall|p: int| 0 <= p < n ==> whole(#[trigger] b[p]),
                forall|p: int|
                    0 <= p < k ==> !changed_under(#[trigger] a[p], b[p], fences@[j as int]),
            decreases n - k,
        {
            assert(a[k as int] == was@[k as int]@ && b[k as int] == now@[k as int]@);
            assert(whole(a[k as int]) && whole(b[k as int]));
            assert(same_frame(a[k as int], b[k as int]));
            if differs_under(&was[k], &now[k], fences[j]) {
                assert(changed_under(a[k as int], b[k as int], fences@[j as int]));
                return true;
            }
            k = k + 1;
        }
        j = j + 1;
    }
    false
}

/// A change that no fence covers is no change: what fences never show triggers nothing.
pub proof fn law_only_what_is_covered_counts(a: CapView, b: CapView, f: Area)
    requires
        same_frame(a, b),
        forall|x: int, y: int|
            under(a, f, x, y) ==> !#[trigger] pixel_differs(
                a.px,
                y * a.w + x,
                b.px,
                y * a.w + x,
            ),
    ensures
        !changed_under(a, b, f),
        !changed(seq![a], seq![b], seq![f]),
{
    if changed(seq![a], seq![b], seq![f]) {
        assert(seq![a][0] == a && seq![b][0] == b && seq![f][0] == f);
    }
}

// ---------------------------------------------------------------- the file

/// `DFWP`.
pub open spec fn magic() -> Seq<u8> {
    seq![0x44u8, 0x46u8, 0x57u8, 0x50u8]
}

/// The number that stands for a signed number in four bytes.
pub open spec fn unsigned(x: i32) -> nat {
    if x < 0 {
        (x + 0x1_0000_0000) as nat
    } else {
        x as nat
    }
}

/// The signed number that four bytes stand for.
pub open spec fn signed(n: int) -> i32 {
    if n < 0x8000_0000 {
        n as i32
    } else {
        (n - 0x1_0000_0000) as i32
    }
}

/// The snapshot at `off` and the offset behind it, where there is a whole one.
pub open spec fn cap_at(buf: Seq<u8>, off: int) -> Option<(CapView, int)> {
    if off + 24 > buf.len() {
        None
    } else {
        let w = bytes::num(buf, off + 8, 4);
        let h = bytes::num(buf, off + 12, 4);
        let len = bytes::num(buf, off + 16, 8);
        if !(1 <= w <= 16384 && 1 <= h <= 16384) || len != w * h * 4 || off + 24 + len
            > buf.len() {
            None
        } else {
            Some(
                (
                    CapView {
                        px: bytes::field(buf, off + 24, len),
                        w: w as u32,
                        h: h as u32,
                        origin_x: signed(bytes::num(buf, off, 4)),
                        origin_y: signed(bytes::num(buf, off + 4, 4)),
                    },
                    off + 24 + len,
                ),
            )
        }
    }
}

/// The `n` snapshots from `off` on, where all are whole.
pub open spec fn caps_at(buf: Seq<u8>, off: int, n: nat) -> Option<Seq<CapView>>
    decreases n,
{
    if n == 0 {
        Some(Seq::empty())
    } else {
        match cap_at(buf, off) {
            None => None,
            Some((c, next)) => match caps_at(buf, next, (n - 1) as nat) {
                None => None,
                Some(rest) => Some(seq![c] + rest),
            },
        }
    }
}

/// What a file holds: all its snapshots, where the file is whole and holds any.
pub open spec fn decoded(buf: Seq<u8>) -> Option<Seq<CapView>> {
    if buf.len() < 12 || bytes::field(buf, 0, 4) != magic() || bytes::num(buf, 4, 4) != 1 {
        None
    } else {
        match caps_at(buf, 12, bytes::num(buf, 8, 4) as nat) {
            Some(s) => if s.len() > 0 {
                Some(s)
            } else {
                None
            },
            None => None,
        }
    }
}

fn to_signed(n: u64) -> (r: i32)
    requires
        n < 0x1_0000_0000,
    ensures
        r == signed(n as int),
{
    if n < 0x8000_0000 {
        n as i32
    } else {
        (n as i64 - 0x1_0000_0000) as i32
    }
}

fn read_cap(buf: &[u8], off: usize) -> (r: Option<(WallpaperPixels, usize)>)
    requires
        off <= buf@.len(),
    ensures
        match cap_at(buf@, off as int) {
            None => r is None,
            Some((c, next)) => r matches Some(t) && t.0@ == c && t.1 == next && next
                <= buf@.len(),
        },
{
    let total: usize = buf.len();
    if total - off < 24 {
        return None;
    }
    proof {
        bytes::lemma_ranges();
    }
    let x: u64 = bytes::read_num(buf, off, 4);
    let y: u64 = bytes::read_num(buf, off + 4, 4);
    let w: u64 = bytes::read_num(buf, off + 8, 4);
    let h: u64 = bytes::read_num(buf, off + 12, 4);
    let len: u64 = bytes::read_num(buf, off + 16, 8);
    if w < 1 || w > 16384 || h < 1 || h > 16384 {
        return None;
    }
    assert(w * h <= 0x1000_0000) by (nonlinear_arith)
        requires
            w <= 16384,
            h <= 16384,
    ;
    if len != w * h * 4 {
        return None;
    }
    let d: usize = off + 24;
    if ((total - d) as u64) < len {
        return None;
    }
    let px = bytes::copy_bytes(buf, d, len as usize);
    let c = WallpaperPixels {
        px,
        w: w as u32,
        h: h as u32,
        origin_x: to_signed(x),
        origin_y: to_signed(y),
    };
    Some((c, d + len as usize))
}

/// Reads a file of snapshots. One that is not whole yields none of them.
pub fn decode_wallpaper_cache(buf: &[u8]) -> (r: Option<Vec<WallpaperPixels>>)
    ensures
        match decoded(buf@) {
            Some(s) => r matches Some(v) && cap_views(v@) == s,
            None => r is None,
        },
{
    let total: usize = buf.len();
    if total < 12 || !bytes::has_magic(buf, 0, 0x44, 0x46, 0x57, 0x50) {
        return None;
    }
    if bytes::read_num(buf, 4, 4) != 1 {
        return None;
    }
    let mut left: u64 = bytes::read_num(buf, 8, 4);
    let mut off: usize = 12;
    let mut out: Vec<WallpaperPixels> = Vec::new();
    let ghost all = caps_at(buf@, 12, left as nat);
    proof {
        if let Some(s) = all {
            assert(cap_views(out@) + s =~= s);
        }
    }
    while left > 0
        invariant
            off <= total == buf@.len(),
            total >= 12,
            bytes::field(buf@, 0, 4) == magic(),
            bytes::num(buf@, 4, 4) == 1,
            all == caps_at(buf@, 12, bytes::num(buf@, 8, 4) as nat),
            all == (match caps_at(buf@, off as int, left as nat) {
                Some(s) => Some(cap_views(out@) + s),
                None => None::<Seq<CapView>>,
            }),
        decreases left,
    {
        match read_cap(buf, off) {
            None => {
                return None;
            },
            Some((c, next)) => {
                proof {
                    let was = cap_views(out@);
                    assert(cap_views(out@.push(c)) =~= was.push(c@));
                    if let Some(rest) = caps_at(buf@, next as int, (left - 1) as nat) {
                        assert(was + (seq![c@] + rest) =~= was.push(c@) + rest);
                    }
                }
                out.push(c);
                off = next;
                left = left - 1;
            },
        }
    }
    assert(cap_views(out@) + Seq::<CapView>::empty() =~= cap_views(out@));
    if out.len() == 0 {
        None
    } else {
        Some(out)
    }
}

/// The bytes of one snapshot.
pub open spec fn cap_bytes(c: CapView) -> Seq<u8> {
    bytes::to_le(unsigned(c.origin_x), 4) + bytes::to_le(unsigned(c.origin_y), 4) + bytes::to_le(
        c.w as nat,
        4,
    ) + bytes::to_le(c.h as nat, 4) + bytes::to_le(c.px.len(), 8) + c.px
}

/// The bytes of a list of snapshots.
pub open spec fn caps_bytes(cs: Seq<CapView>) -> Seq<u8>
    decreases cs.len(),
{
    if cs.len() == 0 {
        Seq::empty()
    } else {
        cap_bytes(cs[0]) + caps_bytes(cs.drop_first())
    }
}

/// The bytes of a file.
pub open spec fn encoded(cs: Seq<CapView>) -> Seq<u8> {
    magic() + bytes::to_le(1, 4) + bytes::to_le(cs.len(), 4) + caps_bytes(cs)
}

fn to_unsigned(x: i32) -> (r: u64)
    ensures
        r == unsigned(x),
{
    if x < 0 {
        (x as i64 + 0x1_0000_0000) as u64
    } else {
        x as u64
    }
}

/// Writes a file of snapshots.
pub fn encode_wallpaper_cache(caps: &Vec<WallpaperPixels>) -> (r: Vec<u8>)
    ensures
        r@ == encoded(cap_views(caps@)),
{
    let ghost cs = cap_views(caps@);
    let mut out: Vec<u8> = Vec::new();
    out.push(0x44);
    out.push(0x46);
    out.push(0x57);
    out.push(0x50);
    assert(out@ =~= magic());
    bytes::put_num(&mut out, 1, 4);
    bytes::put_num(&mut out, caps.len() as u64, 4);
    let ghost head = out@;
    let mut i: usize = 0;
    proof {
        assert(cs.skip(0) =~= cs);
        assert(head + caps_bytes(cs) =~= out@ + caps_bytes(cs.skip(0)));
    }
    while i < caps.len()
        invariant
            i <= caps.len(),
            cs == cap_views(caps@),
            head + caps_bytes(cs) == out@ + caps_bytes(cs.skip(i as int)),
        decreases caps.len() - i,
    {
        let ghost start = out@;
        let ghost c = cs[i as int];
        bytes::put_num(&mut out, to_unsigned(caps[i].origin_x), 4);
        bytes::put_num(&mut out, to_unsigned(caps[i].origin_y), 4);
        bytes::put_num(&mut out, caps[i].w as u64, 4);
        bytes::put_num(&mut out, caps[i].h as u64, 4);
        bytes::put_num(&mut out, caps[i].px.len() as u64, 8);
        bytes::put_bytes(&mut out, caps[i].px.as_slice());
        proof {
            assert(c == caps@[i as int]@);
            assert(out@ =~= start + cap_bytes(c));
            let rest = cs.skip(i as int);
            assert(rest[0] == c);
            assert(rest.drop_first() =~= cs.skip(i + 1));
            assert(start + caps_bytes(rest) =~= out@ + caps_bytes(cs.skip(i + 1)));
        }
        i = i + 1;
    }
    assert(out@ =~= encoded(cs));
    out
}

proof fn lemma_cap_at(front: Seq<u8>, c: CapView, back: Seq<u8>)
    requires
        whole(c),
    ensures
        cap_at(front + cap_bytes(c) + back, front.len() as int) == Some(
            (c, (front.len() + cap_bytes(c).len()) as int),
        ),
{
    let buf = front + cap_bytes(c) + back;
    let off = front.len() as int;
    bytes::lemma_ranges();
    bytes::lemma_le_round_trip(unsigned(c.origin_x), 4);
    bytes::lemma_le_round_trip(unsigned(c.origin_y), 4);
    bytes::lemma_le_round_trip(c.w as nat, 4);
    bytes::lemma_le_round_trip(c.h as nat, 4);
    assert(c.w * c.h <= 0x1000_0000) by (nonlinear_arith)
        requires
            c.w <= 16384,
            c.h <= 16384,
    ;
    bytes::lemma_le_round_trip(c.px.len(), 8);
    assert(bytes::field(buf, off, 4) =~= bytes::to_le(unsigned(c.origin_x), 4));
    assert(bytes::field(buf, off + 4, 4) =~= bytes::to_le(unsigned(c.origin_y), 4));
    assert(bytes::field(buf, off + 8, 4) =~= bytes::to_le(c.w as nat, 4));
    assert(bytes::field(buf, off + 12, 4) =~= bytes::to_le(c.h as nat, 4));
    assert(bytes::field(buf, off + 16, 8) =~= bytes::to_le(c.px.len(), 8));
    assert(bytes::field(buf, off + 24, c.px.len() as int) =~= c.px);
}

proof fn lemma_caps_at(front: Seq<u8>, cs: Seq<CapView>)
    requires
        forall|i: int| 0 <= i < cs.len() ==> whole(#[trigger] cs[i]),
    ensures
        caps_at(front + caps_bytes(cs), front.len() as int, cs.len()) == Some(cs),
    decreases cs.len(),
{
    if cs.len() > 0 {
        let one = cap_bytes(cs[0]);
        let tail = cs.drop_first();
        let rest = caps_bytes(tail);
        let buf = front + caps_bytes(cs);
        assert(buf =~= front + one + rest);
        lemma_cap_at(front, cs[0], rest);
        assert(buf =~= (front + one) + rest);
        assert forall|i: int| 0 <= i < tail.len() implies whole(#[trigger] tail[i]) by {
            assert(whole(cs[i + 1]));
        }
        lemma_caps_at(front + one, tail);
        assert(seq![cs[0]] + tail =~= cs);
    } else {
        assert(cs =~= Seq::empty());
    }
}

/// Writing and reading are inverse: whole snapshots, one at least, read back as
/// they were written.
pub proof fn law_decode_inverts_encode(cs: Seq<CapView>)
    requires
        0 < cs.len() < 0x1_0000_0000,
        forall|i: int| 0 <= i < cs.len() ==> whole(#[trigger] cs[i]),
    ensures
        decoded(encoded(cs)) == Some(cs),
{
    let buf = encoded(cs);
    bytes::lemma_ranges();
    bytes::lemma_le_round_trip(1, 4);
    bytes::lemma_le_round_trip(cs.len(), 4);
    let head = magic() + bytes::to_le(1, 4) + bytes::to_le(cs.len(), 4);
    assert(bytes::field(buf, 0, 4) =~= magic());
    assert(bytes::field(buf, 4, 4) =~= bytes::to_le(1, 4));
    assert(bytes::field(buf, 8, 4) =~= bytes::to_le(cs.len(), 4));
    lemma_caps_at(head, cs);
}

proof fn lemma_caps_are_whole(buf: Seq<u8>, off: int, n: nat)
    requires
        off >= 0,
    ensures
        caps_at(buf, off, n) matches Some(s) ==> s.len() == n && forall|i: int|
            0 <= i < s.len() ==> whole(#[trigger] s[i]),
    decreases n,
{
    if n > 0 {
        if let Some((c, next)) = cap_at(buf, off) {
            assert(next >= off);
            lemma_caps_are_whole(buf, next, (n - 1) as nat);
            if let Some(rest) = caps_at(buf, next, (n - 1) as nat) {
                let s = seq![c] + rest;
                assert(whole(c)) by {
                    let w = bytes::num(buf, off + 8, 4);
                    let h = bytes::num(buf, off + 12, 4);
                    let len = bytes::num(buf, off + 16, 8);
                    assert(c.w as int == w && c.h as int == h);
                    assert(c.px.len() == len);
                }
                assert forall|i: int| 0 <= i < s.len() implies whole(#[trigger] s[i]) by {
                    if i > 0 {
                        assert(s[i] == rest[i - 1]);
                    }
                }
            }
        }
    }
}

/// Every snapshot that is read is whole.
pub proof fn law_read_snapshots_are_whole(buf: Seq<u8>, i: int)
    requires
        decoded(buf) matches Some(s) && 0 <= i < s.len(),
    ensures
        whole(decoded(buf)->0[i]),
{
    lemma_caps_are_whole(buf, 12, bytes::num(buf, 8, 4) as nat);
}

// ---------------------------------------------------------------- what counts, and the file

/// Two pixels differ where red, green or blue differ by more than eight; what covers them does
/// not count.
pub proof fn law_pixels_differ_by_more_than_eight(a: Seq<u8>, k: int, b: Seq<u8>, m: int)
    ensures
        pixel_differs(a, k, b, m) <==> exists|c: int|
            0 <= c < 3 && (#[trigger] a[4 * k + c] > b[4 * m + c] + 8 || b[4 * m + c] > a[4 * k + c]
                + 8),
{
    if pixel_differs(a, k, b, m) {
        if apart(a[4 * k], b[4 * m]) > 8 {
            assert(a[4 * k + 0] > b[4 * m + 0] + 8 || b[4 * m + 0] > a[4 * k + 0] + 8);
        } else if apart(a[4 * k + 1], b[4 * m + 1]) > 8 {
            assert(a[4 * k + 1] > b[4 * m + 1] + 8 || b[4 * m + 1] > a[4 * k + 1] + 8);
        } else {
            assert(a[4 * k + 2] > b[4 * m + 2] + 8 || b[4 * m + 2] > a[4 * k + 2] + 8);
        }
    }
    if exists|c: int|
        0 <= c < 3 && (#[trigger] a[4 * k + c] > b[4 * m + c] + 8 || b[4 * m + c] > a[4 * k + c]
            + 8) {
        let c = choose|c: int|
            0 <= c < 3 && (#[trigger] a[4 * k + c] > b[4 * m + c] + 8 || b[4 * m + c] > a[4 * k + c]
                + 8);
        assert(c == 0 || c == 1 || c == 2);
    }
}

/// The wallpaper has changed where a pixel that a fence covers differs, wherever the screen
/// with it begins.
pub proof fn law_change_under_a_fence_counts(
    was: Seq<CapView>,
    now: Seq<CapView>,
    fences: Seq<Area>,
    i: int,
    j: int,
    x: int,
    y: int,
)
    requires
        0 <= i < was.len(),
        0 <= j < fences.len(),
        0 <= x < was[i].w,
        0 <= y < was[i].h,
        fences[j].x <= was[i].origin_x + x < fences[j].x + fences[j].w,
        fences[j].y <= was[i].origin_y + y < fences[j].y + fences[j].h,
        pixel_differs(was[i].px, y * was[i].w + x, now[i].px, y * was[i].w + x),
    ensures
        changed(was, now, fences),
{
    assert(under(was[i], fences[j], x, y));
    assert(changed_under(was[i], now[i], fences[j]));
}

/// The wallpaper has changed where the screens have: their number, size or place. Without a
/// fence every pixel counts.
pub proof fn law_change_of_the_screens_counts(
    was: Seq<CapView>,
    now: Seq<CapView>,
    fences: Seq<Area>,
    i: int,
)
    ensures
        was.len() != now.len() ==> changed(was, now, fences),
        0 <= i < was.len() && (was[i].w, was[i].h, was[i].origin_x, was[i].origin_y) != (
            now[i].w,
            now[i].h,
            now[i].origin_x,
            now[i].origin_y,
        ) ==> changed(was, now, fences),
        0 <= i < was.len() && fences.len() == 0 && (was[i].px.len() != now[i].px.len() || exists|
            k: int,
        |
            0 <= k < was[i].px.len() / 4 && #[trigger] pixel_differs(was[i].px, k, now[i].px, k))
            ==> changed(was, now, fences),
{
    if 0 <= i < was.len() {
        assert(was[i].w == was[i].w);
        if fences.len() == 0 && (was[i].px.len() != now[i].px.len() || exists|k: int|
            0 <= k < was[i].px.len() / 4 && #[trigger] pixel_differs(was[i].px, k, now[i].px, k)) {
            assert(pixels_differ(was[i].px, now[i].px));
        }
        if (was[i].w, was[i].h, was[i].origin_x, was[i].origin_y) != (
            now[i].w,
            now[i].h,
            now[i].origin_x,
            now[i].origin_y,
        ) {
            assert(!same_frame(was[i], now[i]));
        }
    }
}

/// A wallpaper is unchanged where the screens are the same and no pixel that a fence covers
/// differs.
pub proof fn law_unchanged_wallpaper(was: Seq<CapView>, now: Seq<CapView>, fences: Seq<Area>)
    requires
        was.len() == now.len(),
        fences.len() > 0,
        forall|i: int|
            0 <= i < was.len() ==> (#[trigger] was[i]).w == now[i].w && was[i].h == now[i].h
                && was[i].origin_x == now[i].origin_x && was[i].origin_y == now[i].origin_y,
        forall|i: int, j: int, x: int, y: int|
            0 <= i < was.len() && 0 <= j < fences.len() && 0 <= x < was[i].w && 0 <= y < was[i].h && (
            #[trigger] fences[j]).x <= was[i].origin_x + x < fences[j].x + fences[j].w
                && fences[j].y <= was[i].origin_y + y < fences[j].y + fences[j].h
                ==> !#[trigger] pixel_differs(
                was[i].px,
                y * was[i].w + x,
                now[i].px,
                y * was[i].w + x,
            ),
    ensures
        !changed(was, now, fences),
{
    assert forall|i: int, j: int| 0 <= i < was.len() && 0 <= j < fences.len() implies !changed_under(
        #[trigger] was[i],
        now[i],
        #[trigger] fences[j],
    ) by {
        if changed_under(was[i], now[i], fences[j]) {
            let (x, y) = choose|x: int, y: int|
                under(was[i], fences[j], x, y) && #[trigger] pixel_differs(
                    was[i].px,
                    y * was[i].w + x,
                    now[i].px,
                    y * was[i].w + x,
                );
            assert(!pixel_differs(was[i].px, y * was[i].w + x, now[i].px, y * was[i].w + x));
        }
    }
    assert forall|i: int| 0 <= i < was.len() implies same_frame(#[trigger] was[i], now[i]) by {
        assert(was[i].w == now[i].w);
    }
}

/// A picture of a screen is whole where it has from 1 to 16384 pixels each way and four bytes
/// to each of them.
pub proof fn law_whole_pictures(c: CapView)
    ensures
        whole(c) <==> 1 <= c.w <= 16384 && 1 <= c.h <= 16384 && c.px.len() == 4 * (c.w * c.h),
{
}

/// The file holds its mark, the version and the number of pictures, and each picture as the
/// place where its screen begins, its size, the length of its pixels and the pixels.
pub proof fn law_wallpaper_file_is_laid_out(cs: Seq<CapView>, c: CapView)
    requires
        cs.len() <= u32::MAX,
        whole(c),
    ensures
        ({
            let f = encoded(cs);
            &&& f[0] == 'D' as int && f[1] == 'F' as int && f[2] == 'W' as int && f[3] == 'P' as int
            &&& bytes::num(f, 4, 4) == 1
            &&& bytes::num(f, 8, 4) == cs.len()
            &&& f.skip(12) == caps_bytes(cs)
        }),
        ({
            let b = cap_bytes(c);
            &&& bytes::num(b, 0, 4) == (c.origin_x + 0x1_0000_0000) % 0x1_0000_0000
            &&& bytes::num(b, 4, 4) == (c.origin_y + 0x1_0000_0000) % 0x1_0000_0000
            &&& bytes::num(b, 8, 4) == c.w
            &&& bytes::num(b, 12, 4) == c.h
            &&& bytes::num(b, 16, 8) == c.px.len()
            &&& b.skip(24) == c.px
            &&& caps_bytes(seq![c] + cs) == b + caps_bytes(cs)
        }),
{
    bytes::lemma_ranges();
    let f = encoded(cs);
    bytes::lemma_le_round_trip(1, 4);
    bytes::lemma_le_round_trip(cs.len(), 4);
    assert(bytes::field(f, 4, 4) =~= bytes::to_le(1, 4));
    assert(bytes::field(f, 8, 4) =~= bytes::to_le(cs.len(), 4));
    assert(f.skip(12) =~= caps_bytes(cs));
    let b = cap_bytes(c);
    assert(c.w * c.h <= 16384 * 16384) by (nonlinear_arith)
        requires
            1 <= c.w <= 16384,
            1 <= c.h <= 16384,
    ;
    bytes::lemma_le_round_trip(unsigned(c.origin_x), 4);
    bytes::lemma_le_round_trip(unsigned(c.origin_y), 4);
    bytes::lemma_le_round_trip(c.w as nat, 4);
    bytes::lemma_le_round_trip(c.h as nat, 4);
    bytes::lemma_le_round_trip(c.px.len(), 8);
    assert(bytes::field(b, 0, 4) =~= bytes::to_le(unsigned(c.origin_x), 4));
    assert(bytes::field(b, 4, 4) =~= bytes::to_le(unsigned(c.origin_y), 4));
    assert(bytes::field(b, 8, 4) =~= bytes::to_le(c.w as nat, 4));
    assert(bytes::field(b, 12, 4) =~= bytes::to_le(c.h as nat, 4));
    assert(bytes::field(b, 16, 8) =~= bytes::to_le(c.px.len(), 8));
    assert(b.skip(24) =~= c.px);
    assert((seq![c] + cs).drop_first() =~= cs);
}

/// A file is read where it has its mark, is of version 1, and holds at least one picture; one
/// picture that is cut off or of a wrong size makes it unreadable.
pub proof fn law_wallpaper_file_is_known_by_its_head(buf: Seq<u8>)
    ensures
        buf.len() < 12 ==> decoded(buf) is None,
        buf.len() >= 12 && !(buf[0] == 'D' as int && buf[1] == 'F' as int && buf[2] == 'W' as int
            && buf[3] == 'P' as int) ==> decoded(buf) is None,
        buf.len() >= 12 && bytes::num(buf, 4, 4) != 1 ==> decoded(buf) is None,
        buf.len() >= 12 && bytes::num(buf, 8, 4) == 0 ==> decoded(buf) is None,
        decoded(buf) matches Some(s) ==> s.len() == bytes::num(buf, 8, 4),
{
    if buf.len() >= 12 {
        let f = bytes::field(buf, 0, 4);
        assert(f[0] == buf[0] && f[1] == buf[1] && f[2] == buf[2] && f[3] == buf[3]);
        lemma_pictures_counted(buf, 12, bytes::num(buf, 8, 4) as nat);
    }
}

proof fn lemma_pictures_counted(buf: Seq<u8>, off: int, n: nat)
    ensures
        caps_at(buf, off, n) matches Some(s) ==> s.len() == n,
    decreases n,
{
    if n > 0 {
        if let Some((c, next)) = cap_at(buf, off) {
            lemma_pictures_counted(buf, next, (n - 1) as nat);
        }
    }
}

/// A pixel is black where red, green and blue are 0 and nothing shines through.
pub proof fn law_black_pixels(px: Seq<u8>, k: int)
    ensures
        black_pixel(px, k) <==> (forall|c: int| 0 <= c < 3 ==> #[trigger] px[4 * k + c] == 0)
            && px[4 * k + 3] == 255,
{
    if forall|c: int| 0 <= c < 3 ==> #[trigger] px[4 * k + c] == 0 {
        assert(px[4 * k + 0] == 0 && px[4 * k + 1] == 0 && px[4 * k + 2] == 0);
    }
}

/// Two runs of pixels are alike where they are of one length and no byte of a colour is more
/// than eight apart; every fourth byte, which is no colour, does not count.
pub proof fn law_alike_pixels_are_within_eight(a: Seq<u8>, b: Seq<u8>)
    ensures
        !pixels_differ(a, b) <==> a.len() == b.len() && forall|k: int, c: int|
            0 <= k < a.len() / 4 && 0 <= c < 3 ==> -8 <= #[trigger] a[4 * k + c] - b[4 * k + c]
                <= 8,
{
    if !pixels_differ(a, b) {
        assert forall|k: int, c: int| 0 <= k < a.len() / 4 && 0 <= c < 3 implies -8
            <= #[trigger] a[4 * k + c] - b[4 * k + c] <= 8 by {
            assert(!pixel_differs(a, k, b, k));
            assert(c == 0 || c == 1 || c == 2);
        }
    }
    if a.len() == b.len() && forall|k: int, c: int|
        0 <= k < a.len() / 4 && 0 <= c < 3 ==> -8 <= #[trigger] a[4 * k + c] - b[4 * k + c] <= 8 {
        assert forall|k: int| 0 <= k < a.len() / 4 implies !#[trigger] pixel_differs(a, k, b, k) by {
            assert(-8 <= a[4 * k + 0] - b[4 * k + 0] <= 8);
            assert(-8 <= a[4 * k + 1] - b[4 * k + 1] <= 8);
            assert(-8 <= a[4 * k + 2] - b[4 * k + 2] <= 8);
        }
    }
}

} // verus!

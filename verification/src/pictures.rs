//! Pictures of icons and windows: how they are found, checked and written to a file.
use crate::bytes;
use crate::text;
use vstd::prelude::*;

verus! {

// ---------------------------------------------------------------- files

/// The height of a picture whose first row is the top one, as a file of four bytes
/// writes it: a negative number.
pub open spec fn upright(h: nat) -> nat {
    ((0x1_0000_0000 - h) % 0x1_0000_0000) as nat
}

/// What stands before the pixels of a picture of `w` by `h` pixels in a bitmap file:
/// four bytes to a pixel, nothing compressed, 72 dots to an inch.
pub open spec fn bmp_head(w: nat, h: nat) -> Seq<u8> {
    seq![0x42u8, 0x4du8] + bytes::to_le(54 + w * h * 4, 4) + bytes::to_le(0, 4) + bytes::to_le(
        54,
        4,
    ) + bytes::to_le(40, 4) + bytes::to_le(w, 4) + bytes::to_le(upright(h), 4) + bytes::to_le(
        1,
        2,
    ) + bytes::to_le(32, 2) + bytes::to_le(0, 4) + bytes::to_le(w * h * 4, 4) + bytes::to_le(
        2835,
        4,
    ) + bytes::to_le(2835, 4) + bytes::to_le(0, 4) + bytes::to_le(0, 4)
}

/// The bitmap file of a picture of `w` by `h` pixels, from the top row down.
pub fn bmp_file(bgra: &[u8], w: u32, h: u32) -> (r: Vec<u8>)
    requires
        w * h * 4 + 54 <= u32::MAX,
        h != 0x8000_0000,
    ensures
        r@ == bmp_head(w as nat, h as nat) + bgra@,
{
    let data: u64 = w as u64 * h as u64 * 4;
    let top: u64 = if h == 0 {
        0
    } else {
        0x1_0000_0000 - h as u64
    };
    assert(top == upright(h as nat));
    let mut out: Vec<u8> = Vec::new();
    out.push(0x42);
    out.push(0x4d);
    assert(out@ =~= seq![0x42u8, 0x4du8]);
    bytes::put_num(&mut out, 54 + data, 4);
    bytes::put_num(&mut out, 0, 4);
    bytes::put_num(&mut out, 54, 4);
    bytes::put_num(&mut out, 40, 4);
    bytes::put_num(&mut out, w as u64, 4);
    bytes::put_num(&mut out, top, 4);
    bytes::put_num(&mut out, 1, 2);
    bytes::put_num(&mut out, 32, 2);
    bytes::put_num(&mut out, 0, 4);
    bytes::put_num(&mut out, data, 4);
    bytes::put_num(&mut out, 2835, 4);
    bytes::put_num(&mut out, 2835, 4);
    bytes::put_num(&mut out, 0, 4);
    bytes::put_num(&mut out, 0, 4);
    bytes::put_bytes(&mut out, bgra);
    out
}

/// A bitmap file tells its own length, where its pixels begin, and the size of the
/// picture.
pub proof fn law_file_tells_its_measures(w: nat, h: nat, bgra: Seq<u8>)
    requires
        w * h * 4 + 54 <= u32::MAX,
        w <= u32::MAX,
        bgra.len() == w * h * 4,
    ensures
        ({
            let f = bmp_head(w, h) + bgra;
            &&& bytes::num(f, 2, 4) == f.len()
            &&& f.skip(bytes::num(f, 10, 4)) == bgra
            &&& bytes::num(f, 18, 4) == w
            &&& bytes::num(f, 22, 4) == upright(h)
        }),
{
    let f = bmp_head(w, h) + bgra;
    let data = w * h * 4;
    bytes::lemma_ranges();
    bytes::lemma_le_round_trip(54 + data, 4);
    bytes::lemma_le_round_trip(0, 4);
    bytes::lemma_le_round_trip(54, 4);
    bytes::lemma_le_round_trip(40, 4);
    bytes::lemma_le_round_trip(w, 4);
    bytes::lemma_le_round_trip(upright(h), 4);
    bytes::lemma_le_round_trip(1, 2);
    bytes::lemma_le_round_trip(32, 2);
    bytes::lemma_le_round_trip(data, 4);
    bytes::lemma_le_round_trip(2835, 4);
    assert(bmp_head(w, h).len() == 54);
    assert(bytes::field(f, 2, 4) =~= bytes::to_le(54 + data, 4));
    assert(bytes::field(f, 10, 4) =~= bytes::to_le(54, 4));
    assert(bytes::field(f, 18, 4) =~= bytes::to_le(w, 4));
    assert(bytes::field(f, 22, 4) =~= bytes::to_le(upright(h), 4));
    assert(f.skip(54) =~= bgra);
}

// ---------------------------------------------------------------- the shell's images

/// An image of the shell's lists: its place there, the mark that lies over it, and
/// the flags with which it is drawn.
#[derive(Clone, Copy, PartialEq, Eq, Structural)]
pub struct ShellImage {
    pub index: i32,
    pub overlay: u32,
    pub draw_flags: u32,
}

/// The image that the shell packs into one number: the lower three bytes are its
/// place, the fourth one is its mark. None for a negative number.
pub fn shell_image(packed: i32) -> (r: Option<ShellImage>)
    ensures
        r == (if packed < 0 {
            None
        } else {
            Some(
                ShellImage {
                    index: (packed % 0x100_0000) as i32,
                    overlay: (packed / 0x100_0000) as u32,
                    draw_flags: (1 + packed / 0x100_0000 * 0x100) as u32,
                },
            )
        }),
{
    if packed < 0 {
        return None;
    }
    let raw: u32 = packed as u32;
    let overlay: u32 = raw / 0x100_0000;
    Some(
        ShellImage {
            index: (raw % 0x100_0000) as i32,
            overlay,
            draw_flags: 1 + overlay * 0x100,
        },
    )
}

// ---------------------------------------------------------------- captured windows

/// The most pixels of a captured window, across and down.
pub const CAPTURE_LIMIT: u32 = 16384;

/// The pixels from `a` to `b`, one at least.
pub open spec fn extent(a: int, b: int) -> int {
    if b - a < 1 {
        1
    } else {
        b - a
    }
}

/// What is said of a window that is too large.
pub open spec fn bad_rect(w: int, h: int) -> Seq<char> {
    "bad rect "@ + text::decimal(w as nat) + "x"@ + text::decimal(h as nat)
}

/// The size in which a window is captured, from its sides on the screen.
pub fn capture_size(left: i32, top: i32, right: i32, bottom: i32) -> (r: Result<
    (u32, u32),
    String,
>)
    requires
        i32::MIN <= right - left <= i32::MAX,
        i32::MIN <= bottom - top <= i32::MAX,
    ensures
        ({
            let (w, h) = (extent(left as int, right as int), extent(top as int, bottom as int));
            match r {
                Ok(size) => size.0 == w && size.1 == h && w <= CAPTURE_LIMIT && h <= CAPTURE_LIMIT,
                Err(said) => said@ == bad_rect(w, h) && (w > CAPTURE_LIMIT || h > CAPTURE_LIMIT),
            }
        }),
{
    let (dx, dy): (i32, i32) = (right - left, bottom - top);
    let w: u32 = if dx < 1 {
        1
    } else {
        dx as u32
    };
    let h: u32 = if dy < 1 {
        1
    } else {
        dy as u32
    };
    if w > CAPTURE_LIMIT || h > CAPTURE_LIMIT {
        let head = text::join2("bad rect ", text::decimal_string(w as u64).as_str());
        let middle = text::join2(head.as_str(), "x");
        return Err(text::join2(middle.as_str(), text::decimal_string(h as u64).as_str()));
    }
    Ok((w, h))
}

/// Pixels that nothing shines through: the fourth byte of each is full.
pub open spec fn opaque(px: Seq<u8>) -> Seq<u8> {
    Seq::new(
        px.len(),
        |i: int|
            if i % 4 == 3 {
                255u8
            } else {
                px[i]
            },
    )
}

/// The pixels of a captured window, with nothing shining through, or what is said of
/// the system's error `code`.
pub fn captured_pixels(got: Result<Vec<u8>, u32>) -> (r: Result<Vec<u8>, String>)
    ensures
        match got {
            Ok(px) => r is Ok && r->Ok_0@ == opaque(px@),
            Err(code) => r is Err && r->Err_0@ == "PrintWindow false err="@ + text::decimal(
                code as nat,
            ),
        },
{
    match got {
        Err(code) => Err(
            text::join2("PrintWindow false err=", text::decimal_string(code as u64).as_str()),
        ),
        Ok(px) => {
            let ghost was = px@;
            let mut px = px;
            let mut i: usize = 0;
            while i < px.len()
                invariant
                    px@.len() == was.len(),
                    i <= px@.len(),
                    forall|k: int|
                        0 <= k < px@.len() ==> #[trigger] px@[k] == (if k < i {
                            opaque(was)[k]
                        } else {
                            was[k]
                        }),
                decreases px.len() - i,
            {
                if i % 4 == 3 {
                    px[i] = 255;
                }
                i = i + 1;
            }
            assert(px@ =~= opaque(was));
            Ok(px)
        },
    }
}

/// A picture file begins with its mark and a head of 54 bytes that says: the rows go from top
/// to bottom, one plane of 32 bits to a pixel, not packed, so many bytes of pixels, and 2835
/// pixels to a metre both ways.
pub proof fn law_picture_head_tells_the_format(w: nat, h: nat)
    requires
        w * h * 4 + 54 <= u32::MAX,
        0 < h <= u32::MAX,
    ensures
        ({
            let f = bmp_head(w, h);
            &&& f.len() == 54
            &&& f[0] == 'B' as int && f[1] == 'M' as int
            &&& bytes::num(f, 6, 4) == 0
            &&& bytes::num(f, 14, 4) == 40
            &&& upright(h) + h == 0x1_0000_0000
            &&& bytes::num(f, 26, 2) == 1
            &&& bytes::num(f, 28, 2) == 32
            &&& bytes::num(f, 30, 4) == 0
            &&& bytes::num(f, 34, 4) == w * h * 4
            &&& bytes::num(f, 38, 4) == 2835
            &&& bytes::num(f, 42, 4) == 2835
            &&& bytes::num(f, 46, 4) == 0
            &&& bytes::num(f, 50, 4) == 0
        }),
{
    let f = bmp_head(w, h);
    let data = w * h * 4;
    bytes::lemma_ranges();
    bytes::lemma_le_round_trip(54 + data, 4);
    bytes::lemma_le_round_trip(0, 4);
    bytes::lemma_le_round_trip(54, 4);
    bytes::lemma_le_round_trip(40, 4);
    lemma_width_fits(w, h);
    bytes::lemma_le_round_trip(w, 4);
    bytes::lemma_le_round_trip(upright(h), 4);
    bytes::lemma_le_round_trip(1, 2);
    bytes::lemma_le_round_trip(32, 2);
    bytes::lemma_le_round_trip(data, 4);
    bytes::lemma_le_round_trip(2835, 4);
    assert(f.len() == 54);
    assert(bytes::field(f, 6, 4) =~= bytes::to_le(0, 4));
    assert(bytes::field(f, 14, 4) =~= bytes::to_le(40, 4));
    assert(bytes::field(f, 26, 2) =~= bytes::to_le(1, 2));
    assert(bytes::field(f, 28, 2) =~= bytes::to_le(32, 2));
    assert(bytes::field(f, 30, 4) =~= bytes::to_le(0, 4));
    assert(bytes::field(f, 34, 4) =~= bytes::to_le(data, 4));
    assert(bytes::field(f, 38, 4) =~= bytes::to_le(2835, 4));
    assert(bytes::field(f, 42, 4) =~= bytes::to_le(2835, 4));
    assert(bytes::field(f, 46, 4) =~= bytes::to_le(0, 4));
    assert(bytes::field(f, 50, 4) =~= bytes::to_le(0, 4));
}

proof fn lemma_width_fits(w: nat, h: nat)
    requires
        w * h * 4 + 54 <= u32::MAX,
        0 < h,
    ensures
        w <= u32::MAX,
{
    assert(w <= w * h) by (nonlinear_arith)
        requires
            h >= 1,
            w >= 0,
    ;
}

/// Pixels are made opaque: of each four bytes the last is 255, and the others stay.
pub proof fn law_pixels_are_made_opaque(px: Seq<u8>, i: int)
    requires
        0 <= i < px.len(),
    ensures
        opaque(px).len() == px.len(),
        i % 4 == 3 ==> opaque(px)[i] == 255,
        i % 4 != 3 ==> opaque(px)[i] == px[i],
{
}

/// The extent from one side to the other is one pixel at least.
pub proof fn law_extents_are_not_empty(a: int, b: int)
    ensures
        b > a ==> extent(a, b) == b - a,
        b <= a ==> extent(a, b) == 1,
{
}

/// A picture that cannot be taken is told by its width and height, and one may be 16384
/// pixels wide and high.
pub proof fn law_bad_pictures_are_told(w: int, h: int)
    ensures
        bad_rect(w, h) == "bad rect "@ + text::decimal(w as nat) + "x"@ + text::decimal(h as nat),
        CAPTURE_LIMIT == 16384,
{
}

} // verus!

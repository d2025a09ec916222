//! The icon cache file: icon pixels by `{path}\0{px}` and display names by path.
//!
//! Layout, all numbers little-endian: `DFIC`, u32 version, u32 px, u32 count, then
//! per icon {u16 key length, key, u64 mtime, u32 data length, data}; then `DFNM`,
//! u32 count, and per name {u16 path length, path, u16 name length, name}.
//!
//! A head that does not fit voids the file. An entry that does not conform is passed
//! over alone; reading ends at an entry that does not lie whole in the file.
use crate::bytes;
use crate::text;
use crate::text_map::TextMap;
use vstd::prelude::*;
use vstd::slice::slice_subrange;
use vstd::utf8::*;

verus! {

/// The most bytes that the pixels of one icon may take: 256 x 256 of 4 bytes.
pub const ICON_ENTRY_MAX_BYTES: usize = 262144;

/// The most entries that are read of either section.
pub const MAX_ENTRIES: usize = 8192;

// ---------------------------------------------------------------- the format

/// One icon of the file.
pub struct RawIcon {
    pub key: Seq<char>,
    pub mtime: nat,
    pub data: Seq<u8>,
}

/// One display name of the file.
pub struct RawName {
    pub path: Seq<char>,
    pub display: Seq<char>,
}

/// What stands at an offset: an entry and the offset behind it, an entry whose texts
/// have lengths that no entry may have, with the offset behind it, or nothing whole,
/// with the offset at which reading stopped.
pub enum Step<E> {
    Entry(E, int),
    Skip(int),
    Stop(int),
}

/// The most bytes of the key of an icon, and of the path of a name.
pub const KEY_LIMIT: usize = 1024;

/// The most bytes of a display name.
pub const NAME_LIMIT: usize = 512;

/// The icon entry at `off`.
pub open spec fn icon_step(buf: Seq<u8>, off: int) -> Step<RawIcon> {
    if off + 2 > buf.len() {
        Step::Stop(off)
    } else {
        let klen = bytes::num(buf, off, 2);
        let k = off + 2;
        if k + klen + 12 > buf.len() {
            Step::Stop(k)
        } else {
            let m = k + klen;
            let blen = bytes::num(buf, m + 8, 4);
            let d = m + 12;
            if d + blen > buf.len() {
                Step::Stop(d)
            } else if klen == 0 || klen > KEY_LIMIT {
                Step::Skip(d + blen)
            } else {
                Step::Entry(
                    RawIcon {
                        key: text::utf8_text(bytes::field(buf, k, klen)),
                        mtime: bytes::num(buf, m, 8) as nat,
                        data: bytes::field(buf, d, blen),
                    },
                    d + blen,
                )
            }
        }
    }
}

/// The icons among up to `n` entries from `off` on, and the offset behind them.
pub open spec fn icon_run(buf: Seq<u8>, off: int, n: nat) -> (Seq<RawIcon>, int)
    decreases n,
{
    if n == 0 {
        (Seq::empty(), off)
    } else {
        match icon_step(buf, off) {
            Step::Stop(at) => (Seq::empty(), at),
            Step::Skip(next) => icon_run(buf, next, (n - 1) as nat),
            Step::Entry(e, next) => {
                let rest = icon_run(buf, next, (n - 1) as nat);
                (seq![e] + rest.0, rest.1)
            },
        }
    }
}

/// The name entry at `off`.
pub open spec fn name_step(buf: Seq<u8>, off: int) -> Step<RawName> {
    if off + 2 > buf.len() {
        Step::Stop(off)
    } else {
        let plen = bytes::num(buf, off, 2);
        let p = off + 2;
        if p + plen + 2 > buf.len() {
            Step::Stop(p)
        } else {
            let dlen = bytes::num(buf, p + plen, 2);
            let d = p + plen + 2;
            if d + dlen > buf.len() {
                Step::Stop(d)
            } else if plen == 0 || plen > KEY_LIMIT || dlen > NAME_LIMIT {
                Step::Skip(d + dlen)
            } else {
                Step::Entry(
                    RawName {
                        path: text::utf8_text(bytes::field(buf, p, plen)),
                        display: text::utf8_text(bytes::field(buf, d, dlen)),
                    },
                    d + dlen,
                )
            }
        }
    }
}

/// The names among up to `n` entries from `off` on.
pub open spec fn name_run(buf: Seq<u8>, off: int, n: nat) -> Seq<RawName>
    decreases n,
{
    if n == 0 {
        Seq::empty()
    } else {
        match name_step(buf, off) {
            Step::Stop(at) => Seq::empty(),
            Step::Skip(next) => name_run(buf, next, (n - 1) as nat),
            Step::Entry(e, next) => seq![e] + name_run(buf, next, (n - 1) as nat),
        }
    }
}

/// The suffix that the key of an icon of `px` pixels carries.
pub open spec fn px_suffix(px: nat) -> Seq<char> {
    seq!['\0'] + text::decimal(px)
}

/// An icon is taken where it has the pixels of its size, its key names that size,
/// and its file is known with the same, non-zero, modification time.
pub open spec fn icon_accepted(e: RawIcon, px: nat, mtimes: Map<Seq<char>, u64>) -> bool {
    &&& e.data.len() == px * px * 4
    &&& text::ends_in(e.key, px_suffix(px))
    &&& mtimes.contains_key(text::before(e.key, '\0'))
    &&& mtimes[text::before(e.key, '\0')] == e.mtime
    &&& e.mtime != 0
}

/// The accepted icons by key; of two with one key the later.
pub open spec fn icons_of(es: Seq<RawIcon>, px: nat, mtimes: Map<Seq<char>, u64>) -> Map<
    Seq<char>,
    Seq<u8>,
>
    decreases es.len(),
{
    if es.len() == 0 {
        Map::empty()
    } else {
        let m = icons_of(es.drop_last(), px, mtimes);
        let e = es.last();
        if icon_accepted(e, px, mtimes) {
            m.insert(e.key, e.data)
        } else {
            m
        }
    }
}

/// The display names by path; of two with one path the later, and none that is
/// empty on either side.
pub open spec fn names_of(es: Seq<RawName>) -> Map<Seq<char>, Seq<char>>
    decreases es.len(),
{
    if es.len() == 0 {
        Map::empty()
    } else {
        let m = names_of(es.drop_last());
        let e = es.last();
        if e.path.len() > 0 && e.display.len() > 0 {
            m.insert(e.path, e.display)
        } else {
            m
        }
    }
}

/// `DFIC`.
pub open spec fn icon_magic() -> Seq<u8> {
    seq![0x44u8, 0x46u8, 0x49u8, 0x43u8]
}

/// `DFNM`.
pub open spec fn name_magic() -> Seq<u8> {
    seq![0x44u8, 0x46u8, 0x4eu8, 0x4du8]
}

/// The file starts as an icon cache of version 1 with a sensible icon size.
pub open spec fn header_ok(buf: Seq<u8>) -> bool {
    &&& buf.len() >= 12
    &&& bytes::field(buf, 0, 4) == icon_magic()
    &&& bytes::num(buf, 4, 4) == 1
    &&& 16 <= bytes::num(buf, 8, 4) <= 256
}

/// The lesser of two numbers.
pub open spec fn least(a: int, b: int) -> int {
    if a < b {
        a
    } else {
        b
    }
}

/// The icon section: its entries and the offset behind it.
pub open spec fn icon_section(buf: Seq<u8>) -> (Seq<RawIcon>, int) {
    if buf.len() < 16 {
        (Seq::empty(), 16)
    } else {
        icon_run(buf, 16, least(bytes::num(buf, 12, 4), MAX_ENTRIES as int) as nat)
    }
}

/// The name section, which may be missing, behind the icon section.
pub open spec fn name_section(buf: Seq<u8>, off: int) -> Seq<RawName> {
    if off + 8 <= buf.len() && bytes::field(buf, off, 4) == name_magic() {
        name_run(buf, off + 8, least(bytes::num(buf, off + 4, 4), MAX_ENTRIES as int) as nat)
    } else {
        Seq::empty()
    }
}

/// The icons that the file holds for the files of `mtimes`.
pub open spec fn decoded_icons(buf: Seq<u8>, mtimes: Map<Seq<char>, u64>) -> Map<
    Seq<char>,
    Seq<u8>,
> {
    if header_ok(buf) {
        icons_of(icon_section(buf).0, bytes::num(buf, 8, 4) as nat, mtimes)
    } else {
        Map::empty()
    }
}

/// The display names that the file holds.
pub open spec fn decoded_names(buf: Seq<u8>) -> Map<Seq<char>, Seq<char>> {
    if header_ok(buf) {
        names_of(name_section(buf, icon_section(buf).1))
    } else {
        Map::empty()
    }
}

/// A map of byte vectors by their contents.
pub open spec fn byte_values(m: Map<Seq<char>, Vec<u8>>) -> Map<Seq<char>, Seq<u8>> {
    m.map_values(|v: Vec<u8>| v@)
}

/// A map of strings by their contents.
pub open spec fn text_values(m: Map<Seq<char>, String>) -> Map<Seq<char>, Seq<char>> {
    m.map_values(|v: String| v@)
}

// ---------------------------------------------------------------- reading

/// What was read at an offset.
enum Read<T> {
    Entry(T),
    Skip,
    Stop,
}

fn read_icon(buf: &[u8], off: usize) -> (r: (Read<(String, u64, Vec<u8>)>, usize))
    requires
        off <= buf@.len(),
    ensures
        r.1 <= buf@.len(),
        match icon_step(buf@, off as int) {
            Step::Stop(at) => r.0 is Stop && r.1 == at,
            Step::Skip(next) => r.0 is Skip && r.1 == next,
            Step::Entry(e, next) => r.0 matches Read::Entry(t) && t.0@ == e.key && t.1 == e.mtime
                && t.2@ == e.data && r.1 == next,
        },
{
    let total: usize = buf.len();
    if total - off < 2 {
        return (Read::Stop, off);
    }
    let klen: usize = bytes::read_num(buf, off, 2) as usize;
    proof {
        bytes::lemma_ranges();
    }
    let k: usize = off + 2;
    if total - k < klen + 12 {
        return (Read::Stop, k);
    }
    let m: usize = k + klen;
    let mtime: u64 = bytes::read_num(buf, m, 8);
    let blen: u64 = bytes::read_num(buf, m + 8, 4);
    let d: usize = m + 12;
    if ((total - d) as u64) < blen {
        return (Read::Stop, d);
    }
    let next: usize = d + blen as usize;
    if klen == 0 || klen > KEY_LIMIT {
        return (Read::Skip, next);
    }
    let key = text::from_utf8_lossy(slice_subrange(buf, k, m));
    let data = bytes::copy_bytes(buf, d, blen as usize);
    (Read::Entry((key, mtime, data)), next)
}

fn read_name(buf: &[u8], off: usize) -> (r: (Read<(String, String)>, usize))
    requires
        off <= buf@.len(),
    ensures
        r.1 <= buf@.len(),
        match name_step(buf@, off as int) {
            Step::Stop(at) => r.0 is Stop,
            Step::Skip(next) => r.0 is Skip && r.1 == next,
            Step::Entry(e, next) => r.0 matches Read::Entry(t) && t.0@ == e.path && t.1@ == e.display
                && r.1 == next,
        },
{
    let total: usize = buf.len();
    if total - off < 2 {
        return (Read::Stop, off);
    }
    let plen: usize = bytes::read_num(buf, off, 2) as usize;
    proof {
        bytes::lemma_ranges();
    }
    let p: usize = off + 2;
    if total - p < plen + 2 {
        return (Read::Stop, p);
    }
    let q: usize = p + plen;
    let dlen: usize = bytes::read_num(buf, q, 2) as usize;
    let d: usize = q + 2;
    if total - d < dlen {
        return (Read::Stop, d);
    }
    if plen == 0 || plen > KEY_LIMIT || dlen > NAME_LIMIT {
        return (Read::Skip, d + dlen);
    }
    let path = text::from_utf8_lossy(slice_subrange(buf, p, q));
    let display = text::from_utf8_lossy(slice_subrange(buf, d, d + dlen));
    (Read::Entry((path, display)), d + dlen)
}

/// Whether an icon entry is to be taken.
fn accepts(key: &str, mtime: u64, len: usize, px: u64, mtimes: &TextMap<u64>) -> (r: bool)
    requires
        px <= 256,
        mtimes.wf(),
    ensures
        forall|data: Seq<u8>| #![trigger data.len()] data.len() == len ==> r == icon_accepted(
            RawIcon { key: key@, mtime: mtime as nat, data },
            px as nat,
            mtimes@,
        ),
{
    let chars = text::chars_of(key);
    let cut: usize = text::len_before(&chars, '\0');
    let path = text::string_of(&chars, 0, cut);
    let digits = text::decimal_string(px);
    let mut suffix: Vec<char> = Vec::new();
    suffix.push('\0');
    let tail = text::chars_of(digits.as_str());
    let mut i: usize = 0;
    while i < tail.len()
        invariant
            i <= tail.len(),
            suffix@ == seq!['\0'] + tail@.subrange(0, i as int),
        decreases tail.len() - i,
    {
        suffix.push(tail[i]);
        i = i + 1;
        assert(tail@.subrange(0, i as int) =~= tail@.subrange(0, i as int - 1).push(tail@[i - 1]));
    }
    assert(tail@.subrange(0, tail@.len() as int) =~= tail@);
    assert(suffix@ =~= px_suffix(px as nat));
    assert(px * px <= 65536) by (nonlinear_arith)
        requires
            px <= 256,
    ;
    let sized = len as u64 == px * px * 4;
    sized && text::ends_with(&chars, &suffix) && mtime != 0 && match mtimes.get(path.as_str()) {
        Some(t) => *t == mtime,
        None => false,
    }
}

/// Reads an icon cache file. `mtimes` holds the modification time of every file of
/// the present scan; an icon of another file, or of another time, is left out. An
/// entry that does not conform is passed over alone. A file that does not start as a
/// cache yields nothing at all.
pub fn decode_cache(buf: &[u8], mtimes: &TextMap<u64>) -> (r: (
    TextMap<Vec<u8>>,
    TextMap<String>,
))
    requires
        mtimes.wf(),
    ensures
        r.0.wf(),
        r.1.wf(),
        byte_values(r.0@) == decoded_icons(buf@, mtimes@),
        text_values(r.1@) == decoded_names(buf@),
{
    let mut icons: TextMap<Vec<u8>> = TextMap::new();
    let mut names: TextMap<String> = TextMap::new();
    assert(byte_values(icons@) =~= Map::empty());
    assert(text_values(names@) =~= Map::empty());
    let total: usize = buf.len();
    if total < 12 || !bytes::has_magic(buf, 0, 0x44, 0x46, 0x49, 0x43) {
        return (icons, names);
    }
    if bytes::read_num(buf, 4, 4) != 1 {
        return (icons, names);
    }
    let px: u64 = bytes::read_num(buf, 8, 4);
    if px < 16 || px > 256 {
        return (icons, names);
    }
    if total < 16 {
        assert(names_of(Seq::<RawName>::empty()) =~= Map::empty());
        return (icons, names);
    }
    let count: u64 = bytes::read_num(buf, 12, 4);
    let mut left: u64 = if count < 8192 { count } else { 8192 };
    let mut off: usize = 16;
    let mut open = true;
    let ghost all = icon_section(buf@);
    let ghost mut done: Seq<RawIcon> = Seq::empty();
    proof {
        assert(done + icon_run(buf@, 16, left as nat).0 =~= all.0);
    }
    while open && left > 0
        invariant
            off <= total == buf@.len(),
            16 <= px <= 256,
            mtimes.wf(),
            icons.wf(),
            open ==> all.0 == done + icon_run(buf@, off as int, left as nat).0,
            open ==> all.1 == icon_run(buf@, off as int, left as nat).1,
            !open ==> all == (done, off as int),
            byte_values(icons@) == icons_of(done, px as nat, mtimes@),
        decreases left, open as int,
    {
        let (entry, next) = read_icon(buf, off);
        match entry {
            Read::Stop => {
                open = false;
                proof {
                    assert(done + Seq::<RawIcon>::empty() =~= done);
                }
            },
            Read::Skip => {
                left = left - 1;
            },
            Read::Entry((key, mtime, data)) => {
                let ghost e = RawIcon { key: key@, mtime: mtime as nat, data: data@ };
                let take = accepts(key.as_str(), mtime, data.len(), px, mtimes);
                proof {
                    let rest = icon_run(buf@, next as int, (left - 1) as nat).0;
                    assert(done + (seq![e] + rest) =~= done.push(e) + rest);
                    assert(done.push(e).drop_last() =~= done);
                    assert(data@.len() == data.len());
                    assert(take == icon_accepted(e, px as nat, mtimes@));
                    done = done.push(e);
                }
                if take {
                    let ghost prev = icons@;
                    icons.insert(key, data);
                    assert(byte_values(icons@) =~= byte_values(prev).insert(e.key, e.data));
                }
                left = left - 1;
            },
        }
        off = next;
    }
    proof {
        if open {
            assert(done + Seq::<RawIcon>::empty() =~= done);
        }
        assert(all == (done, off as int));
    }
    let ghost listed = name_section(buf@, off as int);
    if total - off < 8 || !bytes::has_magic(buf, off, 0x44, 0x46, 0x4e, 0x4d) {
        assert(names_of(Seq::<RawName>::empty()) =~= Map::empty());
        return (icons, names);
    }
    let ncount: u64 = bytes::read_num(buf, off + 4, 4);
    let mut nleft: u64 = if ncount < 8192 { ncount } else { 8192 };
    off = off + 8;
    let mut nopen = true;
    let ghost mut ndone: Seq<RawName> = Seq::empty();
    proof {
        assert(ndone + name_run(buf@, off as int, nleft as nat) =~= listed);
        assert(names_of(ndone) =~= Map::empty());
    }
    while nopen && nleft > 0
        invariant
            off <= total == buf@.len(),
            names.wf(),
            nopen ==> listed == ndone + name_run(buf@, off as int, nleft as nat),
            !nopen ==> listed == ndone,
            text_values(names@) == names_of(ndone),
        decreases nleft, nopen as int,
    {
        let (entry, next) = read_name(buf, off);
        match entry {
            Read::Stop => {
                nopen = false;
                proof {
                    assert(ndone + Seq::<RawName>::empty() =~= ndone);
                }
            },
            Read::Skip => {
                nleft = nleft - 1;
            },
            Read::Entry((path, display)) => {
                let ghost e = RawName { path: path@, display: display@ };
                proof {
                    let rest = name_run(buf@, next as int, (nleft - 1) as nat);
                    assert(ndone + (seq![e] + rest) =~= ndone.push(e) + rest);
                    assert(ndone.push(e).drop_last() =~= ndone);
                    ndone = ndone.push(e);
                }
                if !path.as_str().is_empty() && !display.as_str().is_empty() {
                    let ghost prev = names@;
                    names.insert(path, display);
                    assert(text_values(names@) =~= text_values(prev).insert(e.path, e.display));
                }
                nleft = nleft - 1;
            },
        }
        off = next;
    }
    proof {
        if nopen {
            assert(ndone + Seq::<RawName>::empty() =~= ndone);
        }
    }
    (icons, names)
}

// ---------------------------------------------------------------- writing

/// An icon entry of the writer's input.
pub open spec fn raw_icon(e: (String, u64, Vec<u8>)) -> RawIcon {
    RawIcon { key: e.0@, mtime: e.1 as nat, data: e.2@ }
}

/// The icon entries of the writer's input.
pub open spec fn raw_icons(es: Seq<(String, u64, Vec<u8>)>) -> Seq<RawIcon> {
    Seq::new(es.len(), |i: int| raw_icon(es[i]))
}

/// A name entry of the writer's input.
pub open spec fn raw_name(e: (String, String)) -> RawName {
    RawName { path: e.0@, display: e.1@ }
}

/// The name entries of the writer's input.
pub open spec fn raw_names(es: Seq<(String, String)>) -> Seq<RawName> {
    Seq::new(es.len(), |i: int| raw_name(es[i]))
}

/// The bytes of one icon entry.
pub open spec fn icon_bytes(e: RawIcon) -> Seq<u8> {
    let key = encode_utf8(e.key);
    bytes::to_le(key.len(), 2) + key + bytes::to_le(e.mtime, 8) + bytes::to_le(e.data.len(), 4)
        + e.data
}

/// The bytes of a run of icon entries.
pub open spec fn icons_bytes(es: Seq<RawIcon>) -> Seq<u8>
    decreases es.len(),
{
    if es.len() == 0 {
        Seq::empty()
    } else {
        icon_bytes(es[0]) + icons_bytes(es.drop_first())
    }
}

/// The bytes of one name entry.
pub open spec fn name_bytes(e: RawName) -> Seq<u8> {
    let path = encode_utf8(e.path);
    let display = encode_utf8(e.display);
    bytes::to_le(path.len(), 2) + path + bytes::to_le(display.len(), 2) + display
}

/// The bytes of a run of name entries.
pub open spec fn names_bytes(es: Seq<RawName>) -> Seq<u8>
    decreases es.len(),
{
    if es.len() == 0 {
        Seq::empty()
    } else {
        name_bytes(es[0]) + names_bytes(es.drop_first())
    }
}

/// The head of the file, up to the first icon.
pub open spec fn head_bytes(count: nat, px: nat) -> Seq<u8> {
    icon_magic() + bytes::to_le(1, 4) + bytes::to_le(px, 4) + bytes::to_le(count, 4)
}

/// The name section.
pub open spec fn name_section_bytes(names: Seq<RawName>) -> Seq<u8> {
    name_magic() + bytes::to_le(names.len(), 4) + names_bytes(names)
}

/// The whole file.
pub open spec fn encoded(icons: Seq<RawIcon>, names: Seq<RawName>, px: nat) -> Seq<u8> {
    head_bytes(icons.len(), px) + icons_bytes(icons) + name_section_bytes(names)
}

/// Writes an icon cache file for icons of `px` pixels.
pub fn encode_cache(
    entries: &[(String, u64, Vec<u8>)],
    names: &[(String, String)],
    px: u32,
) -> (r: Vec<u8>)
    ensures
        r@ == encoded(raw_icons(entries@), raw_names(names@), px as nat),
{
    let mut out: Vec<u8> = Vec::new();
    out.push(0x44);
    out.push(0x46);
    out.push(0x49);
    out.push(0x43);
    assert(out@ =~= icon_magic());
    bytes::put_num(&mut out, 1, 4);
    bytes::put_num(&mut out, px as u64, 4);
    bytes::put_num(&mut out, entries.len() as u64, 4);
    let ghost icons = raw_icons(entries@);
    let ghost listed = raw_names(names@);
    let ghost head = out@;
    assert(head =~= head_bytes(icons.len(), px as nat));
    let mut i: usize = 0;
    proof {
        assert(icons.skip(0) =~= icons);
        assert(head + icons_bytes(icons) =~= out@ + icons_bytes(icons.skip(0)));
    }
    while i < entries.len()
        invariant
            i <= entries@.len(),
            icons == raw_icons(entries@),
            head + icons_bytes(icons) == out@ + icons_bytes(icons.skip(i as int)),
        decreases entries@.len() - i,
    {
        let ghost start = out@;
        let ghost e = icons[i as int];
        let key = entries[i].0.as_str().as_bytes();
        bytes::put_num(&mut out, key.len() as u64, 2);
        bytes::put_bytes(&mut out, key);
        bytes::put_num(&mut out, entries[i].1, 8);
        bytes::put_num(&mut out, entries[i].2.len() as u64, 4);
        bytes::put_bytes(&mut out, entries[i].2.as_slice());
        proof {
            assert(e == raw_icon(entries@[i as int]));
            assert(out@ =~= start + icon_bytes(e));
            let rest = icons.skip(i as int);
            assert(rest[0] == e);
            assert(rest.drop_first() =~= icons.skip(i + 1));
            assert(start + icons_bytes(rest) =~= out@ + icons_bytes(icons.skip(i + 1)));
        }
        i = i + 1;
    }
    assert(out@ =~= head + icons_bytes(icons));
    let ghost upper = out@;
    out.push(0x44);
    out.push(0x46);
    out.push(0x4e);
    out.push(0x4d);
    bytes::put_num(&mut out, names.len() as u64, 4);
    let ghost nhead = name_magic() + bytes::to_le(listed.len(), 4);
    assert(out@ =~= upper + nhead);
    let mut j: usize = 0;
    proof {
        assert(listed.skip(0) =~= listed);
        assert(upper + nhead + names_bytes(listed) =~= out@ + names_bytes(listed.skip(0)));
    }
    while j < names.len()
        invariant
            j <= names@.len(),
            listed == raw_names(names@),
            upper + nhead + names_bytes(listed) == out@ + names_bytes(listed.skip(j as int)),
        decreases names@.len() - j,
    {
        let ghost start = out@;
        let ghost e = listed[j as int];
        let path = names[j].0.as_str().as_bytes();
        let display = names[j].1.as_str().as_bytes();
        bytes::put_num(&mut out, path.len() as u64, 2);
        bytes::put_bytes(&mut out, path);
        bytes::put_num(&mut out, display.len() as u64, 2);
        bytes::put_bytes(&mut out, display);
        proof {
            assert(e == raw_name(names@[j as int]));
            assert(out@ =~= start + name_bytes(e));
            let rest = listed.skip(j as int);
            assert(rest[0] == e);
            assert(rest.drop_first() =~= listed.skip(j + 1));
            assert(start + names_bytes(rest) =~= out@ + names_bytes(listed.skip(j + 1)));
        }
        j = j + 1;
    }
    assert(out@ =~= upper + nhead + names_bytes(listed));
    assert(out@ =~= encoded(icons, listed, px as nat));
    out
}

// ---------------------------------------------------------------- what was written is read

/// An icon entry whose parts have lengths that the format can frame.
pub open spec fn icon_fits(e: RawIcon) -> bool {
    &&& encode_utf8(e.key).len() < 0x1_0000
    &&& e.mtime <= u64::MAX
    &&& e.data.len() <= u32::MAX
}

/// A name entry whose parts have lengths that the format can frame.
pub open spec fn name_fits(e: RawName) -> bool {
    &&& encode_utf8(e.path).len() < 0x1_0000
    &&& encode_utf8(e.display).len() < 0x1_0000
}

/// An icon entry whose key has a length that the reader takes.
pub open spec fn icon_conforms(e: RawIcon) -> bool {
    1 <= encode_utf8(e.key).len() <= KEY_LIMIT
}

/// A name entry whose texts have lengths that the reader takes.
pub open spec fn name_conforms(e: RawName) -> bool {
    &&& 1 <= encode_utf8(e.path).len() <= KEY_LIMIT
    &&& encode_utf8(e.display).len() <= NAME_LIMIT
}

/// The icon entries that conform.
pub open spec fn conforming_icons(es: Seq<RawIcon>) -> Seq<RawIcon>
    decreases es.len(),
{
    if es.len() == 0 {
        Seq::empty()
    } else {
        let rest = conforming_icons(es.drop_first());
        if icon_conforms(es[0]) {
            seq![es[0]] + rest
        } else {
            rest
        }
    }
}

/// The name entries that conform.
pub open spec fn conforming_names(es: Seq<RawName>) -> Seq<RawName>
    decreases es.len(),
{
    if es.len() == 0 {
        Seq::empty()
    } else {
        let rest = conforming_names(es.drop_first());
        if name_conforms(es[0]) {
            seq![es[0]] + rest
        } else {
            rest
        }
    }
}

proof fn lemma_icon_step(front: Seq<u8>, e: RawIcon, back: Seq<u8>)
    requires
        icon_fits(e),
    ensures
        ({
            let next = (front.len() + icon_bytes(e).len()) as int;
            icon_step(front + icon_bytes(e) + back, front.len() as int) == if icon_conforms(e) {
                Step::Entry(e, next)
            } else {
                Step::Skip(next)
            }
        }),
{
    let buf = front + icon_bytes(e) + back;
    let key = encode_utf8(e.key);
    let off = front.len() as int;
    let l = bytes::to_le(key.len(), 2);
    let t = bytes::to_le(e.mtime, 8);
    let n = bytes::to_le(e.data.len(), 4);
    bytes::lemma_ranges();
    bytes::lemma_le_round_trip(key.len(), 2);
    bytes::lemma_le_round_trip(e.mtime, 8);
    bytes::lemma_le_round_trip(e.data.len(), 4);
    text::lemma_utf8_round_trip(e.key);
    assert(bytes::field(buf, off, 2) =~= l);
    let k = off + 2;
    assert(bytes::field(buf, k, key.len() as int) =~= key);
    let m = k + key.len();
    assert(bytes::field(buf, m, 8) =~= t);
    assert(bytes::field(buf, m + 8, 4) =~= n);
    let d = m + 12;
    assert(bytes::field(buf, d, e.data.len() as int) =~= e.data);
}

proof fn lemma_icon_run(front: Seq<u8>, es: Seq<RawIcon>, back: Seq<u8>)
    requires
        forall|i: int| 0 <= i < es.len() ==> icon_fits(#[trigger] es[i]),
    ensures
        icon_run(front + icons_bytes(es) + back, front.len() as int, es.len()) == (
            conforming_icons(es),
            (front.len() + icons_bytes(es).len()) as int,
        ),
    decreases es.len(),
{
    if es.len() > 0 {
        let one = icon_bytes(es[0]);
        let tail = es.drop_first();
        let rest = icons_bytes(tail);
        let buf = front + icons_bytes(es) + back;
        assert(buf =~= front + one + (rest + back));
        lemma_icon_step(front, es[0], rest + back);
        assert(buf =~= (front + one) + rest + back);
        assert forall|i: int| 0 <= i < tail.len() implies icon_fits(#[trigger] tail[i]) by {
            assert(icon_fits(es[i + 1]));
        }
        lemma_icon_run(front + one, tail, back);
    } else {
        assert(front + icons_bytes(es) + back =~= front + back);
    }
}

proof fn lemma_name_step(front: Seq<u8>, e: RawName, back: Seq<u8>)
    requires
        name_fits(e),
    ensures
        ({
            let next = (front.len() + name_bytes(e).len()) as int;
            name_step(front + name_bytes(e) + back, front.len() as int) == if name_conforms(e) {
                Step::Entry(e, next)
            } else {
                Step::Skip(next)
            }
        }),
{
    let buf = front + name_bytes(e) + back;
    let path = encode_utf8(e.path);
    let display = encode_utf8(e.display);
    let off = front.len() as int;
    bytes::lemma_ranges();
    bytes::lemma_le_round_trip(path.len(), 2);
    bytes::lemma_le_round_trip(display.len(), 2);
    text::lemma_utf8_round_trip(e.path);
    text::lemma_utf8_round_trip(e.display);
    assert(bytes::field(buf, off, 2) =~= bytes::to_le(path.len(), 2));
    let p = off + 2;
    assert(bytes::field(buf, p, path.len() as int) =~= path);
    let q = p + path.len();
    assert(bytes::field(buf, q, 2) =~= bytes::to_le(display.len(), 2));
    let d = q + 2;
    assert(bytes::field(buf, d, display.len() as int) =~= display);
}

proof fn lemma_name_run(front: Seq<u8>, es: Seq<RawName>)
    requires
        forall|i: int| 0 <= i < es.len() ==> name_fits(#[trigger] es[i]),
    ensures
        name_run(front + names_bytes(es), front.len() as int, es.len()) == conforming_names(es),
    decreases es.len(),
{
    if es.len() > 0 {
        let one = name_bytes(es[0]);
        let tail = es.drop_first();
        let rest = names_bytes(tail);
        let buf = front + names_bytes(es);
        assert(buf =~= front + one + rest);
        lemma_name_step(front, es[0], rest);
        assert(buf =~= (front + one) + rest);
        assert forall|i: int| 0 <= i < tail.len() implies name_fits(#[trigger] tail[i]) by {
            assert(name_fits(es[i + 1]));
        }
        lemma_name_run(front + one, tail);
    }
}

/// Writing and reading are inverse: of a file written for an icon size that the
/// reader takes, with entries that the format can frame and no more than are read,
/// the reader yields the accepted icons and the non-empty names that were written.
/// Of entries that do not conform, each is passed over alone.
pub proof fn law_decode_inverts_encode(
    icons: Seq<RawIcon>,
    names: Seq<RawName>,
    px: nat,
    mtimes: Map<Seq<char>, u64>,
)
    requires
        16 <= px <= 256,
        icons.len() <= MAX_ENTRIES,
        names.len() <= MAX_ENTRIES,
        forall|i: int| 0 <= i < icons.len() ==> icon_fits(#[trigger] icons[i]),
        forall|i: int| 0 <= i < names.len() ==> name_fits(#[trigger] names[i]),
    ensures
        decoded_icons(encoded(icons, names, px), mtimes) == icons_of(
            conforming_icons(icons),
            px,
            mtimes,
        ),
        decoded_names(encoded(icons, names, px)) == names_of(conforming_names(names)),
{
    let buf = encoded(icons, names, px);
    let head = head_bytes(icons.len(), px);
    bytes::lemma_ranges();
    bytes::lemma_le_round_trip(1, 4);
    bytes::lemma_le_round_trip(px, 4);
    bytes::lemma_le_round_trip(icons.len(), 4);
    bytes::lemma_le_round_trip(names.len(), 4);
    assert(head.len() == 16);
    assert(bytes::field(buf, 0, 4) =~= icon_magic());
    assert(bytes::field(buf, 4, 4) =~= bytes::to_le(1, 4));
    assert(bytes::field(buf, 8, 4) =~= bytes::to_le(px, 4));
    assert(bytes::field(buf, 12, 4) =~= bytes::to_le(icons.len(), 4));
    let body = icons_bytes(icons);
    let tail = name_section_bytes(names);
    lemma_icon_run(head, icons, tail);
    let off = 16 + body.len() as int;
    assert(icon_section(buf) == (conforming_icons(icons), off));
    assert(bytes::field(buf, off, 4) =~= name_magic());
    assert(bytes::field(buf, off + 4, 4) =~= bytes::to_le(names.len(), 4));
    let front = head + body + name_magic() + bytes::to_le(names.len(), 4);
    assert(front + names_bytes(names) =~= buf);
    lemma_name_run(front, names);
}

/// An icon entry without the pixels of its size is passed over alone, however long it
/// is: what is read of the other entries is as if it were not there.
pub proof fn law_missized_icon_is_passed_over(
    before: Seq<RawIcon>,
    e: RawIcon,
    after: Seq<RawIcon>,
    px: nat,
    mtimes: Map<Seq<char>, u64>,
)
    requires
        e.data.len() != px * px * 4,
    ensures
        icons_of(conforming_icons(before + seq![e] + after), px, mtimes) == icons_of(
            conforming_icons(before + after),
            px,
            mtimes,
        ),
{
    reveal_with_fuel(conforming_icons, 2);
    lemma_conforming_joins(before + seq![e], after);
    lemma_conforming_joins(before, seq![e]);
    lemma_conforming_joins(before, after);
    assert(seq![e].drop_first() =~= Seq::empty());
    if icon_conforms(e) {
        assert(conforming_icons(seq![e]) =~= seq![e]);
        lemma_icons_of_without(conforming_icons(before), e, conforming_icons(after), px, mtimes);
    } else {
        assert(conforming_icons(before) + conforming_icons(seq![e]) =~= conforming_icons(before));
    }
}

proof fn lemma_conforming_joins(a: Seq<RawIcon>, b: Seq<RawIcon>)
    ensures
        conforming_icons(a + b) == conforming_icons(a) + conforming_icons(b),
    decreases a.len(),
{
    if a.len() == 0 {
        assert(a + b =~= b);
        assert(conforming_icons(a) + conforming_icons(b) =~= conforming_icons(b));
    } else {
        let t = a.drop_first();
        assert((a + b).drop_first() =~= t + b);
        lemma_conforming_joins(t, b);
        assert(seq![a[0]] + (conforming_icons(t) + conforming_icons(b)) =~= (seq![a[0]]
            + conforming_icons(t)) + conforming_icons(b));
    }
}

proof fn lemma_icons_of_without(
    before: Seq<RawIcon>,
    e: RawIcon,
    after: Seq<RawIcon>,
    px: nat,
    mtimes: Map<Seq<char>, u64>,
)
    requires
        !icon_accepted(e, px, mtimes),
    ensures
        icons_of(before + seq![e] + after, px, mtimes) == icons_of(before + after, px, mtimes),
    decreases after.len(),
{
    let all = before + seq![e] + after;
    let rest = before + after;
    if after.len() == 0 {
        assert(all.drop_last() =~= before);
        assert(rest =~= before);
        assert(all.last() == e);
    } else {
        let t = after.drop_last();
        assert(all.drop_last() =~= before + seq![e] + t);
        assert(rest.drop_last() =~= before + t);
        assert(all.last() == rest.last());
        lemma_icons_of_without(before, e, t, px, mtimes);
    }
}

/// Every icon that is read is one of an accepted entry: a file of the present scan
/// with the modification time it has now, and pixels of the file's icon size.
pub proof fn law_icons_are_current(
    es: Seq<RawIcon>,
    px: nat,
    mtimes: Map<Seq<char>, u64>,
    key: Seq<char>,
)
    requires
        icons_of(es, px, mtimes).contains_key(key),
    ensures
        mtimes.contains_key(text::before(key, '\0')),
        icons_of(es, px, mtimes)[key].len() == px * px * 4,
        exists|i: int|
            0 <= i < es.len() && icon_accepted(#[trigger] es[i], px, mtimes) && es[i].key == key
                && es[i].data == icons_of(es, px, mtimes)[key],
    decreases es.len(),
{
    let p = es.drop_last();
    let e = es.last();
    if icon_accepted(e, px, mtimes) && e.key == key {
        assert(es[es.len() - 1] == e);
    } else {
        law_icons_are_current(p, px, mtimes, key);
        let i = choose|i: int|
            0 <= i < p.len() && icon_accepted(#[trigger] p[i], px, mtimes) && p[i].key == key
                && p[i].data == icons_of(p, px, mtimes)[key];
        assert(es[i] == p[i]);
    }
}

// ---------------------------------------------------------------- the file

/// A file is read where it begins with `DFIC`, is of version 1 and its icons are from 16 to
/// 256 pixels wide.
pub proof fn law_icon_file_is_known_by_its_head(buf: Seq<u8>, mtimes: Map<Seq<char>, u64>)
    ensures
        ({
            let known = buf.len() >= 12 && buf[0] == 'D' as int && buf[1] == 'F' as int && buf[2]
                == 'I' as int && buf[3] == 'C' as int && bytes::num(buf, 4, 4) == 1 && 16
                <= bytes::num(buf, 8, 4) <= 256;
            &&& known <==> header_ok(buf)
            &&& !known ==> decoded_icons(buf, mtimes) == Map::<Seq<char>, Seq<u8>>::empty()
                && decoded_names(buf) == Map::<Seq<char>, Seq<char>>::empty()
        }),
{
    if buf.len() >= 12 {
        let f = bytes::field(buf, 0, 4);
        assert(f[0] == buf[0] && f[1] == buf[1] && f[2] == buf[2] && f[3] == buf[3]);
        if buf[0] == 'D' as int && buf[1] == 'F' as int && buf[2] == 'I' as int && buf[3]
            == 'C' as int {
            assert(f =~= icon_magic());
        }
    }
}

/// A file that is written holds, in this order, its mark, the version, the width of the icons
/// and their number, the icons, then the mark of the names, their number, and the names.
pub proof fn law_icon_file_is_laid_out(icons: Seq<RawIcon>, names: Seq<RawName>, px: nat)
    requires
        px <= u32::MAX,
        icons.len() <= u32::MAX,
        names.len() <= u32::MAX,
    ensures
        ({
            let f = encoded(icons, names, px);
            let n = 16 + icons_bytes(icons).len() as int;
            &&& f[0] == 'D' as int && f[1] == 'F' as int && f[2] == 'I' as int && f[3] == 'C' as int
            &&& bytes::num(f, 4, 4) == 1
            &&& bytes::num(f, 8, 4) == px
            &&& bytes::num(f, 12, 4) == icons.len()
            &&& f.subrange(16, n) == icons_bytes(icons)
            &&& f[n] == 'D' as int && f[n + 1] == 'F' as int && f[n + 2] == 'N' as int && f[n + 3]
                == 'M' as int
            &&& bytes::num(f, n + 4, 4) == names.len()
            &&& f.skip(n + 8) == names_bytes(names)
        }),
{
    let f = encoded(icons, names, px);
    let n = 16 + icons_bytes(icons).len() as int;
    bytes::lemma_ranges();
    bytes::lemma_le_round_trip(1, 4);
    bytes::lemma_le_round_trip(px, 4);
    bytes::lemma_le_round_trip(icons.len(), 4);
    bytes::lemma_le_round_trip(names.len(), 4);
    assert(bytes::field(f, 4, 4) =~= bytes::to_le(1, 4));
    assert(bytes::field(f, 8, 4) =~= bytes::to_le(px, 4));
    assert(bytes::field(f, 12, 4) =~= bytes::to_le(icons.len(), 4));
    assert(f.subrange(16, n) =~= icons_bytes(icons));
    assert(bytes::field(f, n + 4, 4) =~= bytes::to_le(names.len(), 4));
    assert(f.skip(n + 8) =~= names_bytes(names));
}

/// An icon is written as the length of its key, the key, the time of its file, the length of
/// its bytes and the bytes; a name as two texts, each behind its length. They follow each
/// other in their order.
pub proof fn law_entries_are_laid_out(e: RawIcon, n: RawName, icons: Seq<RawIcon>, names: Seq<RawName>)
    requires
        icon_fits(e),
        name_fits(n),
    ensures
        ({
            let b = icon_bytes(e);
            let k = encode_utf8(e.key);
            let m = 2 + k.len() as int;
            &&& bytes::num(b, 0, 2) == k.len()
            &&& b.subrange(2, m) == k
            &&& bytes::num(b, m, 8) == e.mtime
            &&& bytes::num(b, m + 8, 4) == e.data.len()
            &&& b.skip(m + 12) == e.data
            &&& icons_bytes(seq![e] + icons) == b + icons_bytes(icons)
        }),
        ({
            let b = name_bytes(n);
            let p = encode_utf8(n.path);
            let d = encode_utf8(n.display);
            let m = 2 + p.len() as int;
            &&& bytes::num(b, 0, 2) == p.len()
            &&& b.subrange(2, m) == p
            &&& bytes::num(b, m, 2) == d.len()
            &&& b.skip(m + 2) == d
            &&& names_bytes(seq![n] + names) == b + names_bytes(names)
        }),
{
    bytes::lemma_ranges();
    let k = encode_utf8(e.key);
    let b = icon_bytes(e);
    let m = 2 + k.len() as int;
    bytes::lemma_le_round_trip(k.len(), 2);
    bytes::lemma_le_round_trip(e.mtime, 8);
    bytes::lemma_le_round_trip(e.data.len(), 4);
    assert(bytes::field(b, 0, 2) =~= bytes::to_le(k.len(), 2));
    assert(b.subrange(2, m) =~= k);
    assert(bytes::field(b, m, 8) =~= bytes::to_le(e.mtime, 8));
    assert(bytes::field(b, m + 8, 4) =~= bytes::to_le(e.data.len(), 4));
    assert(b.skip(m + 12) =~= e.data);
    assert((seq![e] + icons).drop_first() =~= icons);
    let p = encode_utf8(n.path);
    let d = encode_utf8(n.display);
    let c = name_bytes(n);
    let q = 2 + p.len() as int;
    bytes::lemma_le_round_trip(p.len(), 2);
    bytes::lemma_le_round_trip(d.len(), 2);
    assert(bytes::field(c, 0, 2) =~= bytes::to_le(p.len(), 2));
    assert(c.subrange(2, q) =~= p);
    assert(bytes::field(c, q, 2) =~= bytes::to_le(d.len(), 2));
    assert(c.skip(q + 2) =~= d);
    assert((seq![n] + names).drop_first() =~= names);
}

/// An icon of a file is taken where it has four bytes to each pixel of the width, its key
/// names that width, and its file has the time it had, which is known. Of two of one key the
/// later counts.
pub proof fn law_icons_of_unchanged_files_are_taken(
    es: Seq<RawIcon>,
    path: Seq<char>,
    mtime: nat,
    data: Seq<u8>,
    px: nat,
    mtimes: Map<Seq<char>, u64>,
)
    requires
        !path.contains('\0'),
    ensures
        ({
            let key = path + seq!['\0'] + text::decimal(px);
            let e = RawIcon { key, mtime, data };
            let good = data.len() == px * px * 4 && mtime > 0 && mtimes.contains_key(path)
                && mtimes[path] == mtime;
            &&& good ==> icons_of(es.push(e), px, mtimes) == icons_of(es, px, mtimes).insert(key, data)
            &&& !good ==> icons_of(es.push(e), px, mtimes) == icons_of(es, px, mtimes)
            &&& icons_of(Seq::empty(), px, mtimes) == Map::<Seq<char>, Seq<u8>>::empty()
        }),
{
    let key = path + seq!['\0'] + text::decimal(px);
    let e = RawIcon { key, mtime, data };
    let n = path.len() as int;
    assert(key[n] == '\0');
    assert forall|j: int| 0 <= j < n implies #[trigger] key[j] != '\0' by {
        assert(path.contains(path[j]));
    }
    text::lemma_before(key, '\0', n);
    assert(key.subrange(0, n) =~= path);
    text::law_ends_in_what_follows(path, key, px_suffix(px));
    assert(path + px_suffix(px) =~= key);
    assert(es.push(e).drop_last() =~= es);
}

/// An icon whose key does not end in the width is passed over.
pub proof fn law_icons_of_other_widths_are_passed_over(
    es: Seq<RawIcon>,
    e: RawIcon,
    px: nat,
    mtimes: Map<Seq<char>, u64>,
)
    requires
        !text::ends_in(e.key, seq!['\0'] + text::decimal(px)),
    ensures
        icons_of(es.push(e), px, mtimes) == icons_of(es, px, mtimes),
{
    assert(es.push(e).drop_last() =~= es);
}

/// A name is taken where neither its path nor the name is empty. Of two of one path the later
/// counts.
pub proof fn law_names_are_taken(es: Seq<RawName>, e: RawName)
    ensures
        e.path.len() > 0 && e.display.len() > 0 ==> names_of(es.push(e)) == names_of(es).insert(
            e.path,
            e.display,
        ),
        e.path.len() == 0 || e.display.len() == 0 ==> names_of(es.push(e)) == names_of(es),
        names_of(Seq::empty()) == Map::<Seq<char>, Seq<char>>::empty(),
{
    assert(es.push(e).drop_last() =~= es);
}

/// Of a written file the icons are read whose key has from 1 to 1024 bytes, and the names
/// whose path has as many and that have 512 bytes at most; the others are passed over alone.
pub proof fn law_conforming_entries_are_read(icons: Seq<RawIcon>, names: Seq<RawName>)
    ensures
        conforming_icons(icons) == icons.filter(
            |e: RawIcon| 1 <= encode_utf8(e.key).len() <= 1024,
        ),
        conforming_names(names) == names.filter(
            |e: RawName|
                1 <= encode_utf8(e.path).len() <= 1024 && encode_utf8(e.display).len() <= 512,
        ),
{
    lemma_icons_filtered(icons);
    lemma_names_filtered(names);
}

proof fn lemma_icons_filtered(es: Seq<RawIcon>)
    ensures
        conforming_icons(es) == es.filter(|e: RawIcon| 1 <= encode_utf8(e.key).len() <= 1024),
    decreases es.len(),
{
    let f = |e: RawIcon| 1 <= encode_utf8(e.key).len() <= 1024;
    if es.len() > 0 {
        let t = es.drop_first();
        lemma_icons_filtered(t);
        assert(es =~= seq![es[0]] + t);
        Seq::filter_distributes_over_add(seq![es[0]], t, f);
        lemma_filtered_one(es[0], f);
        if icon_conforms(es[0]) {
            assert(seq![es[0]].filter(f) == seq![es[0]]);
        } else {
            assert(seq![es[0]].filter(f).len() == 0);
            assert(seq![es[0]].filter(f) + t.filter(f) =~= t.filter(f));
        }
    } else {
        reveal(Seq::filter);
        assert(conforming_icons(es) =~= es.filter(f));
    }
}

proof fn lemma_names_filtered(es: Seq<RawName>)
    ensures
        conforming_names(es) == es.filter(
            |e: RawName|
                1 <= encode_utf8(e.path).len() <= 1024 && encode_utf8(e.display).len() <= 512,
        ),
    decreases es.len(),
{
    let f = |e: RawName|
        1 <= encode_utf8(e.path).len() <= 1024 && encode_utf8(e.display).len() <= 512;
    if es.len() > 0 {
        let t = es.drop_first();
        lemma_names_filtered(t);
        assert(es =~= seq![es[0]] + t);
        Seq::filter_distributes_over_add(seq![es[0]], t, f);
        lemma_filtered_one(es[0], f);
        if name_conforms(es[0]) {
            assert(seq![es[0]].filter(f) == seq![es[0]]);
        } else {
            assert(seq![es[0]].filter(f).len() == 0);
            assert(seq![es[0]].filter(f) + t.filter(f) =~= t.filter(f));
        }
    } else {
        reveal(Seq::filter);
        assert(conforming_names(es) =~= es.filter(f));
    }
}

proof fn lemma_filtered_one<T>(x: T, f: spec_fn(T) -> bool)
    ensures
        f(x) ==> seq![x].filter(f) == seq![x],
        !f(x) ==> seq![x].filter(f).len() == 0,
{
    reveal_with_fuel(Seq::filter, 2);
    assert(seq![x].drop_last() =~= Seq::<T>::empty());
    assert(Seq::<T>::empty().filter(f) =~= Seq::<T>::empty());
    assert(Seq::<T>::empty().push(x) =~= seq![x]);
}

/// A file is read up to 8192 icons and as many names, and only up to where it is cut off; what
/// stands there instead of the mark of the names is no name.
pub proof fn law_reading_ends(buf: Seq<u8>, off: int, n: nat)
    requires
        0 <= off,
    ensures
        icon_section(buf).0.len() <= 8192,
        name_section(buf, off).len() <= 8192,
        off + 2 > buf.len() ==> icon_run(buf, off, n).0.len() == 0 && name_run(buf, off, n).len()
            == 0,
        off + 14 + bytes::num(buf, off, 2) > buf.len() ==> icon_run(buf, off, n).0.len() == 0,
        off + 4 + bytes::num(buf, off, 2) > buf.len() ==> name_run(buf, off, n).len() == 0,
        off + 8 > buf.len() ==> name_section(buf, off).len() == 0,
        off + 8 <= buf.len() && !(buf[off] == 'D' as int && buf[off + 1] == 'F' as int && buf[off
            + 2] == 'N' as int && buf[off + 3] == 'M' as int) ==> name_section(buf, off).len() == 0,
{
    if buf.len() >= 16 {
        lemma_run_len(buf, 16, least(bytes::num(buf, 12, 4), MAX_ENTRIES as int) as nat);
    }
    if off + 8 <= buf.len() {
        lemma_name_run_len(
            buf,
            off + 8,
            least(bytes::num(buf, off + 4, 4), MAX_ENTRIES as int) as nat,
        );
        let f = bytes::field(buf, off, 4);
        assert(f[0] == buf[off] && f[1] == buf[off + 1] && f[2] == buf[off + 2] && f[3] == buf[off
            + 3]);
    }
}

proof fn lemma_run_len(buf: Seq<u8>, off: int, n: nat)
    ensures
        icon_run(buf, off, n).0.len() <= n,
    decreases n,
{
    if n > 0 {
        match icon_step(buf, off) {
            Step::Stop(at) => {},
            Step::Skip(next) => {
                lemma_run_len(buf, next, (n - 1) as nat);
            },
            Step::Entry(e, next) => {
                lemma_run_len(buf, next, (n - 1) as nat);
            },
        }
    }
}

proof fn lemma_name_run_len(buf: Seq<u8>, off: int, n: nat)
    ensures
        name_run(buf, off, n).len() <= n,
    decreases n,
{
    if n > 0 {
        match name_step(buf, off) {
            Step::Stop(at) => {},
            Step::Skip(next) => {
                lemma_name_run_len(buf, next, (n - 1) as nat);
            },
            Step::Entry(e, next) => {
                lemma_name_run_len(buf, next, (n - 1) as nat);
            },
        }
    }
}

} // verus!

//! Smaller decisions around the system: numbers of the registry, the log, processes,
//! watched directories, and who may change the order of the windows.
use crate::scan;
use crate::text;
use crate::utf16;
use vstd::prelude::*;

verus! {

// ---------------------------------------------------------------- the registry's numbers

/// The size of the desktop's icons, in pixels: the registry's where it is plausible,
/// else the system's medium size.
pub fn icon_size_or_default(v: Option<u32>) -> (r: u32)
    ensures
        r == (match v {
            Some(x) => if 8 <= x <= 256 {
                x
            } else {
                48
            },
            None => 48,
        }),
{
    match v {
        Some(x) => {
            if 8 <= x && x <= 256 {
                x
            } else {
                48
            }
        },
        None => 48,
    }
}

/// The distance of a number to 0.
pub open spec fn magnitude(v: int) -> int {
    if v < 0 {
        -v
    } else {
        v
    }
}

/// The spacing of the desktop's icons that the registry's text `s` gives, in
/// twentieths of a point; its sign does not count.
pub fn spacing_twips(s: &str) -> (r: Option<u32>)
    ensures
        match r {
            Some(n) => text::signed_number_in(text::trimmed(s@)) is Some && n == magnitude(
                text::signed_number_in(text::trimmed(s@))->0,
            ),
            None => text::signed_number_in(text::trimmed(s@)) is None,
        },
{
    let t = text::trim(s);
    match text::parse_i32(t.as_str()) {
        None => None,
        Some(n) => {
            let wide: i64 = n as i64;
            if wide < 0 {
                Some((-wide) as u32)
            } else {
                Some(wide as u32)
            }
        },
    }
}

/// The size of the names under the icons, in pixels, from the height that the
/// system's font gives: 12 where it gives none, and between 8 and 48.
pub open spec fn font_px(height: int) -> int {
    if height == 0 {
        12
    } else if magnitude(height) < 8 {
        8
    } else if magnitude(height) > 48 {
        48
    } else {
        magnitude(height)
    }
}

/// The size of the names under the icons, in pixels.
pub fn font_px_from_lfheight(height: i32) -> (r: u32)
    ensures
        r == font_px(height as int),
{
    if height == 0 {
        return 12;
    }
    let wide: i64 = height as i64;
    let px: i64 = if wide < 0 {
        -wide
    } else {
        wide
    };
    if px < 8 {
        8
    } else if px > 48 {
        48
    } else {
        px as u32
    }
}

/// The font of the names under the icons, as the system tells it.
pub struct IconFont {
    /// The buffer with the name of the font.
    pub face: Vec<u16>,
    pub height: i32,
    pub weight: i32,
}

/// The name of a font, or the usual one's where there is none.
pub open spec fn font_name(name: Seq<char>) -> Seq<char> {
    if name.len() > 0 {
        name
    } else {
        "Segoe UI"@
    }
}

/// The name, the size and the weight of the font under the icons; the usual one's
/// where the system tells none.
pub fn desktop_icon_font(found: Option<&IconFont>) -> (r: (String, u32, i32))
    ensures
        (r.0@, r.1 as int, r.2) == (match found {
            Some(f) => (
                font_name(utf16::utf16_text(utf16::until_nul(f.face@))),
                font_px(f.height as int),
                f.weight,
            ),
            None => ("Segoe UI"@, 12int, 400i32),
        }),
{
    match found {
        None => (text::own("Segoe UI"), 12, 400),
        Some(f) => {
            let name = utf16::text_in(&f.face);
            let px: u32 = font_px_from_lfheight(f.height);
            if text::chars_of(name.as_str()).len() > 0 {
                (name, px, f.weight)
            } else {
                (text::own("Segoe UI"), px, f.weight)
            }
        },
    }
}

/// The distances of the desktop's icons, across and down, that the system packs into
/// one number: the lower and the upper sixteen bits. None where they are implausible.
pub fn item_spacing(packed: u32) -> (r: Option<(u32, u32)>)
    ensures
        ({
            let (x, y) = (packed & 0xffff, (packed >> 16) & 0xffff);
            r == (if 40 <= x <= 512 && 40 <= y <= 512 {
                Some((x, y))
            } else {
                None
            })
        }),
{
    let x: u32 = packed & 0xffff;
    let y: u32 = (packed >> 16) & 0xffff;
    if 40 <= x && x <= 512 && 40 <= y && y <= 512 {
        Some((x, y))
    } else {
        None
    }
}

// ---------------------------------------------------------------- what the system tells

/// The rectangle that the system suggests after a change of scale: left, top, width
/// and height. None where it is empty, or too large for its numbers.
pub fn suggested_rect(left: i32, top: i32, right: i32, bottom: i32) -> (r: Option<
    (i32, i32, i32, i32),
>)
    ensures
        r == (if 0 < right - left <= i32::MAX && 0 < bottom - top <= i32::MAX {
            Some((left, top, (right - left) as i32, (bottom - top) as i32))
        } else {
            None
        }),
{
    let w: i64 = right as i64 - left as i64;
    let h: i64 = bottom as i64 - top as i64;
    if 0 < w && w <= 0x7fff_ffff && 0 < h && h <= 0x7fff_ffff {
        Some((left, top, w as i32, h as i32))
    } else {
        None
    }
}

/// Whether the buffer that the system has filled with the name of a command names
/// `verb`, case aside; the name of an unknown command is none.
pub fn verb_is(filled: Option<&Vec<u16>>, verb: &str) -> (r: bool)
    ensures
        r == (match filled {
            Some(b) => scan::same_ascii(utf16::utf16_text(utf16::until_nul(b@)), verb@),
            None => false,
        }),
{
    match filled {
        Some(b) => {
            let name = utf16::text_in(b);
            scan::same_ignoring_case(name.as_str(), verb)
        },
        None => false,
    }
}

/// The name of the command that the system runs: the one in the buffer that it has
/// filled, else the command's number behind a hash.
pub open spec fn command_name(filled: Option<Seq<u16>>, index: nat) -> Seq<char> {
    match filled {
        Some(b) => utf16::utf16_text(utf16::until_nul(b)),
        None => seq!['#'] + text::decimal(index),
    }
}

/// The name of the command that the system has run, and whether the command took the
/// file away, so that the next scan is not to wait for it.
pub fn invoked_command(filled: Option<&Vec<u16>>, index: u32) -> (r: (String, bool))
    ensures
        ({
            let name = command_name(
                match filled {
                    Some(b) => Some(b@),
                    None => None,
                },
                index as nat,
            );
            r.0@ == name && r.1 == scan::same_ascii(name, "delete"@)
        }),
{
    let name = match filled {
        Some(b) => utf16::text_in(b),
        None => {
            proof {
                reveal_strlit("#");
                assert("#"@ =~= seq!['#']);
            }
            text::join2("#", text::decimal_string(index as u64).as_str())
        },
    };
    let gone = scan::same_ignoring_case(name.as_str(), "delete");
    (name, gone)
}

/// The files that the system lists as dropped: one for each entry that is not empty.
pub open spec fn dropped_texts(entries: Seq<Seq<u16>>) -> Seq<Seq<char>>
    decreases entries.len(),
{
    if entries.len() == 0 {
        Seq::empty()
    } else {
        let front = dropped_texts(entries.drop_last());
        if entries.last().len() > 0 {
            front.push(utf16::utf16_text(entries.last()))
        } else {
            front
        }
    }
}

/// The units of a list of entries.
pub open spec fn unit_seqs(entries: Seq<Vec<u16>>) -> Seq<Seq<u16>> {
    Seq::new(entries.len(), |i: int| entries[i]@)
}

/// The files that the system lists as dropped, or as those on the clipboard.
pub fn parse_hdrop(entries: &Vec<Vec<u16>>) -> (r: Vec<String>)
    ensures
        text::texts(r@) == dropped_texts(unit_seqs(entries@)),
{
    let ghost all = unit_seqs(entries@);
    let mut out: Vec<String> = Vec::new();
    let mut i: usize = 0;
    assert(all.take(0) =~= Seq::empty());
    assert(text::texts(out@) =~= Seq::empty());
    while i < entries.len()
        invariant
            i <= entries.len(),
            all == unit_seqs(entries@),
            text::texts(out@) == dropped_texts(all.take(i as int)),
        decreases entries.len() - i,
    {
        proof {
            let t = all.take(i + 1);
            assert(t.drop_last() =~= all.take(i as int));
            assert(t.last() == entries@[i as int]@);
        }
        let ghost was = out@;
        if entries[i].len() > 0 {
            out.push(utf16::text_of(&entries[i]));
            assert(text::texts(out@) =~= text::texts(was).push(out@.last()@));
        }
        i = i + 1;
    }
    assert(all.take(i as int) =~= all);
    out
}

/// The name that the system shows for a file: the one in the buffer that it has
/// filled, else `fallback`.
pub fn shell_display_name(filled: Option<&Vec<u16>>, fallback: &str) -> (r: String)
    ensures
        r@ == (match filled {
            Some(b) => {
                let name = utf16::utf16_text(utf16::until_nul(b@));
                if name.len() > 0 {
                    name
                } else {
                    fallback@
                }
            },
            None => fallback@,
        }),
{
    match filled {
        Some(b) => {
            let name = utf16::text_in(b);
            if text::chars_of(name.as_str()).len() > 0 {
                name
            } else {
                text::own(fallback)
            }
        },
        None => text::own(fallback),
    }
}

/// Whether the system's theme is light.
pub fn is_light_theme(light: Option<u32>) -> (r: bool)
    ensures
        r == (light == Some(1u32)),
{
    match light {
        Some(v) => v == 1,
        None => false,
    }
}

/// The red, the green and the blue of the system's accent colour; none where it has
/// none.
pub fn system_accent(color: Option<u32>) -> (r: Option<(u32, u32, u32)>)
    ensures
        r == (match color {
            Some(v) => if v == 0 {
                None
            } else {
                Some((v & 0xff, (v >> 8) & 0xff, (v >> 16) & 0xff))
            },
            None => None,
        }),
        r matches Some((x, y, z)) ==> x <= 255 && y <= 255 && z <= 255,
{
    match color {
        Some(v) => {
            if v == 0 {
                return None;
            }
            assert(v & 0xff <= 255) by (bit_vector);
            assert((v >> 8) & 0xff <= 255) by (bit_vector);
            assert((v >> 16) & 0xff <= 255) by (bit_vector);
            Some((v & 0xff, (v >> 8) & 0xff, (v >> 16) & 0xff))
        },
        None => None,
    }
}

// ---------------------------------------------------------------- the log

/// A log of more bytes than these is put aside.
pub const LOG_LIMIT: u64 = 4194304;

/// Whether the log is to be put aside.
pub fn log_is_full(len: u64) -> (r: bool)
    ensures
        r == (len > LOG_LIMIT),
{
    len > LOG_LIMIT
}

/// A moment, by the clock on the wall.
#[derive(Clone, Copy)]
pub struct Moment {
    pub year: u16,
    pub month: u16,
    pub day: u16,
    pub hour: u16,
    pub minute: u16,
    pub second: u16,
}

/// A line of the log: the moment, and what happened.
pub open spec fn log_text(m: Moment, line: Seq<char>) -> Seq<char> {
    "["@ + text::padded(m.year as nat, 4) + "-"@ + text::padded(m.month as nat, 2) + "-"@
        + text::padded(m.day as nat, 2) + " "@ + text::padded(m.hour as nat, 2) + ":"@
        + text::padded(m.minute as nat, 2) + ":"@ + text::padded(m.second as nat, 2) + "] "@ + line
}

fn with_number(s: String, n: u16, width: usize, behind: &str) -> (r: String)
    ensures
        r@ == s@ + text::padded(n as nat, width as nat) + behind@,
{
    let d = text::padded_string(n as u64, width);
    let t = text::join2(s.as_str(), d.as_str());
    text::join2(t.as_str(), behind)
}

/// A line of the log.
pub fn log_line(m: &Moment, line: &str) -> (r: String)
    ensures
        r@ == log_text(*m, line@),
{
    let a = with_number(text::own("["), m.year, 4, "-");
    let b = with_number(a, m.month, 2, "-");
    let c = with_number(b, m.day, 2, " ");
    let d = with_number(c, m.hour, 2, ":");
    let e = with_number(d, m.minute, 2, ":");
    let f = with_number(e, m.second, 2, "] ");
    text::join2(f.as_str(), line)
}

// ---------------------------------------------------------------- processes

/// A process of the system.
pub struct Process {
    pub name: String,
    pub pid: u32,
}

/// The numbers of the processes of the name `name`, case aside, without `own`.
pub open spec fn pids_named(list: Seq<Process>, name: Seq<char>, own: u32) -> Seq<u32>
    decreases list.len(),
{
    if list.len() == 0 {
        Seq::empty()
    } else {
        let r = pids_named(list.drop_last(), name, own);
        if scan::same_ascii(list.last().name@, name) && list.last().pid != own {
            r.push(list.last().pid)
        } else {
            r
        }
    }
}

/// The numbers of the processes of the name `name`, without `own`.
pub fn pids_by_name(list: &Vec<Process>, name: &str, own: u32) -> (r: Vec<u32>)
    ensures
        r@ == pids_named(list@, name@, own),
{
    let mut out: Vec<u32> = Vec::new();
    let mut i: usize = 0;
    assert(list@.take(0) =~= Seq::empty());
    while i < list.len()
        invariant
            i <= list.len(),
            out@ == pids_named(list@.take(i as int), name@, own),
        decreases list.len() - i,
    {
        assert(list@.take(i + 1).drop_last() =~= list@.take(i as int));
        if scan::same_ignoring_case(list[i].name.as_str(), name) && list[i].pid != own {
            out.push(list[i].pid);
        }
        i = i + 1;
    }
    assert(list@.take(list@.len() as int) =~= list@);
    out
}

/// What is done next to end some processes.
#[derive(Clone, Copy, PartialEq, Eq, Structural)]
pub enum Ending {
    /// None is left.
    Done,
    /// Some are left, and it has taken too long.
    GivenUp,
    /// They are asked to end, and looked for again.
    Again,
}

/// What is done next where `alive` processes are left after `elapsed_ms`.
pub fn terminate_step(alive: usize, elapsed_ms: u64, wait_ms: u64) -> (r: Ending)
    ensures
        r == (if alive == 0 {
            Ending::Done
        } else if elapsed_ms > wait_ms {
            Ending::GivenUp
        } else {
            Ending::Again
        }),
{
    if alive == 0 {
        Ending::Done
    } else if elapsed_ms > wait_ms {
        Ending::GivenUp
    } else {
        Ending::Again
    }
}

// ---------------------------------------------------------------- watched directories

/// The directories that are watched: the user's desktop and the public one, once
/// where they are the same but for case.
pub open spec fn watched(user: Option<Seq<char>>, public_dir: Option<Seq<char>>) -> Seq<Seq<char>> {
    match (user, public_dir) {
        (Some(u), Some(p)) => if text::lowercase(u) == text::lowercase(p) {
            seq![u]
        } else {
            seq![u, p]
        },
        (Some(u), None) => seq![u],
        (None, Some(p)) => seq![p],
        (None, None) => Seq::empty(),
    }
}

/// The contents of an optional text.
pub open spec fn opt_view(o: Option<&str>) -> Option<Seq<char>> {
    match o {
        Some(s) => Some(s@),
        None => None,
    }
}

/// The directories that are watched.
pub fn start_desktop_watcher(user: Option<&str>, public_dir: Option<&str>) -> (r: Vec<String>)
    ensures
        text::texts(r@) == watched(opt_view(user), opt_view(public_dir)),
{
    let mut out: Vec<String> = Vec::new();
    match user {
        Some(u) => {
            out.push(text::own(u));
        },
        None => {},
    }
    match public_dir {
        Some(p) => {
            let known = match user {
                Some(u) => text::same(
                    text::to_lowercase(u).as_str(),
                    text::to_lowercase(p).as_str(),
                ),
                None => false,
            };
            if !known {
                out.push(text::own(p));
            }
        },
        None => {},
    }
    assert(text::texts(out@) =~= watched(opt_view(user), opt_view(public_dir)));
    out
}

// ---------------------------------------------------------------- the order of the windows

/// Why the order of the windows is changed.
#[derive(Clone, Copy, PartialEq, Eq, Structural)]
pub enum ZIntent {
    Create,
    Show,
    Drag,
    Repair,
    Restore,
}

/// The time within which the order of the windows is changed on purpose. It ends with
/// the purpose that was there before.
pub struct ZScope {
    pub before: Option<ZIntent>,
}

/// Starts to change the order of the windows on purpose.
pub fn z_scope(current: &mut Option<ZIntent>, intent: ZIntent) -> (r: ZScope)
    ensures
        *final(current) == Some(intent),
        r.before == *old(current),
{
    let before = *current;
    *current = Some(intent);
    ZScope { before }
}

/// Ends it.
pub fn z_scope_end(current: &mut Option<ZIntent>, scope: ZScope)
    ensures
        *final(current) == scope.before,
{
    *current = scope.before;
}

/// Whether the order of the windows is changed on purpose.
pub fn z_intent_active(current: &Option<ZIntent>) -> (r: bool)
    ensures
        r == (current is Some),
{
    current.is_some()
}

/// Remembers when the user did something last.
pub fn mark_interaction(last_ms: &mut u64, now_ms: u64)
    ensures
        *final(last_ms) == now_ms,
{
    *last_ms = now_ms;
}

// ---------------------------------------------------------------- drag and drop

/// The system's number for a drag that is cancelled.
pub const DRAGDROP_S_CANCEL: i32 = 0x0004_0101;

/// The system's number for a drag that ends with a drop.
pub const DRAGDROP_S_DROP: i32 = 0x0004_0100;

/// The system's number for the usual pointers.
pub const DRAGDROP_S_USEDEFAULTCURSORS: i32 = 0x0004_0102;

/// Whether a drag to elsewhere goes on (0), by the keys and buttons that are down: the
/// Escape key and the right button cancel it, and letting the left one go drops.
pub fn drop_verdict(esc: bool, lb_down: bool, rb_down: bool) -> (r: i32)
    ensures
        r == (if esc || rb_down {
            DRAGDROP_S_CANCEL
        } else if !lb_down {
            DRAGDROP_S_DROP
        } else {
            0
        }),
{
    if esc || rb_down {
        DRAGDROP_S_CANCEL
    } else if !lb_down {
        DRAGDROP_S_DROP
    } else {
        0
    }
}

/// What a fence lets be done with files that are dragged over it: what was allowed,
/// and to copy and to move them.
pub fn drop_effect(effect: u32) -> (r: u32)
    ensures
        r == effect | 3,
        r & 1 == 1,
        r & 2 == 2,
{
    assert((effect | 3) & 1 == 1) by (bit_vector);
    assert((effect | 3) & 2 == 2) by (bit_vector);
    effect | 3
}

/// The size of a font is that of its height, from 8 to 48, and 12 where it has none.
pub proof fn law_fonts_can_be_read(height: int)
    ensures
        height == 0 ==> font_px(height) == 12,
        8 <= height <= 48 ==> font_px(height) == height,
        -48 <= height <= -8 ==> font_px(height) == -height,
        height > 48 || height < -48 ==> font_px(height) == 48,
        height != 0 && -8 < height < 8 ==> font_px(height) == 8,
{
}

/// A font without a name is `Segoe UI`.
pub proof fn law_fonts_have_a_name(name: Seq<char>)
    ensures
        name.len() > 0 ==> font_name(name) == name,
        name.len() == 0 ==> font_name(name) == "Segoe UI"@,
{
}

/// A command without a name goes by its number.
pub proof fn law_commands_have_a_name(b: Seq<u16>, index: nat)
    ensures
        command_name(Some(b), index) == utf16::utf16_text(utf16::until_nul(b)),
        command_name(None, index) == seq!['#'] + text::decimal(index),
{
}

/// Of dropped entries those that are not empty are taken, in their order.
pub proof fn law_empty_drops_are_passed_over(entries: Seq<Seq<u16>>, e: Seq<u16>)
    ensures
        dropped_texts(Seq::empty()).len() == 0,
        e.len() > 0 ==> dropped_texts(entries.push(e)) == dropped_texts(entries).push(
            utf16::utf16_text(e),
        ),
        e.len() == 0 ==> dropped_texts(entries.push(e)) == dropped_texts(entries),
{
    assert(entries.push(e).drop_last() =~= entries);
}

/// The processes of a name, case aside, are all but the own one, in their order.
pub proof fn law_processes_are_found_by_name(
    list: Seq<Process>,
    p: Process,
    name: Seq<char>,
    own: u32,
)
    ensures
        pids_named(Seq::empty(), name, own).len() == 0,
        scan::same_ascii(p.name@, name) && p.pid != own ==> pids_named(list.push(p), name, own)
            == pids_named(list, name, own).push(p.pid),
        !scan::same_ascii(p.name@, name) || p.pid == own ==> pids_named(list.push(p), name, own)
            == pids_named(list, name, own),
{
    assert(list.push(p).drop_last() =~= list);
}

/// The desktops are watched that there are, one directory once, case aside.
pub proof fn law_desktops_are_watched_once(u: Seq<char>, p: Seq<char>)
    ensures
        text::lowercase(u) == text::lowercase(p) ==> watched(Some(u), Some(p)) == seq![u],
        text::lowercase(u) != text::lowercase(p) ==> watched(Some(u), Some(p)) == seq![u, p],
        watched(Some(u), None) == seq![u],
        watched(None, Some(p)) == seq![p],
        watched(None, None).len() == 0,
{
}

/// A line of the log begins with the moment, from the year down to the second, in numbers of
/// even width.
pub proof fn law_log_lines_begin_with_the_moment(m: Moment, line: Seq<char>)
    requires
        m.year < 10000,
        m.month < 100,
        m.day < 100,
        m.hour < 100,
        m.minute < 100,
        m.second < 100,
    ensures
        ({
            let s = log_text(m, line);
            &&& s.len() == 22 + line.len()
            &&& s[0] == '[' && s[5] == '-' && s[8] == '-' && s[11] == ' ' && s[14] == ':' && s[17]
                == ':' && s[20] == ']' && s[21] == ' '
            &&& text::digits_value(s.subrange(1, 5)) == m.year
            &&& text::digits_value(s.subrange(6, 8)) == m.month
            &&& text::digits_value(s.subrange(9, 11)) == m.day
            &&& text::digits_value(s.subrange(12, 14)) == m.hour
            &&& text::digits_value(s.subrange(15, 17)) == m.minute
            &&& text::digits_value(s.subrange(18, 20)) == m.second
            &&& s.skip(22) == line
        }),
{
    reveal_strlit("[");
    reveal_strlit("-");
    reveal_strlit(" ");
    reveal_strlit(":");
    reveal_strlit("] ");
    lemma_padded_width(m.year as nat, 4);
    lemma_padded_width(m.month as nat, 2);
    lemma_padded_width(m.day as nat, 2);
    lemma_padded_width(m.hour as nat, 2);
    lemma_padded_width(m.minute as nat, 2);
    lemma_padded_width(m.second as nat, 2);
    let s = log_text(m, line);
    assert(s.subrange(1, 5) =~= text::padded(m.year as nat, 4));
    assert(s.subrange(6, 8) =~= text::padded(m.month as nat, 2));
    assert(s.subrange(9, 11) =~= text::padded(m.day as nat, 2));
    assert(s.subrange(12, 14) =~= text::padded(m.hour as nat, 2));
    assert(s.subrange(15, 17) =~= text::padded(m.minute as nat, 2));
    assert(s.subrange(18, 20) =~= text::padded(m.second as nat, 2));
    assert(s.skip(22) =~= line);
}

proof fn lemma_padded_width(n: nat, width: nat)
    requires
        (width == 4 && n < 10000) || (width == 2 && n < 100),
    ensures
        text::padded(n, width).len() == width,
        text::digits_value(text::padded(n, width)) == n,
{
    text::law_padding_keeps_the_value(n, width);
    reveal_with_fuel(text::decimal, 5);
}

/// The log is begun anew behind four mebibytes.
pub proof fn law_log_has_a_limit(len: u64)
    ensures
        len > LOG_LIMIT <==> len > 4 * 1024 * 1024,
{
}

/// The size of a distance is never negative.
pub proof fn law_sizes_are_not_negative(v: int)
    ensures
        magnitude(v) >= 0,
        magnitude(v) == v || magnitude(v) == -v,
{
}

/// What the system's drag and drop is told: to go on with 0, and to end with one of two other
/// numbers.
pub proof fn law_verdicts_are_the_systems()
    ensures
        DRAGDROP_S_DROP == 0x40100,
        DRAGDROP_S_CANCEL == 0x40101,
        DRAGDROP_S_USEDEFAULTCURSORS == 0x40102,
{
}

} // verus!

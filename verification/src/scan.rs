//! Scanning the desktop: which entries of its directories are shown, under which
//! names and in which order.
use crate::desk;
use crate::desk::{Desk, DeskView};
use crate::display;
use crate::model;
use crate::model::{CategoryDef, CategoryView, FileItem, FileView};
use crate::order;
use crate::order::{Preorder, Rank};
use crate::text;
use crate::text_map::TextMap;
use vstd::prelude::*;

verus! {

// ---------------------------------------------------------------- case

/// The lowercase form of an ASCII letter, any other character as it is.
pub open spec fn ascii_lower(c: char) -> char {
    if 'A' <= c <= 'Z' {
        (c as int + 32) as char
    } else {
        c
    }
}

/// Two texts are the same but for the case of ASCII letters.
pub open spec fn same_ascii(a: Seq<char>, b: Seq<char>) -> bool {
    a.len() == b.len() && forall|i: int|
        0 <= i < a.len() ==> ascii_lower(#[trigger] a[i]) == ascii_lower(b[i])
}

fn lower_code(c: char) -> (r: u32)
    ensures
        r == ascii_lower(c) as int,
{
    if 'A' <= c && c <= 'Z' {
        c as u32 + 32
    } else {
        c as u32
    }
}

/// Whether two texts are the same but for the case of ASCII letters.
pub fn same_ignoring_case(a: &str, b: &str) -> (r: bool)
    ensures
        r == same_ascii(a@, b@),
{
    let x = text::chars_of(a);
    let y = text::chars_of(b);
    if x.len() != y.len() {
        return false;
    }
    let mut i: usize = 0;
    while i < x.len()
        invariant
            i <= x.len() == y.len(),
            x@ == a@,
            y@ == b@,
            forall|j: int| 0 <= j < i ==> ascii_lower(#[trigger] x@[j]) == ascii_lower(y@[j]),
        decreases x.len() - i,
    {
        if lower_code(x[i]) != lower_code(y[i]) {
            assert(ascii_lower(a@[i as int]) != ascii_lower(b@[i as int]));
            return false;
        }
        i = i + 1;
    }
    true
}

// ---------------------------------------------------------------- what is shown

/// An entry of a directory. `attrs` are its attributes: 2 is hidden, 4 is system.
pub struct RawEntry {
    pub name: String,
    pub path: String,
    pub is_dir: bool,
    pub attrs: u32,
    pub mtime_ms: u64,
}

/// The contents of a `RawEntry`.
pub struct RawView {
    pub name: Seq<char>,
    pub path: Seq<char>,
    pub is_dir: bool,
    pub attrs: u32,
    pub mtime_ms: u64,
}

impl View for RawEntry {
    type V = RawView;

    open spec fn view(&self) -> RawView {
        RawView {
            name: self.name@,
            path: self.path@,
            is_dir: self.is_dir,
            attrs: self.attrs,
            mtime_ms: self.mtime_ms,
        }
    }
}

/// The contents of a list of entries.
pub open spec fn raw_views(e: Seq<RawEntry>) -> Seq<RawView> {
    Seq::new(e.len(), |i: int| e[i]@)
}

/// An entry is shown: it is not `desktop.ini`, not the lock of an open document,
/// and neither a system nor a hidden file that is not to be seen.
pub open spec fn entry_shown(e: RawView, show_hidden: bool, show_super: bool) -> bool {
    &&& !same_ascii(e.name, "desktop.ini"@)
    &&& !(e.name.len() >= 2 && e.name[0] == '~' && e.name[1] == '$')
    &&& (e.attrs & 4 == 0 || show_super)
    &&& (e.attrs & 2 == 0 || show_hidden)
}

/// The extension of a file by its name: what follows its last dot, unless that dot
/// is the first character.
pub open spec fn file_extension(name: Seq<char>) -> Seq<char> {
    if name.len() > 0 && name[0] == '.' && !name.drop_first().contains('.') {
        Seq::empty()
    } else {
        model::extension(name)
    }
}

/// The file that an entry is, under its raw name.
pub open spec fn file_of(e: RawView, table: Seq<CategoryView>) -> FileView {
    FileView {
        name: e.name,
        path: e.path,
        is_dir: e.is_dir,
        ext: if e.is_dir {
            Seq::empty()
        } else {
            text::lowercase(file_extension(e.name))
        },
        category: model::category_of(table, e.name, e.is_dir),
        mtime_ms: e.mtime_ms,
    }
}

/// The files of the shown entries.
pub open spec fn files_shown(
    es: Seq<RawView>,
    table: Seq<CategoryView>,
    show_hidden: bool,
    show_super: bool,
) -> Seq<FileView>
    decreases es.len(),
{
    if es.len() == 0 {
        Seq::empty()
    } else {
        let r = files_shown(es.drop_last(), table, show_hidden, show_super);
        if entry_shown(es.last(), show_hidden, show_super) {
            r.push(file_of(es.last(), table))
        } else {
            r
        }
    }
}

/// Explorer shows hidden files.
pub fn show_hidden_files(hidden: Option<u32>) -> (r: bool)
    ensures
        r == (hidden == Some(1u32)),
{
    match hidden {
        Some(v) => v == 1,
        None => false,
    }
}

/// Explorer shows protected system files.
pub fn show_super_hidden(super_hidden: Option<u32>) -> (r: bool)
    ensures
        r == (super_hidden == Some(1u32)),
{
    match super_hidden {
        Some(v) => v == 1,
        None => false,
    }
}

fn is_shown(e: &RawEntry, show_hidden: bool, show_super: bool) -> (r: bool)
    ensures
        r == entry_shown(e@, show_hidden, show_super),
{
    let v = text::chars_of(e.name.as_str());
    let lock = v.len() >= 2 && v[0] == '~' && v[1] == '$';
    !same_ignoring_case(e.name.as_str(), "desktop.ini") && !lock && (e.attrs & 4 == 0
        || show_super) && (e.attrs & 2 == 0 || show_hidden)
}

fn ext_of_file(name: &str) -> (r: String)
    ensures
        r@ == file_extension(name@),
{
    let v = text::chars_of(name);
    if v.len() > 0 && v[0] == '.' {
        let mut i: usize = 1;
        let mut more = false;
        while i < v.len()
            invariant
                1 <= i <= v.len(),
                v@ == name@,
                v@[0] == '.',
                !more ==> forall|j: int| 1 <= j < i ==> #[trigger] v@[j] != '.',
                more ==> v@.drop_first().contains('.'),
            decreases v.len() - i,
        {
            if v[i] == '.' {
                more = true;
                assert(v@.drop_first()[i - 1] == '.');
            }
            i = i + 1;
        }
        if !more {
            assert forall|j: int| 0 <= j < v@.len() - 1 implies #[trigger] v@.drop_first()[j] != '.' by {
                assert(v@[j + 1] != '.');
            }
            return String::new();
        }
    }
    model::ext_of(name)
}

fn file_from(e: &RawEntry, table: &Vec<CategoryDef>) -> (r: FileItem)
    ensures
        r@ == file_of(e@, model::table_view(table@)),
{
    let ext = if e.is_dir {
        String::new()
    } else {
        text::to_lowercase(ext_of_file(e.name.as_str()).as_str())
    };
    FileItem {
        name: e.name.clone(),
        path: e.path.clone(),
        is_dir: e.is_dir,
        ext,
        category: model::categorize_with(table, e.name.as_str(), e.is_dir),
        mtime_ms: e.mtime_ms,
    }
}

/// The files of a directory that are shown, in the order of its entries.
pub fn scan_desktop_dir(
    entries: &Vec<RawEntry>,
    table: &Vec<CategoryDef>,
    show_hidden: bool,
    show_super: bool,
) -> (r: Vec<FileItem>)
    ensures
        model::file_views(r@) == files_shown(
            raw_views(entries@),
            model::table_view(table@),
            show_hidden,
            show_super,
        ),
{
    let ghost es = raw_views(entries@);
    let ghost t = model::table_view(table@);
    let mut out: Vec<FileItem> = Vec::new();
    let mut i: usize = 0;
    assert(model::file_views(out@) =~= files_shown(es.take(0), t, show_hidden, show_super));
    while i < entries.len()
        invariant
            i <= entries.len(),
            es == raw_views(entries@),
            t == model::table_view(table@),
            model::file_views(out@) == files_shown(es.take(i as int), t, show_hidden, show_super),
        decreases entries.len() - i,
    {
        let ghost was = out@;
        assert(es.take(i + 1).drop_last() =~= es.take(i as int));
        assert(es.take(i + 1).last() == entries@[i as int]@);
        if is_shown(&entries[i], show_hidden, show_super) {
            let f = file_from(&entries[i], table);
            assert(model::file_views(was.push(f)) =~= model::file_views(was).push(f@));
            out.push(f);
        }
        i = i + 1;
    }
    assert(es.take(es.len() as int) =~= es);
    out
}

/// The public desktop is scanned too: it is another directory than the user's.
pub open spec fn scans_public(user: Option<Seq<char>>, public_dir: Seq<char>) -> bool {
    match user {
        Some(u) => !same_ascii(u, public_dir),
        None => true,
    }
}

/// Whether the public desktop is scanned too.
pub fn scan_public_too(user: Option<&str>, public_dir: &str) -> (r: bool)
    ensures
        r == scans_public(
            match user {
                Some(u) => Some(u@),
                None => None,
            },
            public_dir@,
        ),
{
    match user {
        Some(u) => !same_ignoring_case(u, public_dir),
        None => true,
    }
}

/// A directory and what was found in it.
pub struct Listing {
    pub dir: String,
    pub entries: Vec<RawEntry>,
}

/// A directory and what was found in it, as a value.
#[verifier::ext_equal]
pub struct ListingView {
    pub dir: Seq<char>,
    pub entries: Seq<RawView>,
}

impl View for Listing {
    type V = ListingView;

    open spec fn view(&self) -> ListingView {
        ListingView { dir: self.dir@, entries: raw_views(self.entries@) }
    }
}

/// The view of a listing that may be missing.
pub open spec fn listing_view(l: Option<&Listing>) -> Option<ListingView> {
    match l {
        Some(l) => Some(l@),
        None => None,
    }
}

/// The files shown of a directory that may be missing.
pub open spec fn listing_shown(
    l: Option<ListingView>,
    t: Seq<CategoryView>,
    show_hidden: bool,
    show_super: bool,
) -> Seq<FileView> {
    match l {
        Some(l) => files_shown(l.entries, t, show_hidden, show_super),
        None => Seq::empty(),
    }
}

/// The files shown of the desktop: those of the user's directory, then those of the
/// public one where it is another directory.
pub open spec fn desktop_shown(
    user: Option<ListingView>,
    public_desktop: Option<ListingView>,
    t: Seq<CategoryView>,
    show_hidden: bool,
    show_super: bool,
) -> Seq<FileView> {
    let dir = match user {
        Some(u) => Some(u.dir),
        None => None,
    };
    let other = match public_desktop {
        Some(p) => if scans_public(dir, p.dir) {
            Some(p)
        } else {
            None
        },
        None => None,
    };
    listing_shown(user, t, show_hidden, show_super) + listing_shown(
        other,
        t,
        show_hidden,
        show_super,
    )
}

fn listed(l: Option<&Listing>, table: &Vec<CategoryDef>, show_hidden: bool, show_super: bool) -> (r:
    Vec<FileItem>)
    ensures
        model::file_views(r@) == listing_shown(
            listing_view(l),
            model::table_view(table@),
            show_hidden,
            show_super,
        ),
{
    match l {
        Some(l) => scan_desktop_dir(&l.entries, table, show_hidden, show_super),
        None => {
            let none: Vec<FileItem> = Vec::new();
            assert(model::file_views(none@) =~= Seq::empty());
            none
        },
    }
}

/// The files of the user's desktop and then those of the public one, under the names
/// that the file system gives them. A public desktop that is the user's own directory
/// is not listed again.
pub fn scan_desktop_raw(
    user: Option<&Listing>,
    public_desktop: Option<&Listing>,
    table: &Vec<CategoryDef>,
    show_hidden: bool,
    show_super: bool,
) -> (r: Vec<FileItem>)
    ensures
        model::file_views(r@) == desktop_shown(
            listing_view(user),
            listing_view(public_desktop),
            model::table_view(table@),
            show_hidden,
            show_super,
        ),
{
    let dir = match user {
        Some(u) => Some(u.dir.as_str()),
        None => None,
    };
    let other = match public_desktop {
        Some(p) => {
            if scan_public_too(dir, p.dir.as_str()) {
                Some(p)
            } else {
                None
            }
        },
        None => None,
    };
    let mut out = listed(user, table, show_hidden, show_super);
    let mut more = listed(other, table, show_hidden, show_super);
    let ghost (a, b) = (out@, more@);
    out.append(&mut more);
    assert(model::file_views(out@) =~= model::file_views(a) + model::file_views(b));
    out
}

// ---------------------------------------------------------------- names and order

/// The display name of a file: the known one of its path, else the one the system
/// gives it.
pub open spec fn shown_name(
    path: Seq<char>,
    known: Map<Seq<char>, String>,
    given: Seq<char>,
) -> Seq<char> {
    if known.contains_key(path) {
        known[path]@
    } else {
        given
    }
}

/// The files under their display names.
pub open spec fn named(
    f: Seq<FileView>,
    known: Map<Seq<char>, String>,
    given: Seq<Seq<char>>,
) -> Seq<FileView> {
    Seq::new(
        f.len(),
        |i: int| FileView { name: shown_name(f[i].path, known, given[i]), ..f[i] },
    )
}

/// Some file of `f` has the name `n`, case aside.
pub open spec fn has_name(f: Seq<FileView>, n: Seq<char>) -> bool {
    exists|i: int| 0 <= i < f.len() && text::lowercase((#[trigger] f[i]).name) == text::lowercase(n)
}

/// The files without those whose name, case aside, one before them has.
pub open spec fn first_of_each_name(f: Seq<FileView>) -> Seq<FileView>
    decreases f.len(),
{
    if f.len() == 0 {
        Seq::empty()
    } else {
        let r = first_of_each_name(f.drop_last());
        if has_name(r, f.last().name) {
            r
        } else {
            r.push(f.last())
        }
    }
}

/// The code points of a text.
pub open spec fn codes(s: Seq<char>) -> Seq<int> {
    Seq::new(s.len(), |i: int| s[i] as int)
}

/// The rank of two files of a scan: folders first, then by lowercase name.
pub open spec fn scan_rank(a: FileView, b: FileView) -> Rank {
    order::chain(
        order::num_rank(display::mark(a.is_dir), display::mark(b.is_dir)),
        order::lex_rank(codes(text::lowercase(a.name)), codes(text::lowercase(b.name))),
    )
}

/// `out` is `input` in the order of a scan, `p[i]` being where `out[i]` stood.
pub open spec fn in_scan_order(p: Seq<int>, input: Seq<FileView>, out: Seq<FileView>) -> bool {
    &&& order::permutes(p, input, out)
    &&& forall|i: int, j: int|
        0 <= i < j < out.len() ==> scan_rank(#[trigger] out[i], #[trigger] out[j]) != Rank::After
            && (scan_rank(out[j], out[i]) != Rank::After ==> p[i] < p[j])
}

fn code_rank(a: &Vec<char>, b: &Vec<char>) -> (r: Rank)
    ensures
        r == order::lex_rank(codes(a@), codes(b@)),
{
    let mut i: usize = 0;
    let ghost (x, y) = (codes(a@), codes(b@));
    assert(x.skip(0) =~= x);
    assert(y.skip(0) =~= y);
    loop
        invariant
            i <= a.len(),
            i <= b.len(),
            x == codes(a@),
            y == codes(b@),
            order::lex_rank(x, y) == order::lex_rank(x.skip(i as int), y.skip(i as int)),
        decreases a.len() - i,
    {
        let ghost (s, t) = (x.skip(i as int), y.skip(i as int));
        if i >= a.len() {
            return if i >= b.len() {
                Rank::Same
            } else {
                Rank::Before
            };
        }
        if i >= b.len() {
            return Rank::After;
        }
        assert(s[0] == a@[i as int] as int && t[0] == b@[i as int] as int);
        if a[i] < b[i] {
            return Rank::Before;
        }
        if a[i] > b[i] {
            return Rank::After;
        }
        assert(s.drop_first() =~= x.skip(i + 1));
        assert(t.drop_first() =~= y.skip(i + 1));
        i = i + 1;
    }
}

/// The order of a scan.
struct ScanOrder {}

impl Preorder<FileItem> for ScanOrder {
    closed spec fn ready(&self) -> bool {
        true
    }

    closed spec fn le(&self, a: FileItem, b: FileItem) -> bool {
        scan_rank(a@, b@) != Rank::After
    }

    proof fn total(&self, a: FileItem, b: FileItem) {
        order::lemma_lex_flip(codes(text::lowercase(a@.name)), codes(text::lowercase(b@.name)));
    }

    proof fn transitive(&self, a: FileItem, b: FileItem, c: FileItem) {
        let x = codes(text::lowercase(a@.name));
        let y = codes(text::lowercase(b@.name));
        let z = codes(text::lowercase(c@.name));
        if order::lex_rank(x, y) != Rank::After && order::lex_rank(y, z) != Rank::After {
            order::lemma_lex_transitive(x, y, z);
        }
    }

    fn may_precede(&self, a: &FileItem, b: &FileItem) -> (r: bool) {
        match order::rank_marked(a.is_dir, b.is_dir) {
            Rank::Before => true,
            Rank::After => false,
            Rank::Same => {
                let x = text::chars_of(text::to_lowercase(a.name.as_str()).as_str());
                let y = text::chars_of(text::to_lowercase(b.name.as_str()).as_str());
                match code_rank(&x, &y) {
                    Rank::After => false,
                    _ => true,
                }
            },
        }
    }
}

fn take_names(files: &mut Vec<FileItem>, known: &TextMap<String>, given: &Vec<String>)
    requires
        known.wf(),
        given.len() == old(files).len(),
    ensures
        model::file_views(final(files)@) == named(
            model::file_views(old(files)@),
            known@,
            text::texts(given@),
        ),
{
    let ghost was = model::file_views(files@);
    let ghost g = text::texts(given@);
    let n: usize = files.len();
    let mut i: usize = 0;
    while i < n
        invariant
            i <= n == files@.len() == was.len() == given@.len(),
            g == text::texts(given@),
            known.wf(),
            forall|k: int| 0 <= k < i ==> (#[trigger] files@[k])@ == named(was, known@, g)[k],
            forall|k: int| i <= k < n ==> (#[trigger] files@[k])@ == was[k],
        decreases n - i,
    {
        assert(files@[i as int]@ == was[i as int]);
        let name = match known.get(files[i].path.as_str()) {
            Some(s) => s.clone(),
            None => given[i].clone(),
        };
        files[i].name = name;
        i = i + 1;
    }
    assert(model::file_views(files@) =~= named(was, known@, g));
}

fn dedup_by_display_name(files: &mut Vec<FileItem>)
    ensures
        model::file_views(final(files)@) == first_of_each_name(model::file_views(old(files)@)),
{
    let ghost was = model::file_views(files@);
    let ghost start = files@;
    let mut out: Vec<FileItem> = Vec::new();
    let mut seen: Vec<String> = Vec::new();
    let n: usize = files.len();
    let mut i: usize = 0;
    assert(model::file_views(out@) =~= first_of_each_name(was.take(0)));
    while i < n
        invariant
            i <= n == start.len() == was.len(),
            was == model::file_views(start),
            files@ == start.skip(i as int),
            model::file_views(out@) == first_of_each_name(was.take(i as int)),
            seen.len() == out.len(),
            forall|k: int|
                0 <= k < out.len() ==> (#[trigger] seen@[k])@ == text::lowercase(out@[k].name@),
        decreases n - i,
    {
        let ghost before = out@;
        let ghost b = model::file_views(before);
        let f = files.remove(0);
        proof {
            assert(f == start[i as int]);
            assert(files@ =~= start.skip(i + 1));
            assert(was.take(i + 1).drop_last() =~= was.take(i as int));
            assert(was.take(i + 1).last() == f@);
        }
        let key = text::to_lowercase(f.name.as_str());
        let known = text::has_text(&seen, key.as_str());
        proof {
            let s = text::texts(seen@);
            if known {
                let k = choose|k: int| 0 <= k < s.len() && s[k] == key@;
                assert(seen@[k]@ == key@);
                assert(b[k] == before[k]@);
                assert(has_name(b, f@.name));
            }
            if has_name(b, f@.name) {
                let k = choose|k: int|
                    0 <= k < b.len() && text::lowercase((#[trigger] b[k]).name) == text::lowercase(
                        f@.name,
                    );
                assert(b[k] == before[k]@);
                assert(seen@[k]@ == key@);
                assert(s[k] == key@);
            }
        }
        if !known {
            assert(model::file_views(before.push(f)) =~= b.push(f@));
            out.push(f);
            seen.push(key);
        }
        i = i + 1;
    }
    assert(was.take(n as int) =~= was);
    *files = out;
}

/// Gives the files of a scan their display names, keeps the first of each name and
/// sorts them. `given` holds, for each file, the name the system gives it; a file
/// whose path is in `known` takes that name instead.
pub fn finalize_scan_with(files: &mut Vec<FileItem>, known: &TextMap<String>, given: &Vec<String>)
    requires
        known.wf(),
        given.len() == old(files).len(),
    ensures
        exists|p: Seq<int>|
            in_scan_order(
                p,
                first_of_each_name(
                    named(model::file_views(old(files)@), known@, text::texts(given@)),
                ),
                model::file_views(final(files)@),
            ),
{
    take_names(files, known, given);
    dedup_by_display_name(files);
    let ghost input = files@;
    let o = ScanOrder {  };
    order::stable_sort(files, &o);
    proof {
        let p = choose|p: Seq<int>| order::sorted_from(&o, p, input, files@);
        let (a, b) = (model::file_views(input), model::file_views(files@));
        assert forall|i: int| 0 <= i < p.len() implies #[trigger] b[i] == a[p[i]] by {
            assert(files@[i] == input[p[i]]);
        }
        assert forall|i: int, j: int| 0 <= i < j < b.len() implies scan_rank(
            #[trigger] b[i],
            #[trigger] b[j],
        ) != Rank::After && (scan_rank(b[j], b[i]) != Rank::After ==> p[i] < p[j]) by {
            assert(o.le(files@[i], files@[j]));
            assert(o.le(files@[j], files@[i]) ==> p[i] < p[j]);
        }
        assert(in_scan_order(p, a, b));
    }
}

/// As `finalize_scan_with`, with no name known.
pub fn finalize_scan(files: &mut Vec<FileItem>, given: &Vec<String>)
    requires
        given.len() == old(files).len(),
    ensures
        exists|p: Seq<int>|
            in_scan_order(
                p,
                first_of_each_name(
                    named(
                        model::file_views(old(files)@),
                        Map::<Seq<char>, String>::empty(),
                        text::texts(given@),
                    ),
                ),
                model::file_views(final(files)@),
            ),
{
    let none: TextMap<String> = TextMap::new();
    finalize_scan_with(files, &none, given);
}

/// The names of the files.
pub open spec fn names_of(f: Seq<FileView>) -> Seq<Seq<char>> {
    Seq::new(f.len(), |i: int| f[i].name)
}

/// The files of the desktop under their display names, each name once and in order.
/// `shown` holds the display names by path; a file that has none there keeps the name
/// that the file system gives it.
pub fn scan_desktop(
    user: Option<&Listing>,
    public_desktop: Option<&Listing>,
    table: &Vec<CategoryDef>,
    show_hidden: bool,
    show_super: bool,
    shown: &TextMap<String>,
) -> (r: Vec<FileItem>)
    requires
        shown.wf(),
    ensures
        ({
            let found = desktop_shown(
                listing_view(user),
                listing_view(public_desktop),
                model::table_view(table@),
                show_hidden,
                show_super,
            );
            exists|p: Seq<int>|
                in_scan_order(
                    p,
                    first_of_each_name(named(found, shown@, names_of(found))),
                    model::file_views(r@),
                )
        }),
{
    let mut files = scan_desktop_raw(user, public_desktop, table, show_hidden, show_super);
    let ghost found = model::file_views(files@);
    let mut own: Vec<String> = Vec::new();
    let n: usize = files.len();
    let mut i: usize = 0;
    while i < n
        invariant
            i <= n == files@.len(),
            own@.len() == i,
            found == model::file_views(files@),
            forall|k: int| 0 <= k < i ==> (#[trigger] own@[k])@ == found[k].name,
        decreases n - i,
    {
        own.push(files[i].name.clone());
        i = i + 1;
    }
    assert(text::texts(own@) =~= names_of(found));
    finalize_scan_with(&mut files, shown, &own);
    files
}

proof fn lemma_first_of_each_name(f: Seq<FileView>)
    ensures
        forall|i: int, j: int|
            0 <= i < j < first_of_each_name(f).len() ==> text::lowercase(
                (#[trigger] first_of_each_name(f)[i]).name,
            ) != text::lowercase((#[trigger] first_of_each_name(f)[j]).name),
        forall|i: int| 0 <= i < f.len() ==> has_name(first_of_each_name(f), (#[trigger] f[i]).name),
    decreases f.len(),
{
    if f.len() > 0 {
        let p = f.drop_last();
        lemma_first_of_each_name(p);
        let (was, out) = (first_of_each_name(p), first_of_each_name(f));
        assert forall|i: int, j: int| 0 <= i < j < out.len() implies text::lowercase(
            (#[trigger] out[i]).name,
        ) != text::lowercase((#[trigger] out[j]).name) by {
            if j < was.len() {
                assert(out[i] == was[i] && out[j] == was[j]);
            } else {
                assert(out[i] == was[i]);
                assert(!has_name(was, f.last().name));
            }
        }
        assert forall|i: int| 0 <= i < f.len() implies has_name(out, (#[trigger] f[i]).name) by {
            let src = if i < p.len() || has_name(was, f.last().name) {
                if i < p.len() {
                    assert(p[i] == f[i]);
                }
                let k = choose|k: int|
                    0 <= k < was.len() && text::lowercase((#[trigger] was[k]).name)
                        == text::lowercase(f[i].name);
                k
            } else {
                was.len() as int
            };
            assert(text::lowercase(out[src].name) == text::lowercase(f[i].name));
        }
    }
}

/// Where both desktops hold a file of one display name, case aside, the user's is the
/// one that stays: of the files `mine` that come first all stay that stay without the
/// others, and of the others none has a name of theirs.
pub proof fn law_users_file_stays(mine: Seq<FileView>, others: Seq<FileView>)
    ensures
        ({
            let kept = first_of_each_name(mine);
            let all = first_of_each_name(mine + others);
            &&& kept.len() <= all.len()
            &&& all.take(kept.len() as int) == kept
            &&& forall|i: int|
                kept.len() <= i < all.len() ==> others.contains(#[trigger] all[i]) && !has_name(
                    mine,
                    all[i].name,
                )
        }),
    decreases others.len(),
{
    let kept = first_of_each_name(mine);
    let both = mine + others;
    let all = first_of_each_name(both);
    if others.len() == 0 {
        assert(both =~= mine);
    } else {
        let fewer = others.drop_last();
        law_users_file_stays(mine, fewer);
        assert(both.drop_last() =~= mine + fewer);
        let was = first_of_each_name(mine + fewer);
        let f = others.last();
        assert(all.take(kept.len() as int) =~= was.take(kept.len() as int));
        lemma_first_of_each_name(mine);
        assert forall|i: int| kept.len() <= i < all.len() implies others.contains(#[trigger] all[i])
            && !has_name(mine, all[i].name) by {
            if i < was.len() {
                assert(all[i] == was[i]);
                let k = choose|k: int| 0 <= k < fewer.len() && fewer[k] == was[i];
                assert(others[k] == was[i]);
            } else {
                assert(all[i] == f && others[others.len() - 1] == f);
                if has_name(mine, f.name) {
                    let k = choose|k: int|
                        0 <= k < mine.len() && text::lowercase((#[trigger] mine[k]).name)
                            == text::lowercase(f.name);
                    assert(has_name(kept, mine[k].name));
                    let m = choose|m: int|
                        0 <= m < kept.len() && text::lowercase((#[trigger] kept[m]).name)
                            == text::lowercase(mine[k].name);
                    assert(was.take(kept.len() as int)[m] == was[m]);
                    assert(has_name(was, f.name));
                }
            }
        }
    }
}

/// A scan shows no name twice, case aside, every name that was found, and the
/// folders first.
pub proof fn law_each_name_once(f: Seq<FileView>, p: Seq<int>, out: Seq<FileView>)
    requires
        in_scan_order(p, first_of_each_name(f), out),
    ensures
        forall|i: int| 0 <= i < f.len() ==> has_name(out, (#[trigger] f[i]).name),
        forall|i: int, j: int|
            0 <= i < j < out.len() ==> text::lowercase((#[trigger] out[i]).name)
                != text::lowercase((#[trigger] out[j]).name),
        forall|i: int, j: int|
            0 <= i < j < out.len() && (#[trigger] out[j]).is_dir ==> (#[trigger] out[i]).is_dir,
{
    let u = first_of_each_name(f);
    lemma_first_of_each_name(f);
    assert forall|i: int| 0 <= i < f.len() implies has_name(out, (#[trigger] f[i]).name) by {
        let k = choose|k: int|
            0 <= k < u.len() && text::lowercase((#[trigger] u[k]).name) == text::lowercase(
                f[i].name,
            );
        order::lemma_permutes_onto(p, u, out, k);
        let j = choose|j: int| 0 <= j < out.len() && p[j] == k;
        assert(out[j] == u[k]);
    }
    assert forall|i: int, j: int| 0 <= i < j < out.len() implies text::lowercase(
        (#[trigger] out[i]).name,
    ) != text::lowercase((#[trigger] out[j]).name) by {
        assert(out[i] == u[p[i]] && out[j] == u[p[j]]);
        assert(p[i] != p[j]);
        if p[i] < p[j] {
            assert(text::lowercase(u[p[i]].name) != text::lowercase(u[p[j]].name));
        } else {
            assert(text::lowercase(u[p[j]].name) != text::lowercase(u[p[i]].name));
        }
    }
    assert forall|i: int, j: int| 0 <= i < j < out.len() && (#[trigger] out[j]).is_dir implies (
    #[trigger] out[i]).is_dir by {
        assert(scan_rank(out[i], out[j]) != Rank::After);
    }
}

// ---------------------------------------------------------------- sharing the work

/// The most threads that ask the system for names or icons.
pub const SCAN_THREADS: usize = 4;

/// How many threads take a share of `n` files.
pub open spec fn threads_for(n: int) -> int {
    if n < SCAN_THREADS {
        n
    } else {
        SCAN_THREADS as int
    }
}

/// Where the share of thread `t` starts, of `n` files: each takes as many, rounded up,
/// and the last ones what is left.
pub open spec fn share_start(n: int, t: int) -> int {
    let at = t * ((n + threads_for(n) - 1) / threads_for(n));
    if at < n {
        at
    } else {
        n
    }
}

/// The runs of `n` files that the threads take, each from its first file to the first
/// of the next.
pub fn work_shares(n: usize) -> (r: Vec<(usize, usize)>)
    ensures
        r@.len() == threads_for(n as int),
        forall|t: int|
            0 <= t < r@.len() ==> (#[trigger] r@[t]).0 == share_start(n as int, t) && r@[t].1
                == share_start(n as int, t + 1),
        r@.len() > 0 ==> r@[0].0 == 0 && r@.last().1 == n,
{
    let mut out: Vec<(usize, usize)> = Vec::new();
    if n == 0 {
        return out;
    }
    let threads: usize = if n < SCAN_THREADS {
        n
    } else {
        SCAN_THREADS
    };
    let per: usize = (n - 1) / threads + 1;
    proof {
        assert((n - 1) / threads as int + 1 == (n + threads - 1) / threads as int)
            by (nonlinear_arith)
            requires
                threads >= 1,
                n >= 1,
        ;
        assert(threads * per >= n) by (nonlinear_arith)
            requires
                threads >= 1,
                n >= 1,
                per == (n - 1) / threads as int + 1,
        ;
    }
    let mut from: usize = 0;
    let mut t: usize = 0;
    while t < threads
        invariant
            1 <= threads <= n,
            threads == threads_for(n as int),
            per == (n + threads - 1) / threads as int,
            t <= threads,
            out@.len() == t,
            from == share_start(n as int, t as int),
            from <= n,
            forall|i: int|
                0 <= i < out@.len() ==> (#[trigger] out@[i]).0 == share_start(n as int, i)
                    && out@[i].1 == share_start(n as int, i + 1),
        decreases threads - t,
    {
        let left: usize = n - from;
        let take: usize = if left < per {
            left
        } else {
            per
        };
        assert((t + 1) * per == t * per + per) by (nonlinear_arith);
        out.push((from, from + take));
        from = from + take;
        t = t + 1;
    }
    out
}

/// How many scans in a row must miss a file before it is taken for gone.
pub const SCAN_MISS_DROP: u32 = 2;

/// The counts of missed scans after `paths` were removed by the program itself.
pub open spec fn counted_gone(m: Map<Seq<char>, u32>, paths: Seq<Seq<char>>) -> Map<Seq<char>, u32>
    decreases paths.len(),
{
    if paths.len() == 0 {
        m
    } else {
        counted_gone(m, paths.drop_last()).insert(paths.last(), SCAN_MISS_DROP)
    }
}

/// Notes that the program itself removed `paths`: the next scan takes them for gone
/// at once, and a scan that is running is void.
pub fn mark_scan_removed(desk: &mut Desk, misses: &mut TextMap<u32>, paths: &Vec<String>)
    requires
        old(misses).wf(),
    ensures
        final(misses).wf(),
        final(misses)@ == counted_gone(old(misses)@, text::texts(paths@)),
        final(desk)@ == (DeskView { epoch: desk::next_epoch(old(desk)@.epoch), ..old(desk)@ }),
        final(desk).wf() == old(desk).wf(),
{
    desk::invalidate_pending_scans(desk);
    let ghost all = text::texts(paths@);
    let ghost start = misses@;
    let mut i: usize = 0;
    assert(all.take(0) =~= Seq::empty());
    while i < paths.len()
        invariant
            i <= paths.len(),
            all == text::texts(paths@),
            misses.wf(),
            misses@ == counted_gone(start, all.take(i as int)),
        decreases paths.len() - i,
    {
        assert(all.take(i + 1).drop_last() =~= all.take(i as int));
        assert(all.take(i + 1).last() == paths@[i as int]@);
        misses.insert(paths[i].clone(), SCAN_MISS_DROP);
        i = i + 1;
    }
    assert(all.take(all.len() as int) =~= all);
}

/// Reads and clears the mark that something on the desktop has changed.
pub fn take_desktop_dirty(dirty: &mut bool) -> (r: bool)
    ensures
        r == *old(dirty),
        !*final(dirty),
{
    let r = *dirty;
    *dirty = false;
    r
}

// ---------------------------------------------------------------- icons

/// `r` is the size to take of an icon that is to be drawn `target` pixels wide: the
/// least of `sizes` that is large enough, else the greatest, and never 0.
pub open spec fn best_size(sizes: Seq<u32>, target: u32, r: Option<u32>) -> bool {
    match r {
        None => forall|i: int| 0 <= i < sizes.len() ==> #[trigger] sizes[i] == 0,
        Some(s) => {
            &&& s > 0
            &&& sizes.contains(s)
            &&& if s >= target {
                forall|i: int|
                    0 <= i < sizes.len() && #[trigger] sizes[i] >= target && sizes[i] > 0
                        ==> s <= sizes[i]
            } else {
                forall|i: int|
                    0 <= i < sizes.len() ==> #[trigger] sizes[i] < target && sizes[i] <= s
            }
        },
    }
}

/// The size to take of an icon that is to be drawn `target_px` pixels wide.
pub fn select_image_size(sizes: &Vec<u32>, target_px: u32) -> (r: Option<u32>)
    ensures
        best_size(sizes@, target_px, r),
{
    let mut enough: Option<u32> = None;
    let mut below: Option<u32> = None;
    let mut i: usize = 0;
    while i < sizes.len()
        invariant
            i <= sizes.len(),
            match enough {
                Some(s) => s > 0 && s >= target_px && sizes@.contains(s) && forall|k: int|
                    0 <= k < i && #[trigger] sizes@[k] >= target_px && sizes@[k] > 0 ==> s
                        <= sizes@[k],
                None => forall|k: int|
                    0 <= k < i ==> #[trigger] sizes@[k] < target_px || sizes@[k] == 0,
            },
            match below {
                Some(s) => s > 0 && s < target_px && sizes@.contains(s) && forall|k: int|
                    0 <= k < i && #[trigger] sizes@[k] < target_px ==> sizes@[k] <= s,
                None => forall|k: int|
                    0 <= k < i ==> #[trigger] sizes@[k] >= target_px || sizes@[k] == 0,
            },
        decreases sizes.len() - i,
    {
        let size: u32 = sizes[i];
        assert(sizes@.contains(size)) by {
            assert(sizes@[i as int] == size);
        }
        if size > 0 {
            if size >= target_px {
                enough = match enough {
                    Some(best) => Some(if size < best {
                        size
                    } else {
                        best
                    }),
                    None => Some(size),
                };
            } else {
                below = match below {
                    Some(best) => Some(if size > best {
                        size
                    } else {
                        best
                    }),
                    None => Some(size),
                };
            }
        }
        i = i + 1;
    }
    if enough.is_some() {
        enough
    } else {
        below
    }
}

// ---------------------------------------------------------------- what a scan means

/// Case is put aside for the letters from A to Z, and for nothing else.
pub proof fn law_ascii_case_is_put_aside(a: Seq<char>, b: Seq<char>)
    ensures
        same_ascii(a, b) <==> a.len() == b.len() && forall|i: int|
            0 <= i < a.len() ==> {
                ||| #[trigger] a[i] == b[i]
                ||| 'A' <= a[i] <= 'Z' && b[i] as int == a[i] as int + 32
                ||| 'A' <= b[i] <= 'Z' && a[i] as int == b[i] as int + 32
            },
{
    if same_ascii(a, b) {
        assert forall|i: int| 0 <= i < a.len() implies {
            ||| #[trigger] a[i] == b[i]
            ||| 'A' <= a[i] <= 'Z' && b[i] as int == a[i] as int + 32
            ||| 'A' <= b[i] <= 'Z' && a[i] as int == b[i] as int + 32
        } by {
            assert(ascii_lower(a[i]) == ascii_lower(b[i]));
        }
    }
}

/// An entry is listed behind those before it, under its own name and with the time it
/// has, where it is to be seen: `desktop.ini` and the locks of open documents never are,
/// system files and hidden files only where they are asked for.
pub proof fn law_entry_is_listed_where_it_is_shown(
    es: Seq<RawView>,
    e: RawView,
    table: Seq<CategoryView>,
    show_hidden: bool,
    show_super: bool,
)
    ensures
        ({
            let was = files_shown(es, table, show_hidden, show_super);
            let now = files_shown(es.push(e), table, show_hidden, show_super);
            let lock = e.name.len() >= 2 && e.name[0] == '~' && e.name[1] == '$';
            let seen = !same_ascii(e.name, "desktop.ini"@) && !lock && (show_super || e.attrs & 4
                == 0) && (show_hidden || e.attrs & 2 == 0);
            let f = now.last();
            &&& files_shown(Seq::empty(), table, show_hidden, show_super).len() == 0
            &&& !seen ==> now == was
            &&& seen ==> now == was.push(f) && f.name == e.name && f.path == e.path && f.is_dir
                == e.is_dir && f.mtime_ms == e.mtime_ms && f.category == model::category_of(
                table,
                e.name,
                e.is_dir,
            )
            &&& seen && e.is_dir ==> f.ext.len() == 0
            &&& seen && !e.is_dir ==> f.ext == text::lowercase(file_extension(e.name))
        }),
{
    assert(es.push(e).drop_last() =~= es);
}

/// The extension of a file follows its last dot, but a dot at the start is no such dot.
pub proof fn law_leading_dot_makes_no_extension(p: Seq<char>, e: Seq<char>)
    requires
        !e.contains('.'),
    ensures
        p.len() > 0 ==> file_extension(p + seq!['.'] + e) == e,
        file_extension(seq!['.'] + e) == Seq::<char>::empty(),
        file_extension(e) == Seq::<char>::empty(),
{
    model::law_extension_follows_the_last_dot(p, e);
    let s = p + seq!['.'] + e;
    if p.len() > 0 {
        let t = s.drop_first();
        assert(t[p.len() - 1] == '.');
        assert(t.contains('.'));
    }
    let d = seq!['.'] + e;
    assert(d.drop_first() =~= e);
    assert(d[0] == '.');
    if e.len() > 0 {
        assert(e.contains(e[0]));
    }
}

/// The desktop lists the user's files and then the public ones; where both are one
/// directory, case aside, that is listed once. A directory that is missing holds nothing.
pub proof fn law_both_desktops_are_listed(
    user: ListingView,
    other: ListingView,
    t: Seq<CategoryView>,
    show_hidden: bool,
    show_super: bool,
)
    ensures
        ({
            let mine = files_shown(user.entries, t, show_hidden, show_super);
            let theirs = files_shown(other.entries, t, show_hidden, show_super);
            let both = desktop_shown(Some(user), Some(other), t, show_hidden, show_super);
            &&& both == (if same_ascii(user.dir, other.dir) {
                mine
            } else {
                mine + theirs
            })
            &&& desktop_shown(Some(user), None, t, show_hidden, show_super) == mine
            &&& desktop_shown(None, Some(other), t, show_hidden, show_super) == theirs
            &&& desktop_shown(None, None, t, show_hidden, show_super).len() == 0
        }),
{
    let mine = files_shown(user.entries, t, show_hidden, show_super);
    let theirs = files_shown(other.entries, t, show_hidden, show_super);
    let none = Seq::<FileView>::empty();
    assert(mine + none =~= mine);
    assert(none + theirs =~= theirs);
    assert(none + none =~= none);
}

/// A file takes the display name that is known of its path, and else the one the system
/// gives it; nothing else of it changes.
pub proof fn law_known_names_are_shown(
    f: Seq<FileView>,
    known: Map<Seq<char>, String>,
    given: Seq<Seq<char>>,
    i: int,
)
    requires
        0 <= i < f.len(),
    ensures
        named(f, known, given).len() == f.len(),
        known.contains_key(f[i].path) ==> named(f, known, given)[i] == (FileView {
            name: known[f[i].path]@,
            ..f[i]
        }),
        !known.contains_key(f[i].path) ==> named(f, known, given)[i] == (FileView {
            name: given[i],
            ..f[i]
        }),
{
}

/// Of the files with one name, case aside, the first stays.
pub proof fn law_first_of_a_name_stays(f: Seq<FileView>, i: int)
    requires
        0 <= i < f.len(),
        forall|j: int|
            0 <= j < i ==> text::lowercase((#[trigger] f[j]).name) != text::lowercase(f[i].name),
    ensures
        first_of_each_name(f).contains(f[i]),
    decreases f.len(),
{
    let h = f.drop_last();
    let (was, out) = (first_of_each_name(h), first_of_each_name(f));
    if i < h.len() {
        assert forall|j: int| 0 <= j < i implies text::lowercase((#[trigger] h[j]).name)
            != text::lowercase(h[i].name) by {
            assert(f[j] == h[j]);
        }
        law_first_of_a_name_stays(h, i);
        let k = choose|k: int| 0 <= k < was.len() && was[k] == f[i];
        assert(out[k] == f[i]);
    } else {
        lemma_kept_were_there(h);
        if has_name(was, f.last().name) {
            let k = choose|k: int|
                0 <= k < was.len() && text::lowercase((#[trigger] was[k]).name) == text::lowercase(
                    f.last().name,
                );
            assert(h.contains(was[k]));
            let j = choose|j: int| 0 <= j < h.len() && h[j] == was[k];
            assert(f[j] == h[j]);
        }
        assert(out[out.len() - 1] == f[i]);
    }
}

proof fn lemma_kept_were_there(f: Seq<FileView>)
    ensures
        forall|k: int|
            0 <= k < first_of_each_name(f).len() ==> f.contains(
                #[trigger] first_of_each_name(f)[k],
            ),
    decreases f.len(),
{
    if f.len() > 0 {
        let h = f.drop_last();
        lemma_kept_were_there(h);
        let (was, out) = (first_of_each_name(h), first_of_each_name(f));
        assert forall|k: int| 0 <= k < out.len() implies f.contains(#[trigger] out[k]) by {
            if k < was.len() {
                assert(out[k] == was[k]);
                let j = choose|j: int| 0 <= j < h.len() && h[j] == was[k];
                assert(f[j] == out[k]);
            } else {
                assert(f[f.len() - 1] == out[k]);
            }
        }
    }
}

proof fn lemma_lex_at(a: Seq<int>, b: Seq<int>, k: int)
    requires
        order::lex_rank(a, b) != Rank::After,
        0 <= k <= a.len(),
        k <= b.len(),
        a.take(k) == b.take(k),
    ensures
        k < a.len() && k < b.len() ==> a[k] <= b[k],
        k == b.len() ==> k == a.len(),
    decreases k,
{
    if k > 0 {
        let (x, y) = (a.drop_first(), b.drop_first());
        let (t, u) = (a.take(k), b.take(k));
        assert forall|i: int| 0 <= i < k implies #[trigger] a[i] == b[i] by {
            assert(t[i] == a[i]);
            assert(u[i] == b[i]);
        }
        assert(x.take(k - 1) =~= y.take(k - 1)) by {
            assert forall|i: int| 0 <= i < k - 1 implies x[i] == y[i] by {
                assert(a[i + 1] == b[i + 1]);
            }
        }
        lemma_lex_at(x, y, k - 1);
    }
}

/// A scan lists the folders first, and folders and files by their names in lowercase:
/// where two names are alike up to a place, the lesser character there comes first, and a
/// name comes before one that goes on from it.
pub proof fn law_scan_is_in_order_of_names(
    p: Seq<int>,
    input: Seq<FileView>,
    out: Seq<FileView>,
    i: int,
    j: int,
    k: int,
)
    requires
        in_scan_order(p, input, out),
        0 <= i < j < out.len(),
        0 <= k <= text::lowercase(out[i].name).len(),
        k <= text::lowercase(out[j].name).len(),
        text::lowercase(out[i].name).take(k) == text::lowercase(out[j].name).take(k),
    ensures
        ({
            let (x, y) = (text::lowercase(out[i].name), text::lowercase(out[j].name));
            &&& out[j].is_dir ==> out[i].is_dir
            &&& out[i].is_dir == out[j].is_dir && k < x.len() && k < y.len() ==> x[k] <= y[k]
            &&& out[i].is_dir == out[j].is_dir && k == y.len() ==> k == x.len()
        }),
{
    let (x, y) = (text::lowercase(out[i].name), text::lowercase(out[j].name));
    assert(scan_rank(out[i], out[j]) != Rank::After);
    if out[i].is_dir == out[j].is_dir {
        let (c, d) = (codes(x), codes(y));
        assert(c.take(k) =~= d.take(k)) by {
            assert forall|m: int| 0 <= m < k implies c[m] == d[m] by {
                assert(x.take(k)[m] == y.take(k)[m]);
            }
        }
        lemma_lex_at(c, d, k);
    }
}

/// The work is shared by four threads, or by fewer where there are fewer files: the shares
/// follow each other from the first file to the last, and none takes more than an even
/// share, rounded up.
pub proof fn law_work_is_shared_evenly(n: int, t: int)
    requires
        n > 0,
        0 <= t < threads_for(n),
    ensures
        threads_for(n) == (if n < 4 {
            n
        } else {
            4
        }),
        share_start(n, 0) == 0,
        share_start(n, threads_for(n)) == n,
        0 <= share_start(n, t) <= share_start(n, t + 1) <= n,
        (share_start(n, t + 1) - share_start(n, t) - 1) * threads_for(n) < n,
        share_start(n, t + 1) < n ==> (share_start(n, t + 1) - share_start(n, t)) * threads_for(n)
            >= n,
{
    let k = threads_for(n);
    let per = (n + k - 1) / k;
    assert(per * k >= n && (per - 1) * k < n) by (nonlinear_arith)
        requires
            per == (n + k - 1) / k,
            k >= 1,
            n >= 1,
    ;
    assert(k * per == per * k) by (nonlinear_arith);
    assert(0 <= t * per) by (nonlinear_arith)
        requires
            t >= 0,
            per >= 0,
    ;
    assert((t + 1) * per == t * per + per) by (nonlinear_arith);
    assert(0 * per == 0) by (nonlinear_arith);
    let d = share_start(n, t + 1) - share_start(n, t);
    assert(d <= per);
    assert((d - 1) * k <= (per - 1) * k) by (nonlinear_arith)
        requires
            d <= per,
            k >= 1,
    ;
}

/// A file that the program removed counts as missed by two scans, as many as make it gone;
/// the counts of others stay.
pub proof fn law_removed_files_are_gone_at_once(
    m: Map<Seq<char>, u32>,
    paths: Seq<Seq<char>>,
    x: Seq<char>,
)
    ensures
        paths.contains(x) ==> counted_gone(m, paths).contains_key(x) && counted_gone(m, paths)[x]
            == 2,
        !paths.contains(x) ==> (counted_gone(m, paths).contains_key(x) <==> m.contains_key(x))
            && counted_gone(m, paths)[x] == m[x],
    decreases paths.len(),
{
    if paths.len() > 0 {
        let h = paths.drop_last();
        law_removed_files_are_gone_at_once(m, h, x);
        assert(paths[paths.len() - 1] == paths.last());
        if h.contains(x) {
            let i = choose|i: int| 0 <= i < h.len() && h[i] == x;
            assert(paths[i] == x);
        }
        if paths.contains(x) && x != paths.last() {
            let i = choose|i: int| 0 <= i < paths.len() && paths[i] == x;
            assert(h[i] == x);
        }
    }
}

/// An icon is taken in the least size that is large enough; where none is, in the
/// greatest; and in none only where there is none.
pub proof fn law_icon_is_large_enough(sizes: Seq<u32>, target: u32, r: Option<u32>, i: int)
    requires
        best_size(sizes, target, r),
        0 <= i < sizes.len(),
        sizes[i] > 0,
    ensures
        r is Some,
        sizes.contains(r->0),
        r->0 > 0,
        sizes[i] >= target ==> target <= r->0 <= sizes[i],
        sizes[i] < target && r->0 < target ==> sizes[i] <= r->0,
{
}

} // verus!

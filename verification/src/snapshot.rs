//! What of the icons in memory goes into the file of the icon cache.
use crate::bytes;
use crate::iconcache;
use crate::iconcache::{RawIcon, RawName};
use crate::model;
use crate::model::{FileItem, FileView};
use crate::order;
use crate::order::Preorder;
use crate::text;
use crate::text_map::TextMap;
use vstd::prelude::*;

verus! {

/// When each file was changed last, by its path.
pub open spec fn mtimes_of(files: Seq<FileView>) -> Map<Seq<char>, u64>
    decreases files.len(),
{
    if files.len() == 0 {
        Map::empty()
    } else {
        mtimes_of(files.drop_last()).insert(files.last().path, files.last().mtime_ms)
    }
}

/// When each file was changed last, by its path.
pub fn expected_mtimes(files: &Vec<FileItem>) -> (r: TextMap<u64>)
    ensures
        r.wf(),
        r@ == mtimes_of(model::file_views(files@)),
{
    let ghost f = model::file_views(files@);
    let mut out: TextMap<u64> = TextMap::new();
    let mut i: usize = 0;
    assert(f.take(0) =~= Seq::empty());
    while i < files.len()
        invariant
            i <= files.len(),
            f == model::file_views(files@),
            out.wf(),
            out@ == mtimes_of(f.take(i as int)),
        decreases files.len() - i,
    {
        assert(f.take(i + 1).drop_last() =~= f.take(i as int));
        assert(f.take(i + 1).last() == files@[i as int]@);
        out.insert(files[i].path.clone(), files[i].mtime_ms);
        i = i + 1;
    }
    assert(f.take(f.len() as int) =~= f);
    out
}

/// The part of a key behind its first zero character.
pub open spec fn size_part(key: Seq<char>) -> Seq<char> {
    key.skip(text::before(key, '\0').len() as int + 1)
}

/// An icon is saved: its key names a file that was found, with a time, and the size
/// `px`, and it has the bytes of an icon of that size.
pub open spec fn saved(key: Seq<char>, len: int, mtimes: Map<Seq<char>, u64>, px: nat) -> bool {
    let path = text::before(key, '\0');
    &&& key.contains('\0')
    &&& text::number_in(size_part(key), u32::MAX as nat) == Some(px)
    &&& len == px * px * 4
    &&& len <= iconcache::ICON_ENTRY_MAX_BYTES
    &&& mtimes.contains_key(path)
    &&& mtimes[path] != 0
}

/// The contents of the icons in memory.
pub open spec fn icon_views(v: Seq<(String, Vec<u8>)>) -> Seq<(Seq<char>, Seq<u8>)> {
    Seq::new(v.len(), |i: int| (v[i].0@, v[i].1@))
}

/// The icons that are saved, with the times of their files.
pub open spec fn saved_icons(
    icons: Seq<(Seq<char>, Seq<u8>)>,
    mtimes: Map<Seq<char>, u64>,
    px: nat,
) -> Seq<RawIcon>
    decreases icons.len(),
{
    if icons.len() == 0 {
        Seq::empty()
    } else {
        let r = saved_icons(icons.drop_last(), mtimes, px);
        let (key, data) = icons.last();
        if saved(key, data.len() as int, mtimes, px) {
            r.push(RawIcon { key, mtime: mtimes[text::before(key, '\0')] as nat, data })
        } else {
            r
        }
    }
}

/// The display names of all files.
pub open spec fn saved_names(files: Seq<FileView>) -> Seq<RawName> {
    Seq::new(files.len(), |i: int| RawName { path: files[i].path, display: files[i].name })
}

/// The most icons that are saved.
pub const SAVE_LIMIT: usize = 512;

/// `out` are the icons of `all` that are saved: all of them, or, where they are too
/// many, those of the files that were changed last, in that order; of files of one
/// time the ones that stand last.
pub open spec fn newest(all: Seq<RawIcon>, out: Seq<RawIcon>) -> bool {
    if all.len() <= SAVE_LIMIT {
        out == all
    } else {
        exists|p: Seq<int>, sorted: Seq<RawIcon>| #[trigger]
            by_time(p, all, sorted) && out == sorted.skip(all.len() - SAVE_LIMIT)
    }
}

/// `sorted` is `all` by time, `p[i]` being where `sorted[i]` stood.
pub open spec fn by_time(p: Seq<int>, all: Seq<RawIcon>, sorted: Seq<RawIcon>) -> bool {
    &&& order::permutes(p, all, sorted)
    &&& forall|i: int, j: int|
        0 <= i < j < sorted.len() ==> (#[trigger] sorted[i]).mtime <= (
        #[trigger] sorted[j]).mtime && (sorted[i].mtime == sorted[j].mtime ==> p[i] < p[j])
}

/// The order of icons by the time of their files.
struct ByTime {}

impl Preorder<(String, u64, Vec<u8>)> for ByTime {
    closed spec fn ready(&self) -> bool {
        true
    }

    closed spec fn le(&self, a: (String, u64, Vec<u8>), b: (String, u64, Vec<u8>)) -> bool {
        a.1 <= b.1
    }

    proof fn total(&self, a: (String, u64, Vec<u8>), b: (String, u64, Vec<u8>)) {
    }

    proof fn transitive(
        &self,
        a: (String, u64, Vec<u8>),
        b: (String, u64, Vec<u8>),
        c: (String, u64, Vec<u8>),
    ) {
    }

    fn may_precede(&self, a: &(String, u64, Vec<u8>), b: &(String, u64, Vec<u8>)) -> (r: bool) {
        a.1 <= b.1
    }
}

fn path_to_save(key: &str, len: usize, mtimes: &TextMap<u64>, px: u32) -> (r: Option<u64>)
    requires
        mtimes.wf(),
        px * px * 4 <= usize::MAX,
    ensures
        match r {
            Some(t) => saved(key@, len as int, mtimes@, px as nat) && t == mtimes@[text::before(
                key@,
                '\0',
            )],
            None => !saved(key@, len as int, mtimes@, px as nat),
        },
{
    let v = text::chars_of(key);
    let n: usize = text::len_before(&v, '\0');
    if n >= v.len() {
        assert(!key@.contains('\0'));
        return None;
    }
    assert(key@.contains('\0')) by {
        assert(key@[n as int] == '\0');
    }
    let path = text::string_of(&v, 0, n);
    let size = text::string_of(&v, n + 1, v.len());
    assert(path@ =~= text::before(key@, '\0'));
    assert(size@ =~= size_part(key@));
    match text::parse_u32(size.as_str()) {
        None => None,
        Some(x) => {
            if x != px {
                return None;
            }
            proof {
                assert(0 <= px * px) by (nonlinear_arith)
                    requires
                        px >= 0,
                ;
            }
            let square: usize = px as usize * px as usize;
            let want: usize = square * 4;
            if len != want || want > iconcache::ICON_ENTRY_MAX_BYTES {
                return None;
            }
            match mtimes.get(path.as_str()) {
                None => None,
                Some(t) => {
                    if *t == 0 {
                        None
                    } else {
                        Some(*t)
                    }
                },
            }
        },
    }
}

/// The icons and the names that go into the file, of the icons in memory and the
/// files of the last scan; nothing where no icon is saved.
pub fn icon_cache_snapshot(
    icons: &Vec<(String, Vec<u8>)>,
    files: &Vec<FileItem>,
    px: u32,
) -> (r: Option<(Vec<(String, u64, Vec<u8>)>, Vec<(String, String)>)>)
    requires
        px * px * 4 <= usize::MAX,
    ensures
        ({
            let f = model::file_views(files@);
            let all = saved_icons(icon_views(icons@), mtimes_of(f), px as nat);
            match r {
                None => all.len() == 0,
                Some((es, ns)) => all.len() > 0 && newest(all, iconcache::raw_icons(es@))
                    && iconcache::raw_names(ns@) == saved_names(f),
            }
        }),
{
    let mtimes = expected_mtimes(files);
    let ghost m = mtimes@;
    let ghost ic = icon_views(icons@);
    let mut out: Vec<(String, u64, Vec<u8>)> = Vec::new();
    let mut i: usize = 0;
    assert(ic.take(0) =~= Seq::empty());
    assert(iconcache::raw_icons(out@) =~= Seq::empty());
    while i < icons.len()
        invariant
            i <= icons.len(),
            px * px * 4 <= usize::MAX,
            mtimes.wf(),
            m == mtimes@,
            ic == icon_views(icons@),
            iconcache::raw_icons(out@) == saved_icons(ic.take(i as int), m, px as nat),
        decreases icons.len() - i,
    {
        let ghost before = out@;
        assert(ic.take(i + 1).drop_last() =~= ic.take(i as int));
        assert(ic.take(i + 1).last() == (icons@[i as int].0@, icons@[i as int].1@));
        match path_to_save(icons[i].0.as_str(), icons[i].1.len(), &mtimes, px) {
            None => {},
            Some(t) => {
                let data = bytes::copy_bytes(icons[i].1.as_slice(), 0, icons[i].1.len());
                assert(data@ =~= icons@[i as int].1@);
                let e = (icons[i].0.clone(), t, data);
                out.push(e);
                assert(iconcache::raw_icons(out@) =~= iconcache::raw_icons(before).push(
                    iconcache::raw_icon(e),
                ));
            },
        }
        i = i + 1;
    }
    assert(ic.take(ic.len() as int) =~= ic);
    let ghost all = iconcache::raw_icons(out@);
    if out.len() == 0 {
        return None;
    }
    if out.len() > SAVE_LIMIT {
        let ghost input = out@;
        let o = ByTime {  };
        order::stable_sort(&mut out, &o);
        let n: usize = out.len();
        let ghost sorted = out@;
        let rest = out.split_off(n - SAVE_LIMIT);
        proof {
            let p = choose|p: Seq<int>| order::sorted_from(&o, p, input, sorted);
            let (a, b) = (iconcache::raw_icons(input), iconcache::raw_icons(sorted));
            assert forall|i: int| 0 <= i < p.len() implies #[trigger] b[i] == a[p[i]] by {
                assert(sorted[i] == input[p[i]]);
            }
            assert forall|i: int, j: int| 0 <= i < j < b.len() implies (
            #[trigger] b[i]).mtime <= (#[trigger] b[j]).mtime && (b[i].mtime == b[j].mtime
                ==> p[i] < p[j]) by {
                assert(o.le(sorted[i], sorted[j]));
                assert(o.le(sorted[j], sorted[i]) ==> p[i] < p[j]);
            }
            assert(by_time(p, a, b));
            assert(iconcache::raw_icons(rest@) =~= b.skip(n - SAVE_LIMIT));
        }
        out = rest;
    }
    let mut names: Vec<(String, String)> = Vec::new();
    let mut k: usize = 0;
    while k < files.len()
        invariant
            k <= files.len(),
            names@.len() == k,
            forall|q: int|
                0 <= q < k ==> iconcache::raw_name(#[trigger] names@[q]) == saved_names(
                    model::file_views(files@),
                )[q],
        decreases files.len() - k,
    {
        names.push((files[k].path.clone(), files[k].name.clone()));
        k = k + 1;
    }
    assert(iconcache::raw_names(names@) =~= saved_names(model::file_views(files@)));
    Some((out, names))
}

/// Of too many icons those of the newest files are saved: none that is left out has a
/// newer file than one that is saved.
pub proof fn law_newest_icons_are_saved(all: Seq<RawIcon>, out: Seq<RawIcon>, k: int)
    requires
        newest(all, out),
        0 <= k < all.len(),
    ensures
        out.contains(all[k]) || forall|i: int|
            0 <= i < out.len() ==> all[k].mtime <= (#[trigger] out[i]).mtime,
        out.len() <= SAVE_LIMIT,
{
    if all.len() > SAVE_LIMIT {
        let (p, sorted) = choose|p: Seq<int>, sorted: Seq<RawIcon>| #[trigger]
            by_time(p, all, sorted) && out == sorted.skip(all.len() - SAVE_LIMIT);
        let cut = all.len() - SAVE_LIMIT;
        order::lemma_permutes_onto(p, all, sorted, k);
        let j = choose|j: int| 0 <= j < sorted.len() && p[j] == k;
        assert(sorted[j] == all[k]);
        if j >= cut {
            assert(out[j - cut] == all[k]);
        } else {
            assert forall|i: int| 0 <= i < out.len() implies all[k].mtime <= (
            #[trigger] out[i]).mtime by {
                assert(out[i] == sorted[cut + i]);
                assert(sorted[j].mtime <= sorted[cut + i].mtime);
            }
        }
    } else {
        assert(out[k] == all[k]);
    }
}

proof fn lemma_saved_icons(
    icons: Seq<(Seq<char>, Seq<u8>)>,
    mtimes: Map<Seq<char>, u64>,
    px: nat,
    k: int,
)
    requires
        0 <= k < saved_icons(icons, mtimes, px).len(),
    ensures
        ({
            let e = saved_icons(icons, mtimes, px)[k];
            &&& saved(e.key, e.data.len() as int, mtimes, px)
            &&& e.mtime == mtimes[text::before(e.key, '\0')]
        }),
    decreases icons.len(),
{
    let was = saved_icons(icons.drop_last(), mtimes, px);
    if k < was.len() {
        lemma_saved_icons(icons.drop_last(), mtimes, px, k);
        assert(saved_icons(icons, mtimes, px)[k] == was[k]);
    }
}

/// An icon that is saved is read back, as long as its file has not changed, where its
/// key writes the size as the program does.
pub proof fn law_saved_icons_are_accepted(
    icons: Seq<(Seq<char>, Seq<u8>)>,
    mtimes: Map<Seq<char>, u64>,
    px: nat,
    k: int,
)
    requires
        0 <= k < saved_icons(icons, mtimes, px).len(),
        text::ends_in(saved_icons(icons, mtimes, px)[k].key, iconcache::px_suffix(px)),
    ensures
        iconcache::icon_accepted(saved_icons(icons, mtimes, px)[k], px, mtimes),
{
    lemma_saved_icons(icons, mtimes, px, k);
}

/// Every file that was found has its time, the last one where it was found twice; other
/// paths have none.
pub proof fn law_found_files_have_their_time(files: Seq<FileView>, i: int, path: Seq<char>)
    requires
        0 <= i < files.len(),
        forall|j: int| i < j < files.len() ==> (#[trigger] files[j]).path != files[i].path,
    ensures
        mtimes_of(files).contains_key(files[i].path),
        mtimes_of(files)[files[i].path] == files[i].mtime_ms,
        mtimes_of(files).contains_key(path) ==> exists|k: int|
            0 <= k < files.len() && (#[trigger] files[k]).path == path,
    decreases files.len(),
{
    lemma_only_found_files(files, path);
    let h = files.drop_last();
    if i < h.len() {
        assert forall|j: int| i < j < h.len() implies (#[trigger] h[j]).path != h[i].path by {
            assert(files[j].path != files[i].path);
        }
        law_found_files_have_their_time(h, i, path);
        assert(files[files.len() - 1].path != files[i].path);
    }
}

proof fn lemma_only_found_files(files: Seq<FileView>, path: Seq<char>)
    ensures
        mtimes_of(files).contains_key(path) ==> exists|k: int|
            0 <= k < files.len() && (#[trigger] files[k]).path == path,
    decreases files.len(),
{
    if files.len() > 0 && mtimes_of(files).contains_key(path) {
        let h = files.drop_last();
        lemma_only_found_files(h, path);
        if files.last().path == path {
            assert(files[files.len() - 1].path == path);
        } else {
            let k = choose|k: int| 0 <= k < h.len() && (#[trigger] h[k]).path == path;
            assert(files[k] == h[k]);
        }
    }
}

/// The icons that are saved are those that belong to a file that was found, whose time is
/// known, and that have the size `px`, with four bytes to a pixel and 262144 at most; they
/// keep their order, their key and their bytes.
pub proof fn law_whole_icons_are_saved(
    icons: Seq<(Seq<char>, Seq<u8>)>,
    path: Seq<char>,
    digits: Seq<char>,
    data: Seq<u8>,
    mtimes: Map<Seq<char>, u64>,
    px: nat,
)
    requires
        !path.contains('\0'),
    ensures
        ({
            let key = path + seq!['\0'] + digits;
            let was = saved_icons(icons, mtimes, px);
            let now = saved_icons(icons.push((key, data)), mtimes, px);
            let whole = text::number_in(digits, u32::MAX as nat) == Some(px) && data.len() == px * px
                * 4 && data.len() <= 262144 && mtimes.contains_key(path) && mtimes[path] > 0;
            &&& whole ==> now == was.push(RawIcon { key, mtime: mtimes[path] as nat, data })
            &&& !whole ==> now == was
            &&& saved_icons(Seq::empty(), mtimes, px).len() == 0
            &&& saved_icons(icons.push((path, data)), mtimes, px) == was
        }),
{
    let key = path + seq!['\0'] + digits;
    let n = path.len() as int;
    assert(key[n] == '\0');
    assert(key.contains('\0'));
    assert forall|j: int| 0 <= j < n implies #[trigger] key[j] != '\0' by {
        assert(path.contains(path[j]));
    }
    text::lemma_before(key, '\0', n);
    assert(key.subrange(0, n) =~= path);
    assert(size_part(key) =~= digits);
    assert(icons.push((key, data)).drop_last() =~= icons);
    assert(icons.push((path, data)).drop_last() =~= icons);
}

/// All icons are saved where there are 512 at most; else 512 are, the oldest first.
pub proof fn law_as_many_icons_as_fit_are_saved(all: Seq<RawIcon>, out: Seq<RawIcon>)
    requires
        newest(all, out),
    ensures
        all.len() <= 512 ==> out == all,
        all.len() > 512 ==> out.len() == 512 && forall|i: int, j: int|
            0 <= i < j < 512 ==> (#[trigger] out[i]).mtime <= (#[trigger] out[j]).mtime,
{
    if all.len() > 512 {
        let (p, sorted) = choose|p: Seq<int>, sorted: Seq<RawIcon>| #[trigger]
            by_time(p, all, sorted) && out == sorted.skip(all.len() - SAVE_LIMIT);
        let cut = all.len() - 512;
        assert forall|i: int, j: int| 0 <= i < j < 512 implies (#[trigger] out[i]).mtime <= (
        #[trigger] out[j]).mtime by {
            assert(out[i] == sorted[cut + i]);
            assert(out[j] == sorted[cut + j]);
        }
    }
}

/// Every file is saved with its name.
pub proof fn law_all_names_are_saved(files: Seq<FileView>, i: int)
    requires
        0 <= i < files.len(),
    ensures
        saved_names(files).len() == files.len(),
        saved_names(files)[i].path == files[i].path,
        saved_names(files)[i].display == files[i].name,
{
}

} // verus!

//! The things on the desktop: files, the category table, fences, and the grid of
//! cells inside a fence.
use crate::text;
use vstd::prelude::*;

verus! {

// ---------------------------------------------------------------- files

/// A file or folder of the desktop.
pub struct FileItem {
    pub name: String,
    pub path: String,
    pub is_dir: bool,
    pub ext: String,
    pub category: String,
    /// Last modification in milliseconds of the epoch; 0 where unknown.
    pub mtime_ms: u64,
}

impl Clone for FileItem {
    fn clone(&self) -> (r: Self)
        ensures
            r == *self,
    {
        FileItem {
            name: self.name.clone(),
            path: self.path.clone(),
            is_dir: self.is_dir,
            ext: self.ext.clone(),
            category: self.category.clone(),
            mtime_ms: self.mtime_ms,
        }
    }
}

/// The contents of a `FileItem`.
pub struct FileView {
    pub name: Seq<char>,
    pub path: Seq<char>,
    pub is_dir: bool,
    pub ext: Seq<char>,
    pub category: Seq<char>,
    pub mtime_ms: u64,
}

impl View for FileItem {
    type V = FileView;

    open spec fn view(&self) -> FileView {
        FileView {
            name: self.name@,
            path: self.path@,
            is_dir: self.is_dir,
            ext: self.ext@,
            category: self.category@,
            mtime_ms: self.mtime_ms,
        }
    }
}

/// The contents of a list of files.
pub open spec fn file_views(f: Seq<FileItem>) -> Seq<FileView> {
    Seq::new(f.len(), |i: int| f[i]@)
}

/// The paths of a list of files.
pub open spec fn paths_of(files: Seq<FileItem>) -> Seq<Seq<char>> {
    Seq::new(files.len(), |i: int| files[i].path@)
}

/// The path of the recycle bin, which is no file of the disk.
pub const RECYCLE_BIN_PATH: &'static str = "::{645FF040-5081-101B-9F08-00AA002F954E}";

/// The category that takes every file no other category takes. It can be neither
/// deleted nor renamed.
pub const FALLBACK_CATEGORY: &'static str = "其他";

/// The category of a fence that, where it still exists, collects the files without
/// a fence while automatic categories are off.
pub const UNCATEGORIZED: &'static str = "未分类";

/// `path` is that of the recycle bin.
pub open spec fn bin_path(path: Seq<char>) -> bool {
    path == RECYCLE_BIN_PATH@
}

/// Whether `path` is that of the recycle bin.
pub fn is_recycle_bin(path: &str) -> (r: bool)
    ensures
        r == bin_path(path@),
{
    text::same(path, RECYCLE_BIN_PATH)
}

/// The recycle bin as an entry of the first category of the table.
pub fn recycle_bin_item(table: &Vec<CategoryDef>) -> (r: FileItem)
    ensures
        r.name@ == "回收站"@,
        bin_path(r.path@),
        r.is_dir,
        r.ext@ == Seq::<char>::empty(),
        r.category@ == (if table@.len() > 0 {
            table@[0].name@
        } else {
            "软件"@
        }),
        r.mtime_ms == 0,
{
    let category = if table.len() > 0 {
        table[0].name.clone()
    } else {
        text::own("软件")
    };
    FileItem {
        name: text::own("回收站"),
        path: text::own(RECYCLE_BIN_PATH),
        is_dir: true,
        ext: String::new(),
        category,
        mtime_ms: 0,
    }
}

// ---------------------------------------------------------------- categories

/// A category: its name, the lowercase extensions it takes, and whether it takes
/// folders.
pub struct CategoryDef {
    pub name: String,
    pub exts: Vec<String>,
    pub dirs: bool,
}

/// The contents of a `CategoryDef`.
pub struct CategoryView {
    pub name: Seq<char>,
    pub exts: Seq<Seq<char>>,
    pub dirs: bool,
}

impl View for CategoryDef {
    type V = CategoryView;

    open spec fn view(&self) -> CategoryView {
        CategoryView { name: self.name@, exts: text::texts(self.exts@), dirs: self.dirs }
    }
}

impl Clone for CategoryDef {
    fn clone(&self) -> (r: Self)
        ensures
            r@ == self@,
    {
        CategoryDef {
            name: self.name.clone(),
            exts: text::copy_texts(&self.exts),
            dirs: self.dirs,
        }
    }
}

/// The contents of a category table.
pub open spec fn table_view(t: Seq<CategoryDef>) -> Seq<CategoryView> {
    Seq::new(t.len(), |i: int| t[i]@)
}

/// A copy of a category table.
pub fn copy_table(t: &Vec<CategoryDef>) -> (r: Vec<CategoryDef>)
    ensures
        table_view(r@) == table_view(t@),
{
    let mut out: Vec<CategoryDef> = Vec::new();
    for i in 0..t.len()
        invariant
            out.len() == i,
            forall|j: int| 0 <= j < i ==> (#[trigger] out@[j])@ == t@[j]@,
    {
        out.push(t[i].clone());
    }
    assert(table_view(out@) =~= table_view(t@));
    out
}

/// Strings out of literals.
fn svec(v: &[&str]) -> (r: Vec<String>)
    ensures
        text::texts(r@) == Seq::new(v@.len(), |i: int| v@[i]@),
{
    let mut out: Vec<String> = Vec::new();
    for i in 0..v.len()
        invariant
            out.len() == i,
            forall|j: int| 0 <= j < i ==> (#[trigger] out@[j])@ == v@[j]@,
    {
        out.push(text::own(v[i]));
    }
    assert(text::texts(out@) =~= Seq::new(v@.len(), |i: int| v@[i]@));
    out
}

/// The built-in categories.
pub open spec fn builtin_categories() -> Seq<CategoryView> {
    seq![
        CategoryView {
            name: "软件"@,
            exts: seq!["exe"@, "msi"@, "lnk"@, "bat"@, "cmd"@, "com"@],
            dirs: false,
        },
        CategoryView { name: "文件夹"@, exts: seq![], dirs: true },
        CategoryView {
            name: "文档"@,
            exts: seq![
                "pdf"@, "doc"@, "docx"@, "xls"@, "xlsx"@, "ppt"@, "pptx"@, "txt"@, "csv"@, "rtf"@,
                "log"@,
            ],
            dirs: false,
        },
        CategoryView {
            name: "图片"@,
            exts: seq!["jpg"@, "jpeg"@, "png"@, "gif"@, "bmp"@, "webp"@, "svg"@, "ico"@],
            dirs: false,
        },
        CategoryView {
            name: "媒体"@,
            exts: seq![
                "mp3"@, "wav"@, "flac"@, "aac"@, "ogg"@, "mp4"@, "avi"@, "mkv"@, "mov"@, "wmv"@,
                "flv"@,
            ],
            dirs: false,
        },
        CategoryView {
            name: "代码"@,
            exts: seq![
                "js"@, "ts"@, "py"@, "rs"@, "go"@, "c"@, "cpp"@, "h"@, "hpp"@, "java"@, "cs"@,
                "rb"@, "php"@, "html"@, "css"@, "json"@, "xml"@, "yaml"@, "yml"@, "toml"@, "sh"@,
                "md"@,
            ],
            dirs: false,
        },
        CategoryView {
            name: "压缩包"@,
            exts: seq!["zip"@, "rar"@, "7z"@, "tar"@, "gz"@, "bz2"@, "xz"@, "part"@],
            dirs: false,
        },
        CategoryView { name: FALLBACK_CATEGORY@, exts: seq![], dirs: false },
    ]
}

fn category(name: &str, exts: &[&str], dirs: bool) -> (r: CategoryDef)
    ensures
        r@ == (CategoryView {
            name: name@,
            exts: Seq::new(exts@.len(), |i: int| exts@[i]@),
            dirs,
        }),
{
    CategoryDef { name: text::own(name), exts: svec(exts), dirs }
}

/// The built-in category table.
pub fn default_categories() -> (r: Vec<CategoryDef>)
    ensures
        table_view(r@) == builtin_categories(),
{
    let software = category("软件", &["exe", "msi", "lnk", "bat", "cmd", "com"], false);
    let folders = category("文件夹", &[], true);
    let documents = category(
        "文档",
        &["pdf", "doc", "docx", "xls", "xlsx", "ppt", "pptx", "txt", "csv", "rtf", "log"],
        false,
    );
    let pictures = category(
        "图片",
        &["jpg", "jpeg", "png", "gif", "bmp", "webp", "svg", "ico"],
        false,
    );
    let media = category(
        "媒体",
        &["mp3", "wav", "flac", "aac", "ogg", "mp4", "avi", "mkv", "mov", "wmv", "flv"],
        false,
    );
    let code = category(
        "代码",
        &[
            "js", "ts", "py", "rs", "go", "c", "cpp", "h", "hpp", "java", "cs", "rb", "php", "html",
            "css", "json", "xml", "yaml", "yml", "toml", "sh", "md",
        ],
        false,
    );
    let archives = category("压缩包", &["zip", "rar", "7z", "tar", "gz", "bz2", "xz", "part"], false);
    let other = category(FALLBACK_CATEGORY, &[], false);
    let ghost b = builtin_categories();
    assert(software@.exts =~= b[0].exts);
    assert(folders@.exts =~= b[1].exts);
    assert(documents@.exts =~= b[2].exts);
    assert(pictures@.exts =~= b[3].exts);
    assert(media@.exts =~= b[4].exts);
    assert(code@.exts =~= b[5].exts);
    assert(archives@.exts =~= b[6].exts);
    assert(other@.exts =~= b[7].exts);
    let mut out: Vec<CategoryDef> = Vec::new();
    out.push(software);
    out.push(folders);
    out.push(documents);
    out.push(pictures);
    out.push(media);
    out.push(code);
    out.push(archives);
    out.push(other);
    assert(table_view(out@) =~= b);
    out
}

/// The extension of a name: what follows its last dot, empty where there is none.
pub open spec fn extension(name: Seq<char>) -> Seq<char>
    decreases name.len(),
{
    if !name.contains('.') {
        Seq::empty()
    } else if name.last() == '.' {
        Seq::empty()
    } else {
        extension(name.drop_last()).push(name.last())
    }
}

proof fn lemma_extension(name: Seq<char>, i: int)
    requires
        0 <= i < name.len(),
        name[i] == '.',
        forall|j: int| i < j < name.len() ==> #[trigger] name[j] != '.',
    ensures
        extension(name) == name.subrange(i + 1, name.len() as int),
    decreases name.len(),
{
    assert(name.contains('.'));
    if i < name.len() - 1 {
        let p = name.drop_last();
        assert(p[i] == '.');
        lemma_extension(p, i);
        assert(name.last() != '.');
        assert(p.subrange(i + 1, p.len() as int).push(name.last()) =~= name.subrange(
            i + 1,
            name.len() as int,
        ));
    } else {
        assert(name.subrange(i + 1, name.len() as int) =~= Seq::empty());
    }
}

/// The extension of a name.
pub fn ext_of(name: &str) -> (r: String)
    ensures
        r@ == extension(name@),
{
    let v = text::chars_of(name);
    let mut i: usize = v.len();
    while i > 0
        invariant
            i <= v.len(),
            v@ == name@,
            forall|j: int| i <= j < v.len() ==> #[trigger] v@[j] != '.',
        decreases i,
    {
        i = i - 1;
        if v[i] == '.' {
            proof {
                lemma_extension(v@, i as int);
            }
            return text::string_of(&v, i + 1, v.len());
        }
    }
    assert(!v@.contains('.'));
    String::new()
}

/// An entry of the table takes a name.
pub open spec fn takes(c: CategoryView, name: Seq<char>, is_dir: bool) -> bool {
    if is_dir {
        c.dirs
    } else {
        c.exts.contains(text::lowercase(extension(name)))
    }
}

/// The first entry of the table that takes a name.
pub open spec fn category_slot(table: Seq<CategoryView>, name: Seq<char>, is_dir: bool) -> Option<
    int,
>
    decreases table.len(),
{
    if table.len() == 0 {
        None
    } else if takes(table[0], name, is_dir) {
        Some(0)
    } else {
        match category_slot(table.drop_first(), name, is_dir) {
            Some(i) => Some(i + 1),
            None => None,
        }
    }
}

/// The category of a name: that of the first entry that takes it, and the fallback
/// where none does.
pub open spec fn category_of(table: Seq<CategoryView>, name: Seq<char>, is_dir: bool) -> Seq<char> {
    match category_slot(table, name, is_dir) {
        Some(i) => table[i].name,
        None => FALLBACK_CATEGORY@,
    }
}

/// What `category_slot` means: the least index whose entry takes the name.
pub proof fn lemma_category_slot(table: Seq<CategoryView>, name: Seq<char>, is_dir: bool)
    ensures
        match category_slot(table, name, is_dir) {
            Some(i) => 0 <= i < table.len() && takes(table[i], name, is_dir) && forall|j: int|
                0 <= j < i ==> !takes(#[trigger] table[j], name, is_dir),
            None => forall|j: int| 0 <= j < table.len() ==> !takes(#[trigger] table[j], name, is_dir),
        },
    decreases table.len(),
{
    if table.len() > 0 && !takes(table[0], name, is_dir) {
        let t = table.drop_first();
        lemma_category_slot(t, name, is_dir);
        match category_slot(t, name, is_dir) {
            Some(i) => {
                assert(table[i + 1] == t[i]);
                assert forall|j: int| 0 <= j < i + 1 implies !takes(#[trigger] table[j], name, is_dir) by {
                    if j > 0 {
                        assert(t[j - 1] == table[j]);
                    }
                }
            },
            None => {
                assert forall|j: int| 0 <= j < table.len() implies !takes(#[trigger] table[j], name, is_dir) by {
                    if j > 0 {
                        assert(t[j - 1] == table[j]);
                    }
                }
            },
        }
    }
}

/// An entry that takes the name, with none before it that does, is the slot.
pub proof fn lemma_category_slot_at(
    table: Seq<CategoryView>,
    name: Seq<char>,
    is_dir: bool,
    i: int,
)
    requires
        0 <= i < table.len(),
        takes(table[i], name, is_dir),
        forall|j: int| 0 <= j < i ==> !takes(#[trigger] table[j], name, is_dir),
    ensures
        category_slot(table, name, is_dir) == Some(i),
{
    lemma_category_slot(table, name, is_dir);
    let k = category_slot(table, name, is_dir)->0;
    if k < i {
        assert(!takes(table[k], name, is_dir));
    } else if k > i {
        assert(!takes(table[i], name, is_dir));
    }
}

/// The category of a name under a given table.
pub fn categorize_with(table: &Vec<CategoryDef>, name: &str, is_dir: bool) -> (r: String)
    ensures
        r@ == category_of(table_view(table@), name@, is_dir),
{
    let ext = text::to_lowercase(ext_of(name).as_str());
    let ghost t = table_view(table@);
    let mut i: usize = 0;
    while i < table.len()
        invariant
            i <= table.len(),
            t == table_view(table@),
            ext@ == text::lowercase(extension(name@)),
            forall|j: int| 0 <= j < i ==> !takes(#[trigger] t[j], name@, is_dir),
        decreases table.len() - i,
    {
        assert(t[i as int] == table@[i as int]@);
        let hit = if is_dir {
            table[i].dirs
        } else {
            text::has_text(&table[i].exts, ext.as_str())
        };
        if hit {
            proof {
                lemma_category_slot_at(t, name@, is_dir, i as int);
            }
            return table[i].name.clone();
        }
        i = i + 1;
    }
    proof {
        lemma_category_slot(t, name@, is_dir);
    }
    text::own(FALLBACK_CATEGORY)
}

/// The names of a category table.
pub open spec fn table_names(t: Seq<CategoryView>) -> Seq<Seq<char>> {
    Seq::new(t.len(), |i: int| t[i].name)
}

/// The index of a category in the table: its own, else that of the fallback, else 0.
pub open spec fn index_in_table(t: Seq<CategoryView>, cat: Seq<char>) -> int {
    match text::first_index(table_names(t), cat) {
        Some(i) => i,
        None => match text::first_index(table_names(t), FALLBACK_CATEGORY@) {
            Some(i) => i,
            None => 0,
        },
    }
}

/// The position of the entry named `name`.
pub fn table_position(table: &Vec<CategoryDef>, name: &str) -> (r: Option<usize>)
    ensures
        match r {
            Some(i) => text::first_index(table_names(table_view(table@)), name@) == Some(i as int)
                && i < table.len() && table@[i as int].name@ == name@,
            None => text::first_index(table_names(table_view(table@)), name@) is None,
        },
        r is Some <==> table_names(table_view(table@)).contains(name@),
{
    let ghost names = table_names(table_view(table@));
    let mut i: usize = 0;
    while i < table.len()
        invariant
            i <= table.len(),
            names == table_names(table_view(table@)),
            forall|j: int| 0 <= j < i ==> #[trigger] names[j] != name@,
        decreases table.len() - i,
    {
        assert(names[i as int] == table@[i as int].name@);
        if text::same(table[i].name.as_str(), name) {
            proof {
                text::lemma_first_index_at(names, name@, i as int);
                text::lemma_first_index(names, name@);
            }
            return Some(i);
        }
        i = i + 1;
    }
    proof {
        text::lemma_first_index(names, name@);
    }
    None
}

/// The index of a category in the table, by which it is coloured.
pub fn category_index(table: &Vec<CategoryDef>, cat: &str) -> (r: usize)
    ensures
        r == index_in_table(table_view(table@), cat@),
{
    match table_position(table, cat) {
        Some(i) => i,
        None => match table_position(table, FALLBACK_CATEGORY) {
            Some(i) => i,
            None => 0,
        },
    }
}

/// Which of `n` colours the fences of a category have: the colours repeat.
pub fn color_slot(table: &Vec<CategoryDef>, cat: &str, n: usize) -> (r: usize)
    requires
        n > 0,
    ensures
        r == index_in_table(table_view(table@), cat@) % n as int,
{
    category_index(table, cat) % n
}

/// Every name has a category: that of an entry of the table, or the fallback.
pub proof fn law_every_name_has_a_category(table: Seq<CategoryView>, name: Seq<char>, is_dir: bool)
    ensures
        category_of(table, name, is_dir) == FALLBACK_CATEGORY@ || table_names(table).contains(
            category_of(table, name, is_dir),
        ),
{
    lemma_category_slot(table, name, is_dir);
    if let Some(i) = category_slot(table, name, is_dir) {
        assert(table_names(table)[i] == table[i].name);
    }
}

/// Renaming an entry renames the category of what it takes, and of nothing else.
pub proof fn law_rename_follows(
    table: Seq<CategoryView>,
    i: int,
    new_name: Seq<char>,
    name: Seq<char>,
    is_dir: bool,
)
    requires
        0 <= i < table.len(),
    ensures
        ({
            let renamed = table.update(i, CategoryView { name: new_name, ..table[i] });
            category_of(renamed, name, is_dir) == if category_slot(table, name, is_dir) == Some(i) {
                new_name
            } else {
                category_of(table, name, is_dir)
            }
        }),
{
    let renamed = table.update(i, CategoryView { name: new_name, ..table[i] });
    lemma_category_slot(table, name, is_dir);
    lemma_category_slot(renamed, name, is_dir);
    assert(forall|j: int|
        0 <= j < table.len() ==> (takes(#[trigger] renamed[j], name, is_dir) <==> takes(
            table[j],
            name,
            is_dir,
        )));
    match category_slot(table, name, is_dir) {
        Some(k) => {
            assert(takes(renamed[k], name, is_dir));
            lemma_category_slot_at(renamed, name, is_dir, k);
        },
        None => {
            if let Some(k) = category_slot(renamed, name, is_dir) {
                assert(takes(renamed[k], name, is_dir));
                assert(!takes(table[k], name, is_dir));
            }
        },
    }
}

/// Deleting an entry sends what it alone took to the fallback, and changes the
/// category of nothing that another entry took first.
pub proof fn law_delete_falls_back(
    table: Seq<CategoryView>,
    i: int,
    name: Seq<char>,
    is_dir: bool,
)
    requires
        0 <= i < table.len(),
    ensures
        category_slot(table, name, is_dir) != Some(i) ==> category_of(
            table.remove(i),
            name,
            is_dir,
        ) == category_of(table, name, is_dir),
        category_slot(table, name, is_dir) == Some(i) && (forall|j: int|
            0 <= j < table.len() && j != i ==> !takes(#[trigger] table[j], name, is_dir))
            ==> category_of(table.remove(i), name, is_dir) == FALLBACK_CATEGORY@,
{
    let rest = table.remove(i);
    assert(forall|j: int|
        0 <= j < rest.len() ==> #[trigger] rest[j] == table[if j < i {
            j
        } else {
            j + 1
        }]);
    lemma_category_slot(table, name, is_dir);
    lemma_category_slot(rest, name, is_dir);
    match category_slot(table, name, is_dir) {
        Some(k) => {
            if k != i {
                let k2 = if k < i {
                    k
                } else {
                    k - 1
                };
                assert(rest[k2] == table[k]);
                assert forall|j: int| 0 <= j < k2 implies !takes(#[trigger] rest[j], name, is_dir) by {
                    assert(!takes(
                        table[if j < i {
                            j
                        } else {
                            j + 1
                        }],
                        name,
                        is_dir,
                    ));
                }
                lemma_category_slot_at(rest, name, is_dir, k2);
            }
        },
        None => {
            if let Some(k) = category_slot(rest, name, is_dir) {
                assert(!takes(
                    table[if k < i {
                        k
                    } else {
                        k + 1
                    }],
                    name,
                    is_dir,
                ));
            }
        },
    }
    if let Some(k) = category_slot(rest, name, is_dir) {
        let k2 = if k < i {
            k
        } else {
            k + 1
        };
        assert(takes(table[k2], name, is_dir));
    }
}

/// A new category without extensions and folders takes nothing.
pub proof fn law_empty_category_takes_nothing(
    table: Seq<CategoryView>,
    at: int,
    new_name: Seq<char>,
    name: Seq<char>,
    is_dir: bool,
)
    requires
        0 <= at <= table.len(),
    ensures
        category_of(
            table.insert(at, CategoryView { name: new_name, exts: Seq::empty(), dirs: false }),
            name,
            is_dir,
        ) == category_of(table, name, is_dir),
{
    let empty = CategoryView { name: new_name, exts: Seq::empty(), dirs: false };
    let more = table.insert(at, empty);
    law_delete_falls_back(more, at, name, is_dir);
    assert(more.remove(at) =~= table);
    lemma_category_slot(more, name, is_dir);
    assert(more[at] == empty);
    assert(!takes(empty, name, is_dir));
}

// ---------------------------------------------------------------- fences

/// A fence: an area of the desktop that shows the files of a category and those
/// dragged onto it. Its rectangle is kept by whoever draws it.
pub struct Fence {
    pub id: u32,
    pub title: String,
    pub category: String,
    /// The paths of the files dragged onto it.
    pub pinned: Vec<String>,
    /// The order the user gave its files.
    pub item_order: Vec<String>,
    pub collapsed: bool,
    pub scroll_rows: usize,
    pub locked: bool,
    pub hidden: bool,
    /// Whether the user has resized it.
    pub manual_size: bool,
    /// `常用` (most opened first), `时间` (newest first), `名称`, or else the user's order.
    pub sort_mode: String,
}

/// The contents of a `Fence`.
pub struct FenceView {
    pub id: u32,
    pub title: Seq<char>,
    pub category: Seq<char>,
    pub pinned: Seq<Seq<char>>,
    pub item_order: Seq<Seq<char>>,
    pub collapsed: bool,
    pub scroll_rows: usize,
    pub locked: bool,
    pub hidden: bool,
    pub manual_size: bool,
    pub sort_mode: Seq<char>,
}

impl View for Fence {
    type V = FenceView;

    open spec fn view(&self) -> FenceView {
        FenceView {
            id: self.id,
            title: self.title@,
            category: self.category@,
            pinned: text::texts(self.pinned@),
            item_order: text::texts(self.item_order@),
            collapsed: self.collapsed,
            scroll_rows: self.scroll_rows,
            locked: self.locked,
            hidden: self.hidden,
            manual_size: self.manual_size,
            sort_mode: self.sort_mode@,
        }
    }
}

impl Clone for Fence {
    fn clone(&self) -> (r: Self)
        ensures
            r@ == self@,
    {
        Fence {
            id: self.id,
            title: self.title.clone(),
            category: self.category.clone(),
            pinned: text::copy_texts(&self.pinned),
            item_order: text::copy_texts(&self.item_order),
            collapsed: self.collapsed,
            scroll_rows: self.scroll_rows,
            locked: self.locked,
            hidden: self.hidden,
            manual_size: self.manual_size,
            sort_mode: self.sort_mode.clone(),
        }
    }
}

/// The contents of a list of fences.
pub open spec fn fence_views(f: Seq<Fence>) -> Seq<FenceView> {
    Seq::new(f.len(), |i: int| f[i]@)
}

/// The first fence with the id `id`.
pub open spec fn fence_at(f: Seq<FenceView>, id: u32) -> Option<int>
    decreases f.len(),
{
    if f.len() == 0 {
        None
    } else if f[0].id == id {
        Some(0)
    } else {
        match fence_at(f.drop_first(), id) {
            Some(i) => Some(i + 1),
            None => None,
        }
    }
}

/// What `fence_at` means: the least index with that id.
pub proof fn lemma_fence_at(f: Seq<FenceView>, id: u32)
    ensures
        match fence_at(f, id) {
            Some(i) => 0 <= i < f.len() && f[i].id == id && forall|j: int|
                0 <= j < i ==> (#[trigger] f[j]).id != id,
            None => forall|j: int| 0 <= j < f.len() ==> (#[trigger] f[j]).id != id,
        },
    decreases f.len(),
{
    if f.len() > 0 && f[0].id != id {
        let t = f.drop_first();
        lemma_fence_at(t, id);
        assert(forall|j: int| 0 < j < f.len() ==> #[trigger] f[j] == t[j - 1]);
    }
}

/// The position of the fence with the id `id`.
pub fn fence_position(fences: &Vec<Fence>, id: u32) -> (r: Option<usize>)
    ensures
        match r {
            Some(i) => fence_at(fence_views(fences@), id) == Some(i as int) && i < fences.len()
                && fences@[i as int].id == id,
            None => fence_at(fence_views(fences@), id) is None,
        },
{
    let ghost v = fence_views(fences@);
    let mut i: usize = 0;
    while i < fences.len()
        invariant
            i <= fences.len(),
            v == fence_views(fences@),
            forall|j: int| 0 <= j < i ==> (#[trigger] v[j]).id != id,
        decreases fences.len() - i,
    {
        assert(v[i as int] == fences@[i as int]@);
        if fences[i].id == id {
            proof {
                lemma_fence_at(v, id);
                let k = fence_at(v, id)->0;
                if k < i {
                    assert(v[k].id != id);
                }
            }
            return Some(i);
        }
        i = i + 1;
    }
    proof {
        lemma_fence_at(v, id);
    }
    None
}

/// The sort mode of a new fence.
pub fn default_sort_mode() -> (r: String)
    ensures
        r@ == "常用"@,
{
    text::own("常用")
}

/// The first fence with an id is the one that the id finds.
pub proof fn lemma_fence_at_is(f: Seq<FenceView>, id: u32, i: int)
    requires
        0 <= i < f.len(),
        f[i].id == id,
        forall|j: int| 0 <= j < i ==> (#[trigger] f[j]).id != id,
    ensures
        fence_at(f, id) == Some(i),
{
    lemma_fence_at(f, id);
    let k = fence_at(f, id)->0;
    if k < i {
        assert(f[k].id != id);
    }
}

/// The extension of a name is what follows its last dot, and nothing where it has none.
pub proof fn law_extension_follows_the_last_dot(p: Seq<char>, e: Seq<char>)
    requires
        !e.contains('.'),
    ensures
        extension(p + seq!['.'] + e) == e,
        extension(e) == Seq::<char>::empty(),
    decreases e.len(),
{
    let s = p + seq!['.'] + e;
    assert(s[p.len() as int] == '.');
    assert(s.contains('.'));
    if e.len() > 0 {
        let h = e.drop_last();
        assert(!h.contains('.')) by {
            if h.contains('.') {
                let i = choose|i: int| 0 <= i < h.len() && h[i] == '.';
                assert(e[i] == '.');
            }
        }
        law_extension_follows_the_last_dot(p, h);
        assert(s.drop_last() =~= p + seq!['.'] + h);
        assert(s.last() == e.last());
        assert(e[e.len() - 1] == e.last());
        assert(h.push(e.last()) =~= e);
    } else {
        assert(s.last() == '.');
        assert(e =~= Seq::<char>::empty());
    }
}

/// A name is sorted by the first entry of the table that takes it: a folder by the first
/// that takes folders, a file by the first that has its extension in lowercase. What no
/// entry takes is in `其他`.
pub proof fn law_first_entry_that_takes_a_name(
    table: Seq<CategoryView>,
    name: Seq<char>,
    is_dir: bool,
    k: int,
)
    requires
        0 <= k <= table.len(),
        forall|j: int|
            0 <= j < k ==> if is_dir {
                !(#[trigger] table[j]).dirs
            } else {
                !table[j].exts.contains(text::lowercase(extension(name)))
            },
        k < table.len() ==> if is_dir {
            table[k].dirs
        } else {
            table[k].exts.contains(text::lowercase(extension(name)))
        },
    ensures
        category_of(table, name, is_dir) == (if k < table.len() {
            table[k].name
        } else {
            "其他"@
        }),
{
    assert forall|j: int| 0 <= j < k implies !takes(#[trigger] table[j], name, is_dir) by {
        assert(!table[j].dirs || !is_dir);
    }
    lemma_category_slot(table, name, is_dir);
    if k < table.len() {
        lemma_category_slot_at(table, name, is_dir, k);
    } else if let Some(i) = category_slot(table, name, is_dir) {
        assert(!takes(table[i], name, is_dir));
    }
}

/// What the built-in categories take: programs, folders, documents, pictures, media, code
/// and archives by their extensions, in this order, and last the one that takes the rest.
pub proof fn law_builtin_categories_take_their_files(name: Seq<char>)
    ensures
        ({
            let b = builtin_categories();
            let e = text::lowercase(extension(name));
            &&& table_names(b) == seq![
                "软件"@,
                "文件夹"@,
                "文档"@,
                "图片"@,
                "媒体"@,
                "代码"@,
                "压缩包"@,
                "其他"@,
            ]
            &&& forall|k: int| 0 <= k < 8 ==> (takes(#[trigger] b[k], name, true) <==> k == 1)
            &&& !takes(b[1], name, false) && !takes(b[7], name, false)
            &&& takes(b[0], name, false) <==> seq![
                "exe"@,
                "msi"@,
                "lnk"@,
                "bat"@,
                "cmd"@,
                "com"@,
            ].contains(e)
            &&& takes(b[2], name, false) <==> (seq![
                "pdf"@,
                "doc"@,
                "docx"@,
                "xls"@,
                "xlsx"@,
                "ppt"@,
                "pptx"@,
                "txt"@,
            ] + seq!["csv"@, "rtf"@, "log"@]).contains(e)
            &&& takes(b[3], name, false) <==> seq![
                "jpg"@,
                "jpeg"@,
                "png"@,
                "gif"@,
                "bmp"@,
                "webp"@,
                "svg"@,
                "ico"@,
            ].contains(e)
            &&& takes(b[4], name, false) <==> (seq!["mp3"@, "wav"@, "flac"@, "aac"@, "ogg"@] + seq![
                "mp4"@,
                "avi"@,
                "mkv"@,
                "mov"@,
                "wmv"@,
                "flv"@,
            ]).contains(e)
            &&& takes(b[5], name, false) <==> (seq![
                "js"@,
                "ts"@,
                "py"@,
                "rs"@,
                "go"@,
                "c"@,
                "cpp"@,
                "h"@,
                "hpp"@,
                "java"@,
                "cs"@,
            ] + seq![
                "rb"@,
                "php"@,
                "html"@,
                "css"@,
                "json"@,
                "xml"@,
                "yaml"@,
                "yml"@,
                "toml"@,
                "sh"@,
                "md"@,
            ]).contains(e)
            &&& takes(b[6], name, false) <==> seq![
                "zip"@,
                "rar"@,
                "7z"@,
                "tar"@,
                "gz"@,
                "bz2"@,
                "xz"@,
                "part"@,
            ].contains(e)
        }),
{
    let b = builtin_categories();
    assert(table_names(b) =~= seq![
        "软件"@,
        "文件夹"@,
        "文档"@,
        "图片"@,
        "媒体"@,
        "代码"@,
        "压缩包"@,
        "其他"@,
    ]);
    assert(b[2].exts =~= seq!["pdf"@, "doc"@, "docx"@, "xls"@, "xlsx"@, "ppt"@, "pptx"@, "txt"@]
        + seq!["csv"@, "rtf"@, "log"@]);
    assert(b[4].exts =~= seq!["mp3"@, "wav"@, "flac"@, "aac"@, "ogg"@] + seq![
        "mp4"@,
        "avi"@,
        "mkv"@,
        "mov"@,
        "wmv"@,
        "flv"@,
    ]);
    assert(b[5].exts =~= seq![
        "js"@,
        "ts"@,
        "py"@,
        "rs"@,
        "go"@,
        "c"@,
        "cpp"@,
        "h"@,
        "hpp"@,
        "java"@,
        "cs"@,
    ] + seq![
        "rb"@,
        "php"@,
        "html"@,
        "css"@,
        "json"@,
        "xml"@,
        "yaml"@,
        "yml"@,
        "toml"@,
        "sh"@,
        "md"@,
    ]);
}

/// A category has the colour of its place in the table, and one that is not in it the
/// colour of `其他`.
pub proof fn law_category_has_its_place(t: Seq<CategoryView>, cat: Seq<char>, i: int)
    requires
        0 <= i < t.len(),
        t[i].name == cat || (t[i].name == "其他"@ && !table_names(t).contains(cat)),
        forall|j: int| 0 <= j < i ==> (#[trigger] t[j]).name != t[i].name,
    ensures
        index_in_table(t, cat) == i,
{
    let names = table_names(t);
    text::lemma_first_index(names, cat);
    assert forall|j: int| 0 <= j < i implies #[trigger] names[j] != names[i] by {
        assert(names[j] == t[j].name);
    }
    text::lemma_first_index_at(names, names[i], i);
}

} // verus!

//! The files in which the program keeps its state, inside its own directory.
use crate::text;
use vstd::prelude::*;

verus! {

/// `c` separates the parts of a path.
pub open spec fn separator(c: char) -> bool {
    c == '\\' || c == '/'
}

/// An ASCII letter.
pub open spec fn letter(c: char) -> bool {
    ('a' <= c <= 'z') || ('A' <= c <= 'Z')
}

/// `dir` names a drive and nothing more, as `C:` does.
pub open spec fn bare_drive(dir: Seq<char>) -> bool {
    dir.len() == 2 && letter(dir[0]) && dir[1] == ':'
}

/// The path of `name` in `dir`.
pub open spec fn joined(dir: Seq<char>, name: Seq<char>) -> Seq<char> {
    if dir.len() == 0 || separator(dir.last()) || bare_drive(dir) {
        dir + name
    } else {
        dir.push('\\') + name
    }
}

/// The path of the plain file name `name` in `dir`.
pub fn join_path(dir: &str, name: &str) -> (r: String)
    ensures
        r@ == joined(dir@, name@),
{
    let v = text::chars_of(dir);
    let n: usize = v.len();
    let mut out = text::own(dir);
    if n > 0 && v[n - 1] != '\\' && v[n - 1] != '/' {
        let drive = n == 2 && (('a' <= v[0] && v[0] <= 'z') || ('A' <= v[0] && v[0] <= 'Z'))
            && v[1] == ':';
        if !drive {
            out.push('\\');
        }
    }
    text::join2(out.as_str(), name)
}

/// The file of the fences.
pub fn config_path(config_dir: &str) -> (r: String)
    ensures
        r@ == joined(config_dir@, "config.json"@),
{
    join_path(config_dir, "config.json")
}

/// The file of the settings.
pub fn settings_path(config_dir: &str) -> (r: String)
    ensures
        r@ == joined(config_dir@, "settings.json"@),
{
    join_path(config_dir, "settings.json")
}

/// The file of the usage records.
pub fn usage_path(config_dir: &str) -> (r: String)
    ensures
        r@ == joined(config_dir@, "usage.json"@),
{
    join_path(config_dir, "usage.json")
}

/// The file that marks that the system's desktop icons are hidden.
pub fn icons_marker_path(config_dir: &str) -> (r: String)
    ensures
        r@ == joined(config_dir@, "icons_marker.json"@),
{
    join_path(config_dir, "icons_marker.json")
}

/// The file of the icon cache.
pub fn icon_cache_path(config_dir: &str) -> (r: String)
    ensures
        r@ == joined(config_dir@, "iconcache.bin"@),
{
    join_path(config_dir, "iconcache.bin")
}

/// The file of the wallpaper snapshots.
pub fn wallpaper_cache_path(config_dir: &str) -> (r: String)
    ensures
        r@ == joined(config_dir@, "wallpaper.bin"@),
{
    join_path(config_dir, "wallpaper.bin")
}

/// A name is put behind a directory with a backslash between them, which is left out behind
/// a slash, behind a bare drive and where there is no directory.
pub proof fn law_names_are_put_behind_directories(dir: Seq<char>, name: Seq<char>)
    ensures
        ({
            let drive = dir.len() == 2 && dir[1] == ':' && ('a' <= dir[0] <= 'z' || 'A' <= dir[0]
                <= 'Z');
            let bare = dir.len() == 0 || dir.last() == '\\' || dir.last() == '/' || drive;
            &&& bare ==> joined(dir, name) == dir + name
            &&& !bare ==> joined(dir, name) == dir + seq!['\\'] + name
        }),
{
    assert(dir.push('\\') =~= dir + seq!['\\']);
}

} // verus!

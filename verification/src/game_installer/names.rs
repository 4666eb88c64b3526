//! Names of files and chunks that stay inside the game directory.

use vstd::prelude::*;
use crate::strings::has_char;
use crate::text::chars_of;
use super::error::ErrorView;
use super::error::SophonError;
use super::error::SophonResult;

verus! {

/// `c` is an ASCII letter.
pub open spec fn is_letter(c: char) -> bool {
    ('a' <= c && c <= 'z') || ('A' <= c && c <= 'Z')
}

/// `c` separates the parts of a path.
pub open spec fn is_separator(c: char) -> bool {
    c == '/' || c == '\\'
}

/// A part of the path `s` is `..`, and starts at `i`.
pub open spec fn climbs_at(s: Seq<char>, i: int) -> bool {
    &&& 0 <= i
    &&& i + 2 <= s.len()
    &&& s[i] == '.'
    &&& s[i + 1] == '.'
    &&& i == 0 || is_separator(s[i - 1])
    &&& i + 2 == s.len() || is_separator(s[i + 2])
}

/// One of the parts of the path `s` is `..`.
pub open spec fn climbs(s: Seq<char>) -> bool {
    exists|i: int| climbs_at(s, i)
}

/// The path `s` may lead out of the directory that it is taken from: it starts
/// with a drive letter, a separator or a dot and a separator, or climbs.
pub open spec fn leads_out(s: Seq<char>) -> bool {
    ||| s.len() >= 2 && s[1] == ':' && is_letter(s[0])
    ||| s.len() >= 1 && is_separator(s[0])
    ||| s.len() >= 2 && s[0] == '.' && is_separator(s[1])
    ||| climbs(s)
}

/// Whether one of the parts of the path is `..`.
fn path_climbs(s: &Vec<char>) -> (r: bool)
    ensures
        r == climbs(s@),
{
    let n: usize = s.len();
    let mut i: usize = 0;
    while i < n
        invariant
            i <= n,
            n == s@.len(),
            forall|j: int| 0 <= j < i ==> !climbs_at(s@, j),
        decreases n - i,
    {
        if n - i >= 2 && s[i] == '.' && s[i + 1] == '.' {
            let open = i == 0 || s[i - 1] == '/' || s[i - 1] == '\\';
            let closed = n - i == 2 || s[i + 2] == '/' || s[i + 2] == '\\';
            if open && closed {
                assert(climbs_at(s@, i as int));
                return true;
            }
        }
        i += 1;
    }
    false
}

/// Whether the path may lead out of the directory that it is taken from.
pub fn path_leads_out(name: &str) -> (r: bool)
    ensures
        r == leads_out(name@),
{
    let s = chars_of(name);
    let n: usize = s.len();
    if n >= 1 && (s[0] == '/' || s[0] == '\\') {
        return true;
    }
    if n >= 2 {
        let first: char = s[0];
        if s[1] == ':' && (('a' <= first && first <= 'z') || ('A' <= first && first <= 'Z')) {
            return true;
        }
        if first == '.' && (s[1] == '/' || s[1] == '\\') {
            return true;
        }
    }
    path_climbs(&s)
}

/// What is wrong with the name of a file, if anything: it is empty, holds a null
/// character, or may lead out of the game directory.
pub open spec fn name_fault(
    name: Seq<char>,
    when_empty: Seq<char>,
    when_null: Seq<char>,
) -> Option<ErrorView> {
    if name.len() == 0 {
        Some(ErrorView::InvalidAssetName(when_empty))
    } else if name.contains('\0') {
        Some(ErrorView::InvalidAssetName(when_null))
    } else if leads_out(name) {
        Some(ErrorView::PathTraversal(name))
    } else {
        None
    }
}

/// What is wrong with the name of an asset.
pub open spec fn asset_name_fault(name: Seq<char>) -> Option<ErrorView> {
    name_fault(name, "asset_name cannot be empty"@, "asset_name cannot contain null bytes"@)
}

/// What is wrong with the name of a patch.
pub open spec fn patch_name_fault(name: Seq<char>) -> Option<ErrorView> {
    name_fault(name, "patch_name cannot be empty"@, "patch_name cannot contain null bytes"@)
}

fn check_name(name: &str, when_empty: &str, when_null: &str) -> (r: SophonResult<()>)
    ensures
        match name_fault(name@, when_empty@, when_null@) {
            None => r is Ok,
            Some(e) => r matches Err(f) && f@ == e,
        },
{
    if name.is_empty() {
        return Err(SophonError::InvalidAssetName(when_empty.to_owned()));
    }
    if has_char(&chars_of(name), '\0') {
        return Err(SophonError::InvalidAssetName(when_null.to_owned()));
    }
    if path_leads_out(name) {
        return Err(SophonError::PathTraversal(name.to_owned()));
    }
    Ok(())
}

/// Refuses the name of an asset that may lead out of the game directory.
pub fn validate_asset_name(name: &str) -> (r: SophonResult<()>)
    ensures
        match asset_name_fault(name@) {
            None => r is Ok,
            Some(e) => r matches Err(f) && f@ == e,
        },
{
    check_name(name, "asset_name cannot be empty", "asset_name cannot contain null bytes")
}

/// Refuses the name of a patch that may lead out of the patch directory.
pub fn validate_patch_name(patch_name: &str) -> (r: SophonResult<()>)
    ensures
        match patch_name_fault(patch_name@) {
            None => r is Ok,
            Some(e) => r matches Err(f) && f@ == e,
        },
{
    check_name(patch_name, "patch_name cannot be empty", "patch_name cannot contain null bytes")
}

/// The name of a chunk is that of a file in the chunk directory itself.
pub open spec fn chunk_name_ok(name: Seq<char>) -> bool {
    &&& name.len() > 0
    &&& !name.contains('/')
    &&& !name.contains('\\')
    &&& !name.contains('\0')
    &&& name != "."@
    &&& name != ".."@
}

/// Whether the name of a chunk is that of a file in the chunk directory itself.
pub fn validate_chunk_name(name: &str) -> (r: bool)
    ensures
        r == chunk_name_ok(name@),
{
    let s = chars_of(name);
    if s.len() == 0 || has_char(&s, '/') || has_char(&s, '\\')
        || has_char(&s, '\0') {
        return false;
    }
    !(*name == *"." || *name == *"..")
}

/// A name that is accepted has no part that climbs, is not absolute, and names
/// something.
pub proof fn law_accepted_names_stay_inside(name: Seq<char>)
    requires
        asset_name_fault(name) is None || patch_name_fault(name) is None,
    ensures
        name.len() > 0,
        !is_separator(name[0]),
        !climbs(name),
        !name.contains('\0'),
{
}

/// A chunk name is also a good name for an asset, but for a drive letter.
pub proof fn law_chunk_names_stay_inside(name: Seq<char>)
    requires
        chunk_name_ok(name),
        !(name.len() >= 2 && name[1] == ':' && is_letter(name[0])),
    ensures
        asset_name_fault(name) is None,
{
    reveal_strlit("..");
    reveal_strlit(".");
    if leads_out(name) {
        if climbs(name) {
            let i = choose|i: int| climbs_at(name, i);
            if i > 0 {
                assert(name.contains(name[i - 1]));
            } else if name.len() > 2 {
                assert(name.contains(name[2]));
            } else {
                assert(name =~= ".."@);
            }
        } else if is_separator(name[0]) {
            assert(name.contains(name[0]));
        } else {
            assert(name.contains(name[1]));
        }
    }
}

/// A name with an ordinary beginning and no two dots in a row is accepted: it
/// starts with neither a dot nor a separator, holds no null character, and has no
/// colon behind its first letter.
pub proof fn law_plain_names_are_accepted(name: Seq<char>)
    requires
        name.len() > 0,
        !name.contains('\0'),
        name[0] != '.',
        name[0] != '/' && name[0] != '\\',
        name.len() >= 2 ==> name[1] != ':',
        forall|i: int| 0 <= i < name.len() - 1 ==> !(#[trigger] name[i] == '.' && name[i + 1] == '.'),
    ensures
        asset_name_fault(name) is None,
        patch_name_fault(name) is None,
{
    if climbs(name) {
        let i = choose|i: int| climbs_at(name, i);
        assert(name[i] == '.' && name[i + 1] == '.');
    }
}

/// What is accepted in a directory is accepted with the name of the directory
/// before it, where that is accepted and is not a dot.
pub proof fn law_names_may_be_joined(dir: Seq<char>, name: Seq<char>)
    requires
        asset_name_fault(dir) is None,
        asset_name_fault(name) is None,
        dir != seq!['.'],
    ensures
        asset_name_fault(dir + seq!['/'] + name) is None,
{
    let s = dir + seq!['/'] + name;
    let d = dir.len() as int;
    assert(s[0] == dir[0]);
    assert(s[d] == '/');
    if s.contains('\0') {
        let i = choose|i: int| 0 <= i < s.len() && s[i] == '\0';
        if i < d {
            assert(dir[i] == '\0');
            assert(dir.contains('\0'));
        } else if i > d {
            assert(name[i - d - 1] == '\0');
            assert(name.contains('\0'));
        }
    }
    if d == 1 {
        assert(dir =~= seq![dir[0]]);
    } else {
        assert(s[1] == dir[1]);
    }
    if climbs(s) {
        let i = choose|i: int| climbs_at(s, i);
        if i + 2 <= d {
            assert(s[i] == dir[i] && s[i + 1] == dir[i + 1]);
            if i > 0 {
                assert(s[i - 1] == dir[i - 1]);
            }
            if i + 2 < d {
                assert(s[i + 2] == dir[i + 2]);
            }
            assert(climbs_at(dir, i));
        } else {
            assert(i > d);
            let j = i - d - 1;
            assert(s[i] == name[j] && s[i + 1] == name[j + 1]);
            if j > 0 {
                assert(s[i - 1] == name[j - 1]);
            }
            if i + 2 < s.len() {
                assert(s[i + 2] == name[j + 2]);
            }
            assert(climbs_at(name, j));
        }
    }
}

/// A name that leads to a drive, to the root, or above the directory is refused,
/// wherever it stands, as one that leads out.
pub proof fn law_climbing_names_are_refused(head: Seq<char>, tail: Seq<char>, drive: char)
    requires
        !head.contains('\0') && !tail.contains('\0'),
    ensures
        ({
            let up = seq!['.', '.'];
            let slash = seq!['/'];
            let back = seq!['\\'];
            &&& asset_name_fault(up) is Some
            &&& asset_name_fault(up + slash + tail) is Some
            &&& asset_name_fault(up + back + tail) is Some
            &&& asset_name_fault(head + slash + up) is Some
            &&& asset_name_fault(head + back + up + back + tail) is Some
            &&& asset_name_fault(slash + tail) is Some
            &&& asset_name_fault(back + tail) is Some
            &&& is_letter(drive) ==> asset_name_fault(seq![drive, ':'] + tail) is Some
        }),
{
    let up = seq!['.', '.'];
    let slash = seq!['/'];
    let back = seq!['\\'];
    let h = head.len() as int;
    assert(climbs_at(up, 0));
    assert(climbs_at(up + slash + tail, 0));
    assert(climbs_at(up + back + tail, 0));
    assert(climbs_at(head + slash + up, h + 1));
    assert(climbs_at(head + back + up + back + tail, h + 1));
    assert((slash + tail)[0] == '/');
    assert((back + tail)[0] == '\\');
    let d = seq![drive, ':'] + tail;
    assert(d[0] == drive && d[1] == ':');
}

} // verus!

//! What the installation of plugins comes to: which are taken, when they are
//! installed anew, and what is unpacked of their packages.

use vstd::prelude::*;
use crate::text::lower_chars;
use crate::text::text_of;
use super::error::ErrorView;
use super::names::asset_name_fault;
use super::plugin_api::fetches_directx;
use super::plugin_api::listed_before;
use super::plugin_api::listed_size;
use super::plugin_api::released_plugins;
use super::plugin_api::wanted_plugins;
use super::plugin_api::wanted_sdks;
use super::plugin_api::EntryView;
use super::plugin_api::PluginView;
use super::plugin_api::SdkView;
use super::plugin_install::all_sound;
use super::plugin_install::all_stand;
use super::plugin_install::counted_bytes;
use super::plugin_install::entry_fault;
use super::plugin_install::entry_step;
use super::plugin_install::on_one_line;
use super::plugin_install::out_of_date;
use super::plugin_install::package_fault;
use super::plugin_install::removable;
use super::plugin_install::sound;
use super::plugin_install::stands;
use super::plugin_install::version_key;
use super::plugin_install::ArchiveEntryView;
use super::plugin_install::DiskFile;
use super::plugin_install::ZipStepView;
use super::plugin_install::SDK_VERSION_KEY;
use super::plugin_install::ZIP_MAX_ENTRY_BYTES;
use super::plugin_install::ZIP_MAX_RATIO;
use super::plugin_install::ZIP_MAX_TOTAL_BYTES;

verus! {

/// `x` is in one of the first `n` releases.
pub open spec fn is_released(releases: Seq<Seq<PluginView>>, n: int, x: PluginView) -> bool {
    exists|i: int| 0 <= i < n && (#[trigger] releases[i]).contains(x)
}

/// How many plugins the first `n` releases have, in all.
pub open spec fn release_count(releases: Seq<Seq<PluginView>>, n: int) -> int
    decreases n,
{
    if n <= 0 {
        0
    } else {
        release_count(releases, n - 1) + releases[n - 1].len()
    }
}

/// The plugins of all releases are taken, and no others.
pub proof fn law_every_release_is_taken(releases: Seq<Seq<PluginView>>, n: int, x: PluginView)
    requires
        0 <= n <= releases.len(),
    ensures
        released_plugins(releases, n).contains(x) <==> is_released(releases, n, x),
        released_plugins(releases, n).len() == release_count(releases, n),
    decreases n,
{
    if n > 0 {
        law_every_release_is_taken(releases, n - 1, x);
        let b = released_plugins(releases, n - 1);
        let part = releases[n - 1];
        let r = released_plugins(releases, n);
        if is_released(releases, n - 1, x) {
            let i = choose|i: int| 0 <= i < n - 1 && (#[trigger] releases[i]).contains(x);
            assert(releases[i].contains(x));
            let k = choose|k: int| 0 <= k < b.len() && b[k] == x;
            assert(r[k] == x);
        }
        if part.contains(x) {
            let k = choose|k: int| 0 <= k < part.len() && part[k] == x;
            assert(r[b.len() + k] == x);
        }
        if r.contains(x) {
            let k = choose|k: int| 0 <= k < r.len() && r[k] == x;
            if k < b.len() {
                assert(b[k] == x);
            } else {
                assert(part[k - b.len()] == x);
                assert(releases[n - 1].contains(x));
            }
        }
    }
}

/// The `k`th plugin of a release stands behind all those of the releases before it
/// and the `k` before it in its own.
pub proof fn law_releases_keep_their_order(releases: Seq<Seq<PluginView>>, n: int, i: int, k: int)
    requires
        0 <= i < n <= releases.len(),
        0 <= k < releases[i].len(),
    ensures
        0 <= release_count(releases, i) + k < released_plugins(releases, n).len(),
        released_plugins(releases, n)[release_count(releases, i) + k] == releases[i][k],
    decreases n,
{
    law_every_release_is_taken(releases, n - 1, releases[i][k]);
    lemma_counts(releases, i);
    if i < n - 1 {
        law_releases_keep_their_order(releases, n - 1, i, k);
    }
}

proof fn lemma_counts(releases: Seq<Seq<PluginView>>, n: int)
    ensures
        release_count(releases, n) >= 0,
    decreases n,
{
    if n > 0 {
        lemma_counts(releases, n - 1);
    }
}

/// The `k`th plugin is the first of its identifier, and does not set up DirectX.
pub open spec fn is_taken(all: Seq<PluginView>, k: int) -> bool {
    &&& 0 <= k < all.len()
    &&& forall|j: int| 0 <= j < k ==> (#[trigger] all[j]).plugin_id != all[k].plugin_id
    &&& !fetches_directx(all[k].plugin_pkg.url)
}

/// Exactly the plugins that are the first of their identifiers and do not set up
/// DirectX are installed, as they were listed.
pub proof fn law_plugins_are_taken_as_listed(all: Seq<PluginView>, n: int, x: PluginView)
    requires
        0 <= n <= all.len(),
    ensures
        wanted_plugins(all, n).contains(x) <==> exists|k: int|
            0 <= k < n && #[trigger] is_taken(all, k) && all[k] == x,
    decreases n,
{
    if n > 0 {
        law_plugins_are_taken_as_listed(all, n - 1, x);
        let b = wanted_plugins(all, n - 1);
        let r = wanted_plugins(all, n);
        let p = all[n - 1];
        assert(is_taken(all, n - 1) <==> !listed_before(all, n - 1, p.plugin_id)
            && !fetches_directx(p.plugin_pkg.url));
        if b.contains(x) {
            let i = choose|i: int| 0 <= i < b.len() && b[i] == x;
            assert(r[i] == x);
            let k = choose|k: int| 0 <= k < n - 1 && #[trigger] is_taken(all, k) && all[k] == x;
            assert(is_taken(all, k));
        }
        if is_taken(all, n - 1) && p == x {
            assert(r[b.len() as int] == x);
        }
        if r.contains(x) {
            let i = choose|i: int| 0 <= i < r.len() && r[i] == x;
            if i < b.len() {
                assert(b[i] == x);
            }
        }
    }
}

/// Exactly the channel kits that do not set up DirectX are installed.
pub proof fn law_kits_are_taken_as_listed(all: Seq<SdkView>, n: int, x: SdkView)
    requires
        0 <= n <= all.len(),
    ensures
        wanted_sdks(all, n).contains(x) <==> !fetches_directx(x.channel_sdk_pkg.url)
            && exists|k: int| 0 <= k < n && #[trigger] all[k] == x,
    decreases n,
{
    if n > 0 {
        law_kits_are_taken_as_listed(all, n - 1, x);
        let b = wanted_sdks(all, n - 1);
        let r = wanted_sdks(all, n);
        if b.contains(x) {
            let i = choose|i: int| 0 <= i < b.len() && b[i] == x;
            assert(r[i] == x);
            let k = choose|k: int| 0 <= k < n - 1 && #[trigger] all[k] == x;
            assert(all[k] == x);
        }
        if all[n - 1] == x && !fetches_directx(x.channel_sdk_pkg.url) {
            assert(r[b.len() as int] == x);
        }
        if r.contains(x) {
            let i = choose|i: int| 0 <= i < r.len() && r[i] == x;
            if i < b.len() {
                assert(b[i] == x);
            } else {
                assert(all[n - 1] == x);
            }
        }
    }
}

/// A size that is left out is none, and one that is stated is a number.
pub proof fn law_sizes_may_be_left_out(text: Option<Seq<char>>)
    ensures
        listed_size(text) == Some(None::<u64>) <==> text is None || text->0.len() == 0,
        listed_size(text) matches Some(Some(v)) ==> text is Some && super::api::stated_size(text->0)
            == Some(v),
        text is Some && text->0.len() > 0 && super::api::stated_size(text->0) is Some
            ==> listed_size(text) == Some(super::api::stated_size(text->0)),
{
}

/// A file is missing, has another size than is asked for, or, where the checksum
/// is asked for, has another one or one that cannot be told.
pub open spec fn is_faulty(entry: EntryView, file: DiskFile) -> bool {
    ||| !file.exists
    ||| entry.size is Some && file.size is Some && entry.size->0 != file.size->0
    ||| entry.md5 is Some && (file.md5 is None || file.md5->0@ != entry.md5->0)
}

/// One of the files is faulty.
pub open spec fn any_faulty(entries: Seq<EntryView>, files: Seq<DiskFile>) -> bool {
    exists|i: int| 0 <= i < entries.len() && is_faulty(#[trigger] entries[i], files[i])
}

/// One of the files is missing, or has another size than is asked for.
pub open spec fn any_misfit(entries: Seq<EntryView>, files: Seq<DiskFile>) -> bool {
    exists|i: int|
        0 <= i < entries.len() && (!files[i].exists || ((#[trigger] entries[i]).size is Some
            && files[i].size is Some && entries[i].size->0 != files[i].size->0))
}

/// A package passes its check exactly where none of its files is faulty.
pub proof fn law_faulty_files_are_found(entries: Seq<EntryView>, files: Seq<DiskFile>)
    requires
        entries.len() == files.len(),
    ensures
        all_sound(entries, files) <==> !any_faulty(entries, files),
{
    if all_sound(entries, files) && any_faulty(entries, files) {
        let i = choose|i: int| 0 <= i < entries.len() && is_faulty(#[trigger] entries[i], files[i]);
        assert(sound(entries[i], files[i]));
    }
    if !any_faulty(entries, files) {
        assert forall|i: int| 0 <= i < entries.len() implies sound(#[trigger] entries[i], files[i]) by {
            assert(!is_faulty(entries[i], files[i]));
            if entries[i].md5 is Some {
                assert(text_of(files[i].md5) == Some(files[i].md5->0@));
            }
        }
    }
}

/// A plugin is installed anew exactly where no version or another one is recorded,
/// or one of its files is missing or has another size. Checksums are not looked
/// at.
pub proof fn law_outdated_plugins_are_installed_anew(
    recorded: Option<Seq<char>>,
    version: Seq<char>,
    entries: Seq<EntryView>,
    files: Seq<DiskFile>,
)
    requires
        entries.len() == files.len(),
    ensures
        out_of_date(recorded, version, entries, files) <==> recorded is None || recorded->0
            != version || any_misfit(entries, files),
{
    if all_stand(entries, files) && any_misfit(entries, files) {
        let i = choose|i: int|
            0 <= i < entries.len() && (!files[i].exists || ((#[trigger] entries[i]).size is Some
                && files[i].size is Some && entries[i].size->0 != files[i].size->0));
        assert(stands(entries[i], files[i]));
    }
    if !any_misfit(entries, files) {
        assert forall|i: int| 0 <= i < entries.len() implies stands(#[trigger] entries[i], files[i]) by {
            let e = entries[i];
            assert(files[i].exists);
        }
    }
}

/// Two plugins have different keys, and none has that of the channel kit but for
/// an identifier that makes the two the same.
pub proof fn law_plugins_have_their_own_keys(a: Seq<char>, b: Seq<char>)
    ensures
        version_key(a) == version_key(b) <==> a == b,
        version_key("sdk"@) == SDK_VERSION_KEY@,
{
    reveal_strlit("plugin_");
    reveal_strlit("_version");
    reveal_strlit("plugin_sdk_version");
    reveal_strlit("sdk");
    if version_key(a) == version_key(b) {
        assert(version_key(a).len() == version_key(b).len());
        assert(a =~= b) by {
            assert forall|i: int| 0 <= i < a.len() implies a[i] == b[i] by {
                assert(version_key(a)[7 + i] == a[i]);
                assert(version_key(b)[7 + i] == b[i]);
            }
        }
    }
    assert(version_key("sdk"@) =~= SDK_VERSION_KEY@);
}

/// A package is refused exactly where its checksum is not the one that is
/// expected, in lower case, and the error tells both as they are.
pub proof fn law_wrong_packages_are_refused(
    name: Seq<char>,
    expected: Seq<char>,
    actual: Seq<char>,
)
    ensures
        package_fault(name, expected, actual) is None <==> actual == lower_chars(expected),
        package_fault(name, expected, actual) matches Some(e) ==> e == (ErrorView::Md5Mismatch {
            item: name,
            expected,
            actual,
        }),
{
}

/// An entry is no link, and its name has no colon.
pub open spec fn is_plain(entry: ArchiveEntryView) -> bool {
    !entry.is_symlink && !entry.name.contains(':')
}

/// Every entry within the limits is let through, and every other one that is
/// neither a link nor has a colon in its name ends the archive.
pub proof fn law_entries_within_limits_are_let_through(entry: ArchiveEntryView, total: u64)
    ensures
        entry_fault(entry, total) is None <==> !is_plain(entry) || (entry.size
            <= ZIP_MAX_ENTRY_BYTES && total + entry.size <= ZIP_MAX_TOTAL_BYTES && (
        entry.compressed_size == 0 || entry.compressed_size * ZIP_MAX_RATIO > u64::MAX || entry.size
            <= entry.compressed_size * ZIP_MAX_RATIO)),
        counted_bytes(entry) == if is_plain(entry) {
            entry.size as int
        } else {
            0
        },
        ZIP_MAX_TOTAL_BYTES == 8 * ZIP_MAX_ENTRY_BYTES,
{
}

/// Exactly the entries that are plain and stay inside the directory are unpacked,
/// under their own paths: a directory as one, and anything else as a file, with
/// its permission bits and none of the bits above them.
pub proof fn law_safe_entries_are_unpacked(entry: ArchiveEntryView)
    ensures
        entry_step(entry) is Skip <==> !is_plain(entry) || entry.enclosed is None,
        entry_step(entry) matches ZipStepView::Directory { path } ==> entry.is_dir
            && entry.enclosed == Some(path),
        entry_step(entry) matches ZipStepView::File { path, mode } ==> !entry.is_dir
            && entry.enclosed == Some(path) && (mode is Some <==> entry.unix_mode is Some)
            && (mode matches Some(m) ==> m <= 0o7777 && (entry.unix_mode->0 <= 0o7777 ==> m
            == entry.unix_mode->0)),
{
    if entry.unix_mode is Some {
        let u = entry.unix_mode->0;
        assert(u & 0o7777 <= 0o7777 && (u <= 0o7777 ==> u & 0o7777 == u)) by (bit_vector);
    }
}

/// Exactly the files of a failed package whose names stay inside the game
/// directory are taken away.
pub proof fn law_failed_packages_are_taken_away(entries: Seq<EntryView>, n: int, path: Seq<char>)
    requires
        0 <= n <= entries.len(),
    ensures
        removable(entries, n).contains(path) <==> asset_name_fault(path) is None && exists|i: int|
            0 <= i < n && (#[trigger] entries[i]).path == path,
    decreases n,
{
    if n > 0 {
        law_failed_packages_are_taken_away(entries, n - 1, path);
        let b = removable(entries, n - 1);
        let r = removable(entries, n);
        if b.contains(path) {
            let i = choose|i: int| 0 <= i < b.len() && b[i] == path;
            assert(r[i] == path);
            let k = choose|k: int| 0 <= k < n - 1 && (#[trigger] entries[k]).path == path;
            assert(entries[k].path == path);
        }
        if entries[n - 1].path == path && asset_name_fault(path) is None {
            assert(r[b.len() as int] == path);
        }
        if r.contains(path) {
            let i = choose|i: int| 0 <= i < r.len() && r[i] == path;
            if i < b.len() {
                assert(b[i] == path);
            } else {
                assert(entries[n - 1].path == path);
            }
        }
    }
}

/// A recorded version keeps every other character: what stands before and behind
/// a line break is joined.
pub proof fn law_line_breaks_are_dropped(a: Seq<char>, b: Seq<char>)
    ensures
        on_one_line(a + seq!['\n'] + b) == on_one_line(a) + on_one_line(b),
        on_one_line(a + seq!['\r'] + b) == on_one_line(a) + on_one_line(b),
        on_one_line(a + b) == on_one_line(a) + on_one_line(b),
    decreases b.len(),
{
    lemma_joined(a, b);
    lemma_joined(a + seq!['\n'], b);
    lemma_joined(a + seq!['\r'], b);
    assert((a + seq!['\n']).drop_last() =~= a);
    assert((a + seq!['\r']).drop_last() =~= a);
}

proof fn lemma_joined(a: Seq<char>, b: Seq<char>)
    ensures
        on_one_line(a + b) == on_one_line(a) + on_one_line(b),
    decreases b.len(),
{
    if b.len() == 0 {
        assert(a + b =~= a);
        assert(on_one_line(a) + on_one_line(b) =~= on_one_line(a));
    } else {
        lemma_joined(a, b.drop_last());
        assert((a + b).drop_last() =~= a + b.drop_last());
        assert(on_one_line(a + b) =~= on_one_line(a) + on_one_line(b));
    }
}

} // verus!

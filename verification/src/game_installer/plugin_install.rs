//! Installing plugins and channel kits: what is out of date, which entries of an
//! archive are unpacked, and what is left behind when a check fails.

use vstd::prelude::*;
use crate::collections::put_text;
use crate::collections::text_at;
use crate::collections::TextMap;
use crate::collections::texts;
use crate::collections::value_at;
use crate::digest::md5_hex;
use crate::digest::md5_hex_of;
use crate::progress::SophonProgress;
use crate::strings::has_char;
use crate::text::behind_last;
use crate::text::chars_of;
use crate::text::decimal;
use crate::text::last_part;
use crate::text::lower_chars;
use crate::text::push_decimal;
use crate::text::spells;
use crate::text::text_of;
use crate::text::to_lower_chars;
use crate::text::views;
use super::error::ErrorView;
use super::error::SophonError;
use super::error::SophonResult;
use super::names::asset_name_fault;
use super::names::validate_asset_name;
use super::plugin_api::ChannelSdkData;
use super::plugin_api::entry_views;
use super::plugin_api::EntryView;
use super::plugin_api::PluginPackageInfo;
use super::plugin_api::ValidationEntry;

verus! {

/// The file that records the installed versions.
pub const PLUGIN_VERSIONS_FILE: &'static str = "plugin_versions.json";

/// The key under which the version of the channel kit is recorded.
pub const SDK_VERSION_KEY: &'static str = "plugin_sdk_version";

/// How many bytes one entry of an archive may unpack to.
pub const ZIP_MAX_ENTRY_BYTES: u64 = 536870912;

/// How many bytes an archive may unpack to.
pub const ZIP_MAX_TOTAL_BYTES: u64 = 4294967296;

/// How many entries an archive may have.
pub const ZIP_MAX_ENTRIES: usize = 8192;

/// How many times its packed size an entry may unpack to.
pub const ZIP_MAX_RATIO: u64 = 1000;

/// The key under which the version of a plugin is recorded.
pub open spec fn version_key(plugin_id: Seq<char>) -> Seq<char> {
    "plugin_"@ + plugin_id + "_version"@
}

/// The key under which the version of a plugin is recorded.
pub fn plugin_version_key(plugin_id: &str) -> (r: String)
    ensures
        r@ == version_key(plugin_id@),
{
    let mut out: String = "plugin_".to_owned();
    out.append(plugin_id);
    out.append("_version");
    out
}

/// `s` without line breaks.
pub open spec fn on_one_line(s: Seq<char>) -> Seq<char>
    decreases s.len(),
{
    if s.len() == 0 {
        s
    } else if s.last() == '\n' || s.last() == '\r' {
        on_one_line(s.drop_last())
    } else {
        on_one_line(s.drop_last()).push(s.last())
    }
}

/// A version as it is recorded: without line breaks.
pub fn recorded_version(version: &str) -> (r: String)
    ensures
        r@ == on_one_line(version@),
{
    let chars = chars_of(version);
    let mut out: String = String::new();
    let mut i: usize = 0;
    assert(chars@.take(0) =~= Seq::<char>::empty());
    while i < chars.len()
        invariant
            i <= chars@.len(),
            out@ == on_one_line(chars@.take(i as int)),
        decreases chars@.len() - i,
    {
        let c: char = chars[i];
        assert(chars@.take(i as int + 1).drop_last() =~= chars@.take(i as int));
        if c != '\n' && c != '\r' {
            out.push(c);
        }
        i += 1;
    }
    assert(chars@.take(i as int) =~= version@);
    out
}

/// Records a version under a key, in place of one that was there.
pub fn write_plugin_version(versions: &mut TextMap, key: &str, value: &str)
    ensures
        texts(*final(versions)) == texts(*old(versions)).insert(key@, value@),
{
    put_text(versions, key.to_owned(), value.to_owned());
}

/// What is found at the place of a file: whether it is there, and its size and
/// MD5 as far as they could be read.
#[derive(Debug)]
pub struct DiskFile {
    pub exists: bool,
    pub size: Option<u64>,
    pub md5: Option<String>,
}

/// The file is there, with the size that is asked for where both are known.
pub open spec fn stands(entry: EntryView, file: DiskFile) -> bool {
    &&& file.exists
    &&& match (entry.size, file.size) {
        (Some(want), Some(have)) => want == have,
        _ => true,
    }
}

/// The file is there, with the size and the MD5 that are asked for.
pub open spec fn sound(entry: EntryView, file: DiskFile) -> bool {
    &&& stands(entry, file)
    &&& match entry.md5 {
        Some(want) => text_of(file.md5) == Some(want),
        None => true,
    }
}

/// Every file stands.
pub open spec fn all_stand(entries: Seq<EntryView>, files: Seq<DiskFile>) -> bool {
    forall|i: int| 0 <= i < entries.len() ==> stands(#[trigger] entries[i], files[i])
}

/// Every file is sound.
pub open spec fn all_sound(entries: Seq<EntryView>, files: Seq<DiskFile>) -> bool {
    forall|i: int| 0 <= i < entries.len() ==> sound(#[trigger] entries[i], files[i])
}

fn file_stands(entry: &ValidationEntry, file: &DiskFile) -> (r: bool)
    ensures
        r == stands(entry@, *file),
{
    if !file.exists {
        return false;
    }
    match (entry.size, file.size) {
        (Some(want), Some(have)) => want == have,
        _ => true,
    }
}

fn file_sound(entry: &ValidationEntry, file: &DiskFile) -> (r: bool)
    ensures
        r == sound(entry@, *file),
{
    if !file_stands(entry, file) {
        return false;
    }
    match &entry.md5 {
        Some(want) => match &file.md5 {
            Some(have) => *have.as_str() == *want.as_str(),
            None => false,
        },
        None => true,
    }
}

/// Whether every file that a package has to bring is there, as it has to be.
pub fn verify_validation(validation: &Vec<ValidationEntry>, files: &Vec<DiskFile>) -> (r: bool)
    requires
        validation@.len() == files@.len(),
    ensures
        r == all_sound(entry_views(validation@), files@),
{
    let ghost v = entry_views(validation@);
    let mut i: usize = 0;
    while i < validation.len()
        invariant
            i <= validation@.len(),
            validation@.len() == files@.len(),
            v == entry_views(validation@),
            forall|k: int| 0 <= k < i ==> sound(#[trigger] v[k], files@[k]),
        decreases validation@.len() - i,
    {
        assert(v[i as int] == validation@[i as int]@);
        if !file_sound(&validation[i], &files[i]) {
            return false;
        }
        i += 1;
    }
    true
}

fn files_stand(validation: &Vec<ValidationEntry>, files: &Vec<DiskFile>) -> (r: bool)
    requires
        validation@.len() == files@.len(),
    ensures
        r == all_stand(entry_views(validation@), files@),
{
    let ghost v = entry_views(validation@);
    let mut i: usize = 0;
    while i < validation.len()
        invariant
            i <= validation@.len(),
            validation@.len() == files@.len(),
            v == entry_views(validation@),
            forall|k: int| 0 <= k < i ==> stands(#[trigger] v[k], files@[k]),
        decreases validation@.len() - i,
    {
        assert(v[i as int] == validation@[i as int]@);
        if !file_stands(&validation[i], &files[i]) {
            return false;
        }
        i += 1;
    }
    true
}

fn recorded_is(versions: &TextMap, key: &str, version: &str) -> (r: bool)
    ensures
        r == (value_at(texts(*versions), key@) == Some(version@)),
{
    match text_at(versions, key) {
        Some(v) => *v.as_str() == *version,
        None => false,
    }
}

/// A plugin is installed anew: another version is recorded, or one of its files
/// does not stand.
pub open spec fn out_of_date(
    recorded: Option<Seq<char>>,
    version: Seq<char>,
    entries: Seq<EntryView>,
    files: Seq<DiskFile>,
) -> bool {
    recorded != Some(version) || !all_stand(entries, files)
}

/// Whether a plugin is installed anew.
pub fn plugin_needs_update(
    versions: &TextMap,
    plugin_id: &str,
    version: &str,
    validation: &Vec<ValidationEntry>,
    files: &Vec<DiskFile>,
) -> (r: bool)
    requires
        validation@.len() == files@.len(),
    ensures
        r == out_of_date(
            value_at(texts(*versions), version_key(plugin_id@)),
            version@,
            entry_views(validation@),
            files@,
        ),
{
    let key = plugin_version_key(plugin_id);
    !recorded_is(versions, key.as_str(), version) || !files_stand(validation, files)
}

/// What is wrong with the digest of a package, if anything.
pub open spec fn package_fault(
    name: Seq<char>,
    expected: Seq<char>,
    actual: Seq<char>,
) -> Option<ErrorView> {
    if actual == lower_chars(expected) {
        None
    } else {
        Some(ErrorView::Md5Mismatch { item: name, expected, actual })
    }
}

/// Compares the digest of a package with the one that is expected, in upper or
/// lower case.
pub fn check_package_digest(name: &str, expected: &str, actual: &str) -> (r: SophonResult<()>)
    ensures
        match package_fault(name@, expected@, actual@) {
            None => r is Ok,
            Some(e) => r matches Err(f) && f@ == e,
        },
{
    let want = to_lower_chars(expected);
    if spells(&want, actual) {
        Ok(())
    } else {
        Err(
            SophonError::Md5Mismatch {
                item: name.to_owned(),
                expected: expected.to_owned(),
                actual: actual.to_owned(),
            },
        )
    }
}

/// Checks a package that was fetched against the MD5 that is expected.
pub fn check_package(name: &str, expected: &str, data: &Vec<u8>) -> (r: SophonResult<()>)
    ensures
        match package_fault(name@, expected@, md5_hex_of(data@)) {
            None => r is Ok,
            Some(e) => r matches Err(f) && f@ == e,
        },
{
    let actual = md5_hex(data);
    check_package_digest(name, expected, actual.as_str())
}

/// An entry of an archive, as its directory describes it. `enclosed` is its path
/// where that stays inside the directory that it is unpacked to.
#[derive(Debug)]
pub struct ArchiveEntry {
    pub name: String,
    pub is_symlink: bool,
    pub is_dir: bool,
    pub size: u64,
    pub compressed_size: u64,
    pub enclosed: Option<String>,
    pub unix_mode: Option<u32>,
}

/// What an entry of an archive says.
pub ghost struct ArchiveEntryView {
    pub name: Seq<char>,
    pub is_symlink: bool,
    pub is_dir: bool,
    pub size: u64,
    pub compressed_size: u64,
    pub enclosed: Option<Seq<char>>,
    pub unix_mode: Option<u32>,
}

impl View for ArchiveEntry {
    type V = ArchiveEntryView;

    open spec fn view(&self) -> ArchiveEntryView {
        ArchiveEntryView {
            name: self.name@,
            is_symlink: self.is_symlink,
            is_dir: self.is_dir,
            size: self.size,
            compressed_size: self.compressed_size,
            enclosed: text_of(self.enclosed),
            unix_mode: self.unix_mode,
        }
    }
}

/// What is done with an entry.
#[derive(Debug)]
pub enum ZipStep {
    Skip,
    Directory { path: String },
    File { path: String, mode: Option<u32> },
}

/// What is done with an entry, in terms of what the step says.
pub ghost enum ZipStepView {
    Skip,
    Directory { path: Seq<char> },
    File { path: Seq<char>, mode: Option<u32> },
}

impl View for ZipStep {
    type V = ZipStepView;

    open spec fn view(&self) -> ZipStepView {
        match *self {
            ZipStep::Skip => ZipStepView::Skip,
            ZipStep::Directory { path } => ZipStepView::Directory { path: path@ },
            ZipStep::File { path, mode } => ZipStepView::File { path: path@, mode },
        }
    }
}

/// An entry is left out before it is counted: a link, or a name with a colon.
pub open spec fn left_out(entry: ArchiveEntryView) -> bool {
    entry.is_symlink || entry.name.contains(':')
}

/// An entry unpacks to more than its packed size allows.
pub open spec fn inflated(entry: ArchiveEntryView) -> bool {
    &&& entry.compressed_size > 0
    &&& entry.compressed_size * ZIP_MAX_RATIO <= u64::MAX
    &&& entry.size > entry.compressed_size * ZIP_MAX_RATIO
}

/// Why an archive is refused at an entry, after `total` bytes, if it is.
pub open spec fn entry_fault(entry: ArchiveEntryView, total: u64) -> Option<ErrorView> {
    if left_out(entry) {
        None
    } else if entry.size > ZIP_MAX_ENTRY_BYTES {
        Some(
            ErrorView::Decompression(
                "entry '"@ + entry.name + "' declares "@ + decimal(entry.size as nat)
                    + " bytes, exceeds per-entry limit of "@ + decimal(ZIP_MAX_ENTRY_BYTES as nat),
            ),
        )
    } else if inflated(entry) {
        Some(
            ErrorView::Decompression(
                "entry '"@ + entry.name + "' ratio "@ + decimal(
                    (entry.size as int / entry.compressed_size as int) as nat,
                ) + " exceeds "@ + decimal(ZIP_MAX_RATIO as nat),
            ),
        )
    } else if total + entry.size > u64::MAX {
        Some(ErrorView::Decompression("total extracted size overflows u64"@))
    } else if total + entry.size > ZIP_MAX_TOTAL_BYTES {
        Some(
            ErrorView::Decompression(
                "extracted size would exceed "@ + decimal(ZIP_MAX_TOTAL_BYTES as nat) + " bytes"@,
            ),
        )
    } else {
        None
    }
}

/// What is done with an entry that the archive is not refused for.
pub open spec fn entry_step(entry: ArchiveEntryView) -> ZipStepView {
    if left_out(entry) {
        ZipStepView::Skip
    } else {
        match entry.enclosed {
            None => ZipStepView::Skip,
            Some(path) => if entry.is_dir {
                ZipStepView::Directory { path }
            } else {
                ZipStepView::File {
                    path,
                    mode: match entry.unix_mode {
                        Some(mode) => Some(mode & 0o7777),
                        None => None,
                    },
                }
            },
        }
    }
}

/// What an entry adds to the bytes that an archive unpacks to.
pub open spec fn counted_bytes(entry: ArchiveEntryView) -> int {
    if left_out(entry) {
        0
    } else {
        entry.size as int
    }
}

/// What an archive has unpacked to so far.
#[derive(Debug)]
pub struct ZipBudget {
    pub total: u64,
}

fn oversized(entry: &ArchiveEntry) -> (r: SophonError)
    ensures
        r@ == ErrorView::Decompression(
            "entry '"@ + entry.name@ + "' declares "@ + decimal(entry.size as nat)
                + " bytes, exceeds per-entry limit of "@ + decimal(ZIP_MAX_ENTRY_BYTES as nat),
        ),
{
    let mut text: String = "entry '".to_owned();
    text.append(entry.name.as_str());
    text.append("' declares ");
    push_decimal(&mut text, entry.size);
    text.append(" bytes, exceeds per-entry limit of ");
    push_decimal(&mut text, ZIP_MAX_ENTRY_BYTES);
    SophonError::Decompression(text)
}

fn too_dense(entry: &ArchiveEntry) -> (r: SophonError)
    requires
        entry.compressed_size > 0,
    ensures
        r@ == ErrorView::Decompression(
            "entry '"@ + entry.name@ + "' ratio "@ + decimal(
                (entry.size as int / entry.compressed_size as int) as nat,
            ) + " exceeds "@ + decimal(ZIP_MAX_RATIO as nat),
        ),
{
    let mut text: String = "entry '".to_owned();
    text.append(entry.name.as_str());
    text.append("' ratio ");
    push_decimal(&mut text, entry.size / entry.compressed_size);
    text.append(" exceeds ");
    push_decimal(&mut text, ZIP_MAX_RATIO);
    SophonError::Decompression(text)
}

fn budget_spent() -> (r: SophonError)
    ensures
        r@ == ErrorView::Decompression(
            "extracted size would exceed "@ + decimal(ZIP_MAX_TOTAL_BYTES as nat) + " bytes"@,
        ),
{
    let mut text: String = "extracted size would exceed ".to_owned();
    push_decimal(&mut text, ZIP_MAX_TOTAL_BYTES);
    text.append(" bytes");
    SophonError::Decompression(text)
}

/// Refuses an archive with too many entries.
pub fn check_entry_count(count: usize) -> (r: SophonResult<ZipBudget>)
    ensures
        if count > ZIP_MAX_ENTRIES {
            r matches Err(e) && e@ == ErrorView::Decompression(
                "archive has "@ + decimal(count as nat) + " entries, exceeds limit of "@ + decimal(
                    ZIP_MAX_ENTRIES as nat,
                ),
            )
        } else {
            r matches Ok(budget) && budget.total == 0
        },
{
    if count > ZIP_MAX_ENTRIES {
        let mut text: String = "archive has ".to_owned();
        push_decimal(&mut text, count as u64);
        text.append(" entries, exceeds limit of ");
        push_decimal(&mut text, ZIP_MAX_ENTRIES as u64);
        return Err(SophonError::Decompression(text));
    }
    Ok(ZipBudget { total: 0 })
}

impl ZipBudget {
    /// Decides on the next entry of an archive, and counts it.
    pub fn next_entry(&mut self, entry: &ArchiveEntry) -> (r: SophonResult<ZipStep>)
        ensures
            match entry_fault(entry@, old(self).total) {
                Some(e) => r matches Err(f) && f@ == e && *final(self) == *old(self),
                None => r matches Ok(step) && step@ == entry_step(entry@) && final(self).total
                    == old(self).total + counted_bytes(entry@),
            },
    {
        if entry.is_symlink || has_char(&chars_of(entry.name.as_str()), ':') {
            return Ok(ZipStep::Skip);
        }
        if entry.size > ZIP_MAX_ENTRY_BYTES {
            return Err(oversized(entry));
        }
        if entry.compressed_size > 0 {
            let allowed: u128 = entry.compressed_size as u128 * ZIP_MAX_RATIO as u128;
            if allowed <= u64::MAX as u128 && entry.size as u128 > allowed {
                return Err(too_dense(entry));
            }
        }
        if entry.size > u64::MAX - self.total {
            return Err(SophonError::Decompression("total extracted size overflows u64".to_owned()));
        }
        let total: u64 = self.total + entry.size;
        if total > ZIP_MAX_TOTAL_BYTES {
            return Err(budget_spent());
        }
        self.total = total;
        match &entry.enclosed {
            None => Ok(ZipStep::Skip),
            Some(path) => if entry.is_dir {
                Ok(ZipStep::Directory { path: path.clone() })
            } else {
                let mode = match entry.unix_mode {
                    Some(mode) => Some(mode & 0o7777),
                    None => None,
                };
                Ok(ZipStep::File { path: path.clone(), mode })
            },
        }
    }
}

/// How many bytes the first `n` entries of an archive unpack to.
pub open spec fn unpacked_bytes(entries: Seq<ArchiveEntryView>, n: int) -> int
    decreases n,
{
    if n <= 0 {
        0
    } else {
        unpacked_bytes(entries, n - 1) + counted_bytes(entries[n - 1])
    }
}

/// The first `n` entries of an archive were each let through, after the bytes of
/// those before it.
pub open spec fn let_through(entries: Seq<ArchiveEntryView>, n: int) -> bool
    decreases n,
{
    n <= 0 || (let_through(entries, n - 1) && unpacked_bytes(entries, n - 1) <= u64::MAX
        && entry_fault(entries[n - 1], unpacked_bytes(entries, n - 1) as u64) is None)
}

/// What is unpacked of an archive stays within the limits: each entry that is
/// written is within its own, and all of them together are within that of the
/// archive.
pub proof fn law_archives_stay_within_limits(entries: Seq<ArchiveEntryView>, n: int)
    requires
        0 <= n <= entries.len(),
        let_through(entries, n),
    ensures
        0 <= unpacked_bytes(entries, n) <= ZIP_MAX_TOTAL_BYTES,
        forall|i: int|
            0 <= i < n && !(entry_step(#[trigger] entries[i]) is Skip) ==> entries[i].size
                <= ZIP_MAX_ENTRY_BYTES && !left_out(entries[i]) && !inflated(entries[i]),
    decreases n,
{
    if n > 0 {
        law_archives_stay_within_limits(entries, n - 1);
    }
}

/// The name under which the package at `url` is kept, or why it is refused.
pub fn archive_name(url: &str) -> (r: SophonResult<String>)
    ensures
        match asset_name_fault(behind_last(url@, '/')) {
            None => r matches Ok(name) && name@ == behind_last(url@, '/'),
            Some(_) => r matches Err(e) && e@ == ErrorView::PathTraversal(behind_last(url@, '/')),
        },
{
    let name = last_part(url, '/');
    match validate_asset_name(name.as_str()) {
        Ok(()) => Ok(name),
        Err(_) => Err(SophonError::PathTraversal(name)),
    }
}

/// The package to fetch for a plugin: none where it is up to date.
pub fn plugin_archive(
    versions: &TextMap,
    plugin: &PluginPackageInfo,
    files: &Vec<DiskFile>,
) -> (r: SophonResult<Option<String>>)
    requires
        plugin.plugin_pkg.validation@.len() == files@.len(),
    ensures
        ({
            let p = plugin@;
            let name = behind_last(p.plugin_pkg.url, '/');
            if !out_of_date(
                value_at(texts(*versions), version_key(p.plugin_id)),
                p.version,
                p.plugin_pkg.validation,
                files@,
            ) {
                r matches Ok(None)
            } else if asset_name_fault(name) is Some {
                r matches Err(e) && e@ == ErrorView::PathTraversal(name)
            } else {
                r matches Ok(Some(s)) && s@ == name
            }
        }),
{
    if !plugin_needs_update(
        versions,
        plugin.plugin_id.as_str(),
        plugin.version.as_str(),
        &plugin.plugin_pkg.validation,
        files,
    ) {
        return Ok(None);
    }
    match archive_name(plugin.plugin_pkg.url.as_str()) {
        Ok(name) => Ok(Some(name)),
        Err(e) => Err(e),
    }
}

/// The package to fetch for a channel kit: none where its version is recorded
/// and its files are sound.
pub fn sdk_archive(versions: &TextMap, sdk: &ChannelSdkData, files: &Vec<DiskFile>) -> (r:
    SophonResult<Option<String>>)
    requires
        sdk.channel_sdk_pkg.validation@.len() == files@.len(),
    ensures
        ({
            let s = sdk@;
            let name = behind_last(s.channel_sdk_pkg.url, '/');
            if value_at(texts(*versions), SDK_VERSION_KEY@) == Some(s.version) && all_sound(
                s.channel_sdk_pkg.validation,
                files@,
            ) {
                r matches Ok(None)
            } else if asset_name_fault(name) is Some {
                r matches Err(e) && e@ == ErrorView::PathTraversal(name)
            } else {
                r matches Ok(Some(n)) && n@ == name
            }
        }),
{
    if recorded_is(versions, SDK_VERSION_KEY, sdk.version.as_str()) && verify_validation(
        &sdk.channel_sdk_pkg.validation,
        files,
    ) {
        return Ok(None);
    }
    match archive_name(sdk.channel_sdk_pkg.url.as_str()) {
        Ok(name) => Ok(Some(name)),
        Err(e) => Err(e),
    }
}

/// Those of the first `n` files whose names stay inside the game directory.
pub open spec fn removable(entries: Seq<EntryView>, n: int) -> Seq<Seq<char>>
    decreases n,
{
    if n <= 0 {
        Seq::empty()
    } else if asset_name_fault(entries[n - 1].path) is None {
        removable(entries, n - 1).push(entries[n - 1].path)
    } else {
        removable(entries, n - 1)
    }
}

/// The files that are taken away again when a package fails its check.
pub fn files_to_take_away(validation: &Vec<ValidationEntry>) -> (r: Vec<String>)
    ensures
        views(r@) == removable(entry_views(validation@), validation@.len() as int),
{
    let ghost v = entry_views(validation@);
    let mut out: Vec<String> = Vec::new();
    let mut i: usize = 0;
    assert(views(out@) =~= removable(v, 0));
    while i < validation.len()
        invariant
            i <= validation@.len(),
            v == entry_views(validation@),
            views(out@) == removable(v, i as int),
        decreases validation@.len() - i,
    {
        let path = &validation[i].path;
        assert(v[i as int].path == path@);
        let ghost before = views(out@);
        if validate_asset_name(path.as_str()).is_ok() {
            out.push(path.clone());
            assert(views(out@) =~= before.push(path@));
        }
        i += 1;
    }
    out
}

/// How the installation of a package ends, once it is unpacked.
#[derive(Debug)]
pub enum PackageEnd {
    /// The version is recorded under the key.
    Record { key: String, version: String },
    /// The files are taken away, and the error is reported.
    Undo { files: Vec<String>, error: SophonError },
}

/// The package of what is named `id` ends as it has to: its version is recorded
/// where its files are sound, and otherwise they are taken away.
pub open spec fn ends_well(
    end: PackageEnd,
    id: Seq<char>,
    key: Seq<char>,
    version: Seq<char>,
    entries: Seq<EntryView>,
    files: Seq<DiskFile>,
) -> bool {
    if all_sound(entries, files) {
        end matches PackageEnd::Record { key: k, version: v } && k@ == key && v@ == on_one_line(
            version,
        )
    } else {
        end matches PackageEnd::Undo { files: f, error } && views(f@) == removable(
            entries,
            entries.len() as int,
        ) && error@ == ErrorView::PluginValidationFailed(id)
    }
}

fn end_package(
    id: &str,
    key: &str,
    version: &str,
    validation: &Vec<ValidationEntry>,
    files: &Vec<DiskFile>,
) -> (r: PackageEnd)
    requires
        validation@.len() == files@.len(),
    ensures
        ends_well(r, id@, key@, version@, entry_views(validation@), files@),
{
    if verify_validation(validation, files) {
        PackageEnd::Record { key: key.to_owned(), version: recorded_version(version) }
    } else {
        PackageEnd::Undo {
            files: files_to_take_away(validation),
            error: SophonError::PluginValidationFailed(id.to_owned()),
        }
    }
}

/// Ends the installation of a plugin whose package is unpacked.
pub fn end_plugin(plugin: &PluginPackageInfo, files: &Vec<DiskFile>) -> (r: PackageEnd)
    requires
        plugin.plugin_pkg.validation@.len() == files@.len(),
    ensures
        ends_well(
            r,
            plugin.plugin_id@,
            version_key(plugin.plugin_id@),
            plugin.version@,
            plugin@.plugin_pkg.validation,
            files@,
        ),
{
    let key = plugin_version_key(plugin.plugin_id.as_str());
    end_package(
        plugin.plugin_id.as_str(),
        key.as_str(),
        plugin.version.as_str(),
        &plugin.plugin_pkg.validation,
        files,
    )
}

/// Ends the installation of a channel kit whose package is unpacked.
pub fn end_sdk(sdk: &ChannelSdkData, files: &Vec<DiskFile>) -> (r: PackageEnd)
    requires
        sdk.channel_sdk_pkg.validation@.len() == files@.len(),
    ensures
        ends_well(
            r,
            sdk.game.id@,
            SDK_VERSION_KEY@,
            sdk.version@,
            sdk@.channel_sdk_pkg.validation,
            files@,
        ),
{
    end_package(
        sdk.game.id.as_str(),
        SDK_VERSION_KEY,
        sdk.version.as_str(),
        &sdk.channel_sdk_pkg.validation,
        files,
    )
}

/// What is reported before a plugin is installed.
pub fn plugin_report(plugin: &PluginPackageInfo, total: usize) -> (r: SophonProgress)
    ensures
        r matches SophonProgress::InstallingPlugins { current_plugin, total_plugins }
            && current_plugin@ == plugin.plugin_id@ && total_plugins == total,
{
    SophonProgress::InstallingPlugins {
        current_plugin: plugin.plugin_id.clone(),
        total_plugins: total,
    }
}

/// What is reported before a channel kit is installed.
pub fn sdk_report(sdk: &ChannelSdkData, total: usize) -> (r: SophonProgress)
    ensures
        r matches SophonProgress::InstallingSdks { current_sdk, total_sdks } && current_sdk@
            == "sdk_"@ + sdk.game.id@ && total_sdks == total,
{
    let mut name: String = "sdk_".to_owned();
    name.append(sdk.game.id.as_str());
    SophonProgress::InstallingSdks { current_sdk: name, total_sdks: total }
}

/// A recorded version holds no line break, and what holds none is recorded as it
/// is.
pub proof fn law_recorded_versions_are_one_line(s: Seq<char>)
    ensures
        !on_one_line(s).contains('\n') && !on_one_line(s).contains('\r'),
        !s.contains('\n') && !s.contains('\r') ==> on_one_line(s) == s,
    decreases s.len(),
{
    if s.len() > 0 {
        let head = s.drop_last();
        law_recorded_versions_are_one_line(head);
        let r = on_one_line(s);
        assert forall|c: char| c == '\n' || c == '\r' implies !r.contains(c) by {
            if r.contains(c) {
                let i = choose|i: int| 0 <= i < r.len() && r[i] == c;
                if i < on_one_line(head).len() {
                    assert(on_one_line(head)[i] == c);
                    assert(on_one_line(head).contains(c));
                }
            }
        }
        if !s.contains('\n') && !s.contains('\r') {
            assert forall|c: char| c == '\n' || c == '\r' implies !head.contains(c) by {
                if head.contains(c) {
                    let i = choose|i: int| 0 <= i < head.len() && head[i] == c;
                    assert(s[i] == c);
                }
            }
            assert(s.contains(s.last()));
            assert(head.push(s.last()) =~= s);
        }
    }
}

/// A plugin whose installation has ended with its version recorded is up to date
/// until one of its files changes, where its version holds no line break.
pub proof fn law_installed_plugins_are_up_to_date(
    versions: Map<Seq<char>, Seq<char>>,
    id: Seq<char>,
    version: Seq<char>,
    entries: Seq<EntryView>,
    files: Seq<DiskFile>,
)
    requires
        all_sound(entries, files),
        !version.contains('\n') && !version.contains('\r'),
    ensures
        !out_of_date(
            value_at(versions.insert(version_key(id), on_one_line(version)), version_key(id)),
            version,
            entries,
            files,
        ),
{
    law_recorded_versions_are_one_line(version);
    assert forall|i: int| 0 <= i < entries.len() implies stands(#[trigger] entries[i], files[i]) by {
        assert(sound(entries[i], files[i]));
    }
}

} // verus!

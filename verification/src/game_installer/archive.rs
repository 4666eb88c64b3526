//! The entries of a zip archive, out of its bytes.

use std::io::Read;
use vstd::prelude::*;
use crate::text::decimal;
use super::error::ErrorView;
use super::error::SophonError;
use super::error::SophonResult;
use super::plugin_install::ArchiveEntry;
use super::plugin_install::ArchiveEntryView;
use super::plugin_install::ZipBudget;
use super::plugin_install::ZipStep;
use super::plugin_install::ZIP_MAX_ENTRIES;
use super::plugin_install::check_entry_count;
use super::plugin_install::counted_bytes;
use super::plugin_install::entry_fault;
use super::plugin_install::entry_step;

verus! {

/// The number of entries that the directory of the archive `data` lists, or why
/// there is no such directory.
pub uninterp spec fn zip_count(data: Seq<u8>) -> Result<nat, Seq<char>>;

/// What the directory of the archive `data` says of its `i`-th entry, or why the
/// entry cannot be opened: its name, whether it is a link, whether it is a
/// directory, its size, its packed size, its path where that stays inside the
/// directory that it is unpacked to, and its mode.
pub uninterp spec fn zip_entry(data: Seq<u8>, i: int) -> Result<
    (Seq<char>, bool, bool, u64, u64, Option<Seq<char>>, Option<u32>),
    Seq<char>,
>;

/// What the `i`-th entry of the archive `data` unpacks to, or why it does not.
pub uninterp spec fn zip_content(data: Seq<u8>, i: int) -> Result<Seq<u8>, Seq<char>>;

/// An entry out of what the directory says of it.
pub open spec fn entry_of(
    e: (Seq<char>, bool, bool, u64, u64, Option<Seq<char>>, Option<u32>),
) -> ArchiveEntryView {
    ArchiveEntryView {
        name: e.0,
        is_symlink: e.1,
        is_dir: e.2,
        size: e.3,
        compressed_size: e.4,
        enclosed: e.5,
        unix_mode: e.6,
    }
}

/// `zip::ZipArchive::new` and its `len`: the number of entries. It depends on the
/// bytes alone.
#[verifier::external_body]
fn count_entries(data: &Vec<u8>) -> (r: Result<usize, String>)
    ensures
        match r {
            Ok(n) => zip_count(data@) == Ok::<nat, Seq<char>>(n as nat),
            Err(e) => zip_count(data@) == Err::<nat, Seq<char>>(e@),
        },
{
    match zip::ZipArchive::new(std::io::Cursor::new(data.as_slice())) {
        Ok(archive) => Ok(archive.len()),
        Err(e) => Err(e.to_string()),
    }
}

/// `zip::ZipArchive::by_index`: what the entry says of itself through `name`,
/// `is_symlink`, `is_dir`, `size`, `compressed_size`, `enclosed_name` and
/// `unix_mode`. It depends on the bytes and the index alone.
#[verifier::external_body]
fn describe_entry(data: &Vec<u8>, i: usize) -> (r: Result<ArchiveEntry, String>)
    ensures
        match r {
            Ok(e) => zip_entry(data@, i as int) is Ok && e@ == entry_of(
                zip_entry(data@, i as int)->Ok_0,
            ),
            Err(e) => zip_entry(data@, i as int) is Err && e@ == zip_entry(
                data@,
                i as int,
            )->Err_0,
        },
{
    let source = std::io::Cursor::new(data.as_slice());
    let mut archive = zip::ZipArchive::new(source).map_err(|e| e.to_string())?;
    let e = archive.by_index(i).map_err(|e| e.to_string())?;
    Ok(
        ArchiveEntry {
            name: e.name().to_string(),
            is_symlink: e.is_symlink(),
            is_dir: e.is_dir(),
            size: e.size(),
            compressed_size: e.compressed_size(),
            enclosed: e.enclosed_name().map(|p| p.to_string_lossy().into_owned()),
            unix_mode: e.unix_mode(),
        },
    )
}

/// `zip::ZipArchive::by_index`, read to its end: the bytes of the entry. They
/// depend on the archive and the index alone.
#[verifier::external_body]
fn read_entry(data: &Vec<u8>, i: usize) -> (r: Result<Vec<u8>, String>)
    ensures
        match r {
            Ok(v) => zip_content(data@, i as int) == Ok::<Seq<u8>, Seq<char>>(v@),
            Err(e) => zip_content(data@, i as int) == Err::<Seq<u8>, Seq<char>>(e@),
        },
{
    let source = std::io::Cursor::new(data.as_slice());
    let mut archive = zip::ZipArchive::new(source).map_err(|e| e.to_string())?;
    let mut out = Vec::new();
    let mut entry = archive.by_index(i).map_err(|e| e.to_string())?;
    entry.read_to_end(&mut out).map_err(|e| e.to_string())?;
    Ok(out)
}

/// Opens an archive: the number of its entries, and an empty account of what they
/// unpack to. Bytes that are no archive are refused, and so are too many entries.
pub fn begin_archive(data: &Vec<u8>) -> (r: SophonResult<(usize, ZipBudget)>)
    ensures
        match zip_count(data@) {
            Err(e) => r matches Err(f) && f@ == ErrorView::Decompression(e),
            Ok(n) => if n > ZIP_MAX_ENTRIES {
                r matches Err(f) && f@ == ErrorView::Decompression(
                    "archive has "@ + decimal(n) + " entries, exceeds limit of "@ + decimal(
                        ZIP_MAX_ENTRIES as nat,
                    ),
                )
            } else {
                r matches Ok((count, budget)) && count == n && budget.total == 0
            },
        },
{
    match count_entries(data) {
        Err(e) => Err(SophonError::Decompression(e)),
        Ok(n) => match check_entry_count(n) {
            Ok(budget) => Ok((n, budget)),
            Err(e) => Err(e),
        },
    }
}

impl ZipBudget {
    /// Decides on the `i`-th entry of an archive, and counts it.
    pub fn next_of(&mut self, data: &Vec<u8>, i: usize) -> (r: SophonResult<ZipStep>)
        ensures
            match zip_entry(data@, i as int) {
                Err(e) => r matches Err(f) && f@ == ErrorView::Decompression(e) && *final(self)
                    == *old(self),
                Ok(entry) => match entry_fault(entry_of(entry), old(self).total) {
                    Some(e) => r matches Err(f) && f@ == e && *final(self) == *old(self),
                    None => r matches Ok(step) && step@ == entry_step(entry_of(entry))
                        && final(self).total == old(self).total + counted_bytes(entry_of(entry)),
                },
            },
    {
        match describe_entry(data, i) {
            Err(e) => Err(SophonError::Decompression(e)),
            Ok(entry) => self.next_entry(&entry),
        }
    }
}

/// What the `i`-th entry of an archive unpacks to.
pub fn content_of(data: &Vec<u8>, i: usize) -> (r: SophonResult<Vec<u8>>)
    ensures
        match zip_content(data@, i as int) {
            Ok(bytes) => r matches Ok(v) && v@ == bytes,
            Err(e) => r matches Err(f) && f@ == ErrorView::Io(e),
        },
{
    match read_entry(data, i) {
        Ok(v) => Ok(v),
        Err(e) => Err(SophonError::Io(e)),
    }
}

} // verus!

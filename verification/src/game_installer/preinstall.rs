//! The downloads of a preinstallation, and the state that it leaves.

use vstd::prelude::*;
use crate::collections::add_name;
use crate::collections::NameMap;
use crate::collections::names;
use crate::collections::NameSet;
use crate::collections::new_name_set;
use crate::collections::number_at;
use crate::collections::numbered_names;
use crate::collections::numbers;
use crate::collections::put_number;
use crate::digest::equal_ignoring_case;
use crate::digest::md5_hex;
use crate::digest::md5_hex_of;
use crate::digest::same_ignoring_case;
use crate::ordering::as_ints;
use crate::text::push_signed_decimal;
use crate::text::signed_decimal;
use crate::text::text_of;
use crate::text::views;
use super::api::DownloadInfo;
use super::api::manifest_qualifies;
use super::api::known_locale;
use super::api::qualifies;
use super::api::speaks;
use super::api::qualifying_below;
use super::api::qualifying_manifests;
use super::error::ErrorView;
use super::error::SophonError;
use super::error::SophonResult;
use super::flow::marker_file_name;
use super::flow::marker_name;
use super::installer::saturated;
use super::names::patch_name_fault;
use super::names::validate_patch_name;
use super::preinstall_plan::DiffDownloads;
use super::preinstall_plan::id_pairs;
use super::preinstall_plan::patch_file_views;
use super::preinstall_plan::PatchAssetInfo;
use super::preinstall_plan::PatchChunkInfo;
use super::preinstall_plan::PatchFileView;
use super::preinstall_plan::PreinstallPlan;
use super::preinstall_plan::target_views;
use super::update::state_file_name;
use super::update::state_name;

verus! {

/// What a preinstallation needs before it starts: something to preinstall, and a
/// version to start from.
pub fn preinstall_base(available: bool, installed_tag: Option<String>) -> (r: SophonResult<String>)
    ensures
        if !available {
            r matches Err(e) && e@ == ErrorView::NoPreinstallAvailable
        } else {
            match text_of(installed_tag) {
                None => r matches Err(e) && e@ == ErrorView::NoInstalledVersion,
                Some(t) => r matches Ok(s) && s@ == t,
            }
        },
{
    if !available {
        return Err(SophonError::NoPreinstallAvailable);
    }
    match installed_tag {
        Some(t) => Ok(t),
        None => Err(SophonError::NoInstalledVersion),
    }
}

/// No manifest behind the one at `i` is for the same part of the game.
pub open spec fn last_for_field(fields: Seq<Seq<char>>, i: int) -> bool {
    forall|j: int| i < j < fields.len() ==> #[trigger] fields[j] != fields[i]
}

/// Those below `n` of the manifests that belong to an installation, one for each
/// part of the game.
pub open spec fn mains_below(fields: Seq<Seq<char>>, lang: Seq<char>, n: int) -> Seq<int>
    decreases n,
{
    if n <= 0 {
        Seq::empty()
    } else if qualifies(fields[n - 1], lang) && last_for_field(fields, n - 1) {
        mains_below(fields, lang, n - 1).push(n - 1)
    } else {
        mains_below(fields, lang, n - 1)
    }
}

fn is_last_for_field(fields: &Vec<String>, i: usize) -> (r: bool)
    requires
        i < fields@.len(),
    ensures
        r == last_for_field(views(fields@), i as int),
{
    let ghost v = views(fields@);
    let n: usize = fields.len();
    let mut j: usize = i + 1;
    while j < n
        invariant
            i < j <= n,
            n == fields@.len(),
            v == views(fields@),
            forall|k: int| i < k < j ==> #[trigger] v[k] != v[i as int],
        decreases n - j,
    {
        assert(v[j as int] == fields@[j as int]@);
        assert(v[i as int] == fields@[i as int]@);
        if *fields[j].as_str() == *fields[i].as_str() {
            return false;
        }
        j += 1;
    }
    true
}

/// The manifests of a preinstallation: of the patches all that belong to it, and
/// of the next version one for each part of the game.
pub fn preinstall_manifests(
    patch_fields: &Vec<String>,
    main_fields: &Vec<String>,
    vo_lang: &str,
) -> (r: SophonResult<(Vec<usize>, Vec<usize>)>)
    ensures
        ({
            let p = qualifying_below(views(patch_fields@), vo_lang@, patch_fields@.len() as int);
            let m = mains_below(views(main_fields@), vo_lang@, main_fields@.len() as int);
            if p.len() == 0 || m.len() == 0 {
                r matches Err(e) && e@ == ErrorView::NoGameManifest
            } else {
                r matches Ok(t) && as_ints(t.0@) == p && as_ints(t.1@) == m
            }
        }),
{
    let patches = match qualifying_manifests(patch_fields, vo_lang) {
        Ok(v) => v,
        Err(e) => return Err(e),
    };
    let ghost v = views(main_fields@);
    let mut mains: Vec<usize> = Vec::new();
    let mut i: usize = 0;
    assert(as_ints(mains@) =~= mains_below(v, vo_lang@, 0));
    while i < main_fields.len()
        invariant
            i <= main_fields@.len(),
            v == views(main_fields@),
            as_ints(mains@) == mains_below(v, vo_lang@, i as int),
        decreases main_fields@.len() - i,
    {
        let ghost before = as_ints(mains@);
        assert(v[i as int] == main_fields@[i as int]@);
        if manifest_qualifies(main_fields[i].as_str(), vo_lang) && is_last_for_field(
            main_fields,
            i,
        ) {
            mains.push(i);
            assert(as_ints(mains@) =~= before.push(i as int));
        }
        i += 1;
    }
    assert(as_ints(mains@).len() == mains@.len());
    if mains.len() == 0 {
        return Err(SophonError::NoGameManifest);
    }
    Ok((patches, mains))
}

/// The bytes of the first `n` patch files.
pub open spec fn patch_bytes(files: Seq<PatchFileView>, n: int) -> int
    decreases n,
{
    if n <= 0 {
        0
    } else {
        patch_bytes(files, n - 1) + files[n - 1].patch_size
    }
}

/// The bytes of those of the first `n` patch files that are already there.
pub open spec fn kept_bytes(files: Seq<PatchFileView>, sound: Seq<bool>, n: int) -> int
    decreases n,
{
    if n <= 0 {
        0
    } else if sound[n - 1] {
        kept_bytes(files, sound, n - 1) + files[n - 1].patch_size
    } else {
        kept_bytes(files, sound, n - 1)
    }
}

/// What is known to be downloaded once the first `n` patch files are checked.
pub open spec fn known_below(
    start: Map<Seq<char>, u64>,
    files: Seq<PatchFileView>,
    sound: Seq<bool>,
    n: int,
) -> Map<Seq<char>, u64>
    decreases n,
{
    if n <= 0 {
        start
    } else if sound[n - 1] {
        known_below(start, files, sound, n - 1).insert(
            files[n - 1].patch_name,
            files[n - 1].patch_size,
        )
    } else {
        known_below(start, files, sound, n - 1)
    }
}

/// Those of the first `n` patch files that are not known to be downloaded.
pub open spec fn queue_below(files: Seq<PatchFileView>, known: Set<Seq<char>>, n: int) -> Seq<
    PatchFileView,
>
    decreases n,
{
    if n <= 0 {
        Seq::empty()
    } else if known.contains(files[n - 1].patch_name) {
        queue_below(files, known, n - 1)
    } else {
        queue_below(files, known, n - 1).push(files[n - 1])
    }
}

/// `x`, counted in 64 bits.
pub open spec fn wrapped(x: int) -> int {
    x % 0x1_0000_0000_0000_0000
}

/// The downloads of a preinstallation: what is known to be there, and what is to
/// be fetched.
pub struct PreinstallDownload {
    /// The bytes of all patch files.
    pub total_bytes: u64,
    /// The bytes of the patch files that were there from the start.
    pub resume_offset: u64,
    /// The patch files that are there, with their sizes.
    pub known: NameMap,
    /// The patch files to fetch.
    pub queue: Vec<PatchChunkInfo>,
    /// How many patch files were fetched.
    pub fetched: u64,
}

/// The bytes of all patch files.
pub fn total_patch_bytes(chunks: &Vec<PatchChunkInfo>) -> (r: u64)
    ensures
        r == saturated(patch_bytes(patch_file_views(chunks@), chunks@.len() as int)),
{
    let ghost v = patch_file_views(chunks@);
    let mut total: u64 = 0;
    let mut i: usize = 0;
    while i < chunks.len()
        invariant
            i <= chunks@.len(),
            v == patch_file_views(chunks@),
            total == saturated(patch_bytes(v, i as int)),
            patch_bytes(v, i as int) >= 0,
        decreases chunks@.len() - i,
    {
        assert(v[i as int] == chunks@[i as int]@);
        total = total.saturating_add(chunks[i].patch_size);
        i += 1;
    }
    total
}

/// Starts the downloads of a preinstallation, from what an earlier run has noted
/// and from the patch files that are there with the hashes they have to have.
pub fn begin_preinstall_download(
    chunks: &Vec<PatchChunkInfo>,
    resume_chunks: NameMap,
    sound: &Vec<bool>,
) -> (r: PreinstallDownload)
    requires
        chunks@.len() == sound@.len(),
    ensures
        ({
            let v = patch_file_views(chunks@);
            let n = v.len() as int;
            &&& r.total_bytes == saturated(patch_bytes(v, n))
            &&& r.resume_offset == wrapped(kept_bytes(v, sound@, n))
            &&& numbers(r.known) == known_below(numbers(resume_chunks), v, sound@, n)
            &&& patch_file_views(r.queue@) == queue_below(v, numbers(r.known).dom(), n)
            &&& r.fetched == 0
        }),
{
    let ghost v = patch_file_views(chunks@);
    let ghost start = numbers(resume_chunks);
    let mut known = resume_chunks;
    let mut offset: u64 = 0;
    let mut i: usize = 0;
    while i < chunks.len()
        invariant
            i <= chunks@.len(),
            chunks@.len() == sound@.len(),
            v == patch_file_views(chunks@),
            offset == wrapped(kept_bytes(v, sound@, i as int)),
            kept_bytes(v, sound@, i as int) >= 0,
            numbers(known) == known_below(start, v, sound@, i as int),
        decreases chunks@.len() - i,
    {
        let c = &chunks[i];
        assert(v[i as int] == c@);
        if sound[i] {
            put_number(&mut known, c.patch_name.clone(), c.patch_size);
            offset = offset.wrapping_add(c.patch_size);
        }
        i += 1;
    }
    let ghost have = numbers(known).dom();
    let mut queue: Vec<PatchChunkInfo> = Vec::new();
    let mut k: usize = 0;
    assert(patch_file_views(queue@) =~= queue_below(v, have, 0));
    while k < chunks.len()
        invariant
            k <= chunks@.len(),
            v == patch_file_views(chunks@),
            have == numbers(known).dom(),
            patch_file_views(queue@) == queue_below(v, have, k as int),
        decreases chunks@.len() - k,
    {
        let c = &chunks[k];
        assert(v[k as int] == c@);
        let ghost before = patch_file_views(queue@);
        if number_at(&known, c.patch_name.as_str()).is_none() {
            queue.push(c.clone());
            assert(patch_file_views(queue@) =~= before.push(c@));
        }
        k += 1;
    }
    PreinstallDownload {
        total_bytes: total_patch_bytes(chunks),
        resume_offset: offset,
        known,
        queue,
        fetched: 0,
    }
}

/// Whether the next patch file is fetched, or why not.
pub fn next_patch_file(chunk: &PatchChunkInfo, cancelled: bool) -> (r: SophonResult<()>)
    ensures
        if cancelled {
            r matches Err(e) && e@ == ErrorView::Cancelled
        } else {
            match patch_name_fault(chunk@.patch_name) {
                None => r is Ok,
                Some(e) => r matches Err(f) && f@ == e,
            }
        },
{
    if cancelled {
        return Err(SophonError::Cancelled);
    }
    validate_patch_name(chunk.patch_name.as_str())
}

impl PreinstallDownload {
    /// Notes a patch file that was fetched, and says whether the state is saved:
    /// after every `interval` files.
    pub fn note_fetched(&mut self, chunk: &PatchChunkInfo, interval: u64) -> (r: bool)
        requires
            old(self).fetched < u64::MAX,
            interval > 0,
        ensures
            numbers(final(self).known) == numbers(old(self).known).insert(
                chunk@.patch_name,
                chunk@.patch_size,
            ),
            final(self).fetched == old(self).fetched + 1,
            final(self).total_bytes == old(self).total_bytes,
            final(self).resume_offset == old(self).resume_offset,
            final(self).queue == old(self).queue,
            r == (final(self).fetched % interval == 0),
    {
        put_number(&mut self.known, chunk.patch_name.clone(), chunk.patch_size);
        self.fetched = self.fetched + 1;
        self.fetched % interval == 0
    }
}

/// How many workers there are at the start.
pub fn initial_workers(target: usize, total: usize) -> (r: usize)
    ensures
        r == if target <= total {
            target
        } else {
            total
        },
{
    if target <= total {
        target
    } else {
        total
    }
}

/// How many workers there are once the target has changed: more, up to the
/// target, as long as the queue is longer than their number, and never fewer.
pub fn scaled_workers(spawned: usize, target: usize, queued: usize) -> (r: usize)
    ensures
        r >= spawned,
        r > spawned ==> r <= target && r <= queued,
        r < target ==> r >= queued,
{
    let mut n: usize = spawned;
    while n < target && queued > n
        invariant
            n >= spawned,
            n > spawned ==> n <= target && n <= queued,
        decreases target - n,
    {
        n += 1;
    }
    n
}

/// Why an answer is refused before its body is read, if it is.
pub open spec fn status_fault(status: u16, url: Seq<char>) -> Option<ErrorView> {
    if 400 <= status < 500 {
        Some(ErrorView::ApiError(status as i32, signed_decimal(status as int) + " for "@ + url))
    } else {
        None
    }
}

/// Refuses an answer that says that the request was wrong.
pub fn check_status(status: u16, url: &str) -> (r: SophonResult<()>)
    ensures
        match status_fault(status, url@) {
            None => r is Ok,
            Some(e) => r matches Err(f) && f@ == e,
        },
{
    if status >= 400 && status < 500 {
        let mut text: String = String::new();
        push_signed_decimal(&mut text, status as i64);
        assert(text@ =~= signed_decimal(status as int));
        text.append(" for ");
        text.append(url);
        return Err(SophonError::ApiError(status as i32, text));
    }
    Ok(())
}

/// A patch file on its way: its bytes so far, and how many there are to be.
#[derive(Debug)]
pub struct PatchStream {
    pub content_length: Option<u64>,
    pub total_len: u64,
}

/// Why a piece of a patch file is refused, if it is.
pub open spec fn piece_fault(s: PatchStream, len: u64, item: Seq<char>) -> Option<ErrorView> {
    match s.content_length {
        None => if len == 0 {
            Some(ErrorView::Io("corrupted compressed data: empty chunk while data remaining"@))
        } else {
            None
        },
        Some(expected) => if len == 0 && s.total_len < expected {
            Some(ErrorView::Io("corrupted compressed data: empty chunk while data remaining"@))
        } else if s.total_len + len > expected {
            Some(
                ErrorView::SizeMismatch { item, expected, actual: (s.total_len + len) as u64 },
            )
        } else {
            None
        },
    }
}

/// What is wrong with a patch file that has come to its end, if anything.
pub open spec fn end_fault(
    s: PatchStream,
    item: Seq<char>,
    expected_md5: Seq<char>,
    data: Seq<u8>,
) -> Option<ErrorView> {
    if s.content_length is Some && s.total_len != s.content_length->0 {
        Some(
            ErrorView::SizeMismatch {
                item,
                expected: s.content_length->0,
                actual: s.total_len,
            },
        )
    } else if expected_md5.len() > 0 && !same_ignoring_case(md5_hex_of(data), expected_md5) {
        Some(ErrorView::Md5Mismatch { item, expected: expected_md5, actual: md5_hex_of(data) })
    } else {
        None
    }
}

impl PatchStream {
    /// A patch file of which nothing has come yet.
    pub fn new(content_length: Option<u64>) -> (r: Self)
        ensures
            r.content_length == content_length,
            r.total_len == 0,
    {
        PatchStream { content_length, total_len: 0 }
    }

    /// Takes the next `len` bytes into account. Where they are refused, what was
    /// counted is `total_len`.
    pub fn take_piece(&mut self, len: u64, item: &str) -> (r: SophonResult<()>)
        requires
            old(self).total_len + len <= u64::MAX,
        ensures
            final(self).content_length == old(self).content_length,
            match piece_fault(*old(self), len, item@) {
                None => r is Ok && final(self).total_len == old(self).total_len + len,
                Some(e) => r matches Err(f) && f@ == e && final(self).total_len == old(
                    self,
                ).total_len + len,
            },
    {
        let open = match self.content_length {
            None => true,
            Some(expected) => self.total_len < expected,
        };
        if len == 0 && open {
            return Err(
                SophonError::Io(
                    "corrupted compressed data: empty chunk while data remaining".to_owned(),
                ),
            );
        }
        self.total_len = self.total_len + len;
        match self.content_length {
            Some(expected) => if self.total_len > expected {
                return Err(
                    SophonError::SizeMismatch {
                        item: item.to_owned(),
                        expected,
                        actual: self.total_len,
                    },
                );
            },
            None => {},
        }
        Ok(())
    }

    /// Checks a patch file that has come to its end.
    pub fn finish(&self, item: &str, expected_md5: &str, data: &Vec<u8>) -> (r: SophonResult<()>)
        ensures
            match end_fault(*self, item@, expected_md5@, data@) {
                None => r is Ok,
                Some(e) => r matches Err(f) && f@ == e,
            },
    {
        match self.content_length {
            Some(expected) => if self.total_len != expected {
                return Err(
                    SophonError::SizeMismatch {
                        item: item.to_owned(),
                        expected,
                        actual: self.total_len,
                    },
                );
            },
            None => {},
        }
        if !expected_md5.is_empty() {
            let actual = md5_hex(data);
            if !equal_ignoring_case(actual.as_str(), expected_md5) {
                return Err(
                    SophonError::Md5Mismatch {
                        item: item.to_owned(),
                        expected: expected_md5.to_owned(),
                        actual,
                    },
                );
            }
        }
        Ok(())
    }
}

/// What a preinstallation leaves for the update.
pub struct PreinstallState {
    pub tag: String,
    pub game_id: String,
    pub vo_lang: String,
    pub installed_tag: String,
    pub patch_assets: Vec<PatchAssetInfo>,
    pub deleted_files: Vec<String>,
    pub downloaded_chunks: NameSet,
    pub diff_downloads: DiffDownloads,
    pub main_chunk_download: DownloadInfo,
    pub main_manifest_ids: Vec<(String, String)>,
}

impl PreinstallState {
    /// The file, in the game directory, that holds the state for a version.
    pub fn state_file_path(tag: &str) -> (r: String)
        ensures
            r@ == state_name(tag@),
    {
        state_file_name(tag)
    }

    /// The file, in the game directory, that marks a version as preinstalled.
    pub fn marker_file_path(tag: &str) -> (r: String)
        ensures
            r@ == marker_name(tag@),
    {
        marker_file_name(tag)
    }
}

/// The state that a preinstallation leaves, once its patch files are there.
pub fn finish_preinstall_download(
    plan: PreinstallPlan,
    game_id: &str,
    vo_lang: &str,
    installed_tag: String,
    known: &NameMap,
) -> (r: PreinstallState)
    ensures
        r.tag@ == plan.tag@,
        r.game_id@ == game_id@,
        r.vo_lang@ == vo_lang@,
        r.installed_tag@ == installed_tag@,
        target_views(r.patch_assets@) == target_views(plan.patch_assets@),
        views(r.deleted_files@) == views(plan.deleted_files@),
        names(r.downloaded_chunks) == numbers(*known).dom(),
        r.diff_downloads == plan.diff_downloads,
        r.main_chunk_download@ == plan.main_chunk_download@,
        id_pairs(r.main_manifest_ids@) == id_pairs(plan.main_manifest_ids@),
{
    let keys = numbered_names(known);
    let mut downloaded: NameSet = new_name_set();
    let mut i: usize = 0;
    assert(views(keys@).take(0).to_set() =~= Set::<Seq<char>>::empty());
    while i < keys.len()
        invariant
            i <= keys@.len(),
            names(downloaded) == views(keys@).take(i as int).to_set(),
        decreases keys@.len() - i,
    {
        add_name(&mut downloaded, keys[i].clone());
        proof {
            let v = views(keys@);
            let now = v.take(i as int + 1);
            assert(now =~= v.take(i as int).push(v[i as int]));
            assert forall|x: Seq<char>| #[trigger] now.to_set().contains(x) == (v.take(
                i as int,
            ).to_set().contains(x) || x == v[i as int]) by {
                if now.contains(x) {
                    let k = choose|k: int| 0 <= k < now.len() && now[k] == x;
                    if k < i {
                        assert(v.take(i as int)[k] == x);
                    }
                }
                if v.take(i as int).contains(x) {
                    let k = choose|k: int|
                        0 <= k < v.take(i as int).len() && v.take(i as int)[k] == x;
                    assert(now[k] == x);
                }
                assert(now[i as int] == v[i as int]);
            }
            assert(names(downloaded) =~= now.to_set());
        }
        i += 1;
    }
    assert(views(keys@).take(i as int) =~= views(keys@));
    PreinstallState {
        tag: plan.tag,
        game_id: game_id.to_owned(),
        vo_lang: vo_lang.to_owned(),
        installed_tag,
        patch_assets: plan.patch_assets,
        deleted_files: plan.deleted_files,
        downloaded_chunks: downloaded,
        diff_downloads: plan.diff_downloads,
        main_chunk_download: plan.main_chunk_download,
        main_manifest_ids: plan.main_manifest_ids,
    }
}

/// What is neither known to an earlier run nor there is fetched, and nothing else.
pub proof fn law_missing_patch_files_are_fetched(
    start: Map<Seq<char>, u64>,
    files: Seq<PatchFileView>,
    sound: Seq<bool>,
    n: int,
    k: int,
)
    requires
        0 <= k < n <= files.len(),
        files.len() == sound.len(),
        forall|i: int, j: int|
            0 <= i < j < files.len() ==> (#[trigger] files[i]).patch_name != (
            #[trigger] files[j]).patch_name,
    ensures
        ({
            let known = known_below(start, files, sound, files.len() as int).dom();
            queue_below(files, known, n).contains(files[k]) <==> !start.dom().contains(
                files[k].patch_name,
            ) && !sound[k]
        }),
{
    let all = files.len() as int;
    let known = known_below(start, files, sound, all).dom();
    lemma_known(start, files, sound, all, files[k].patch_name);
    if known.contains(files[k].patch_name) && !start.dom().contains(files[k].patch_name) {
        let i = choose|i: int|
            0 <= i < all && sound[i] && (#[trigger] files[i]).patch_name == files[k].patch_name;
        assert(i == k);
    }
    if sound[k] {
        assert(files[k].patch_name == files[k].patch_name);
        assert(known.contains(files[k].patch_name));
    }
    lemma_queue(files, known, n, k);
}

/// A name is known where it was at the start, or where a file of that name is
/// there.
proof fn lemma_known(
    start: Map<Seq<char>, u64>,
    files: Seq<PatchFileView>,
    sound: Seq<bool>,
    n: int,
    name: Seq<char>,
)
    requires
        0 <= n <= files.len(),
        files.len() == sound.len(),
    ensures
        known_below(start, files, sound, n).dom().contains(name) <==> start.dom().contains(name)
            || exists|i: int| 0 <= i < n && sound[i] && (#[trigger] files[i]).patch_name == name,
    decreases n,
{
    if n > 0 {
        lemma_known(start, files, sound, n - 1, name);
        if exists|i: int|
            0 <= i < n - 1 && sound[i] && (#[trigger] files[i]).patch_name == name {
            let i = choose|i: int|
                0 <= i < n - 1 && sound[i] && (#[trigger] files[i]).patch_name == name;
            assert(files[i].patch_name == name);
        }
        if sound[n - 1] && files[n - 1].patch_name == name {
            assert(files[n - 1].patch_name == name);
        }
    }
}

/// What is queued is what is not known.
proof fn lemma_queue(files: Seq<PatchFileView>, known: Set<Seq<char>>, n: int, k: int)
    requires
        0 <= k < n <= files.len(),
        forall|i: int, j: int|
            0 <= i < j < files.len() ==> (#[trigger] files[i]).patch_name != (
            #[trigger] files[j]).patch_name,
    ensures
        queue_below(files, known, n).contains(files[k]) <==> !known.contains(files[k].patch_name),
    decreases n,
{
    let q = queue_below(files, known, n);
    let head = queue_below(files, known, n - 1);
    if k == n - 1 {
        if !known.contains(files[k].patch_name) {
            assert(q.last() == files[k]);
        } else if q.contains(files[k]) {
            let i = choose|i: int| 0 <= i < q.len() && q[i] == files[k];
            lemma_queued_unknown(files, known, n, i);
        }
    } else {
        lemma_queue(files, known, n - 1, k);
        if head.contains(files[k]) {
            let i = choose|i: int| 0 <= i < head.len() && head[i] == files[k];
            assert(q[i] == files[k]);
        }
        if q.contains(files[k]) {
            let i = choose|i: int| 0 <= i < q.len() && q[i] == files[k];
            lemma_queued_unknown(files, known, n, i);
        }
    }
}

/// Nothing that is known is queued.
proof fn lemma_queued_unknown(files: Seq<PatchFileView>, known: Set<Seq<char>>, n: int, i: int)
    requires
        0 <= n <= files.len(),
        0 <= i < queue_below(files, known, n).len(),
    ensures
        !known.contains(queue_below(files, known, n)[i].patch_name),
    decreases n,
{
    if n > 0 && i < queue_below(files, known, n - 1).len() {
        lemma_queued_unknown(files, known, n - 1, i);
    }
}

/// Of the manifests of the next version exactly those belong to a preinstallation
/// that belong to an installation in the language, one for each part of the game:
/// the last.
pub proof fn law_one_manifest_for_each_part(fields: Seq<Seq<char>>, lang: Seq<char>, n: int)
    requires
        0 <= n <= fields.len(),
    ensures
        forall|i: int| #[trigger]
            mains_below(fields, lang, n).contains(i) <==> 0 <= i < n && (fields[i] == "game"@
                || speaks(fields[i], lang) || !known_locale(fields[i])) && (forall|j: int|
                i < j < fields.len() ==> #[trigger] fields[j] != fields[i]),
    decreases n,
{
    if n > 0 {
        law_one_manifest_for_each_part(fields, lang, n - 1);
        let b = mains_below(fields, lang, n - 1);
        let r = mains_below(fields, lang, n);
        assert forall|i: int| #[trigger] r.contains(i) <==> 0 <= i < n && (fields[i] == "game"@
            || speaks(fields[i], lang) || !known_locale(fields[i])) && (forall|j: int|
            i < j < fields.len() ==> #[trigger] fields[j] != fields[i]) by {
            assert(b.contains(i) <==> 0 <= i < n - 1 && (fields[i] == "game"@ || speaks(
                fields[i],
                lang,
            ) || !known_locale(fields[i])) && last_for_field(fields, i));
            if b.contains(i) {
                let j = choose|j: int| 0 <= j < b.len() && b[j] == i;
                assert(r[j] == i);
            }
            if r.contains(i) {
                let j = choose|j: int| 0 <= j < r.len() && r[j] == i;
                if j < b.len() {
                    assert(b[j] == i);
                }
            }
            if i == n - 1 && r.len() > b.len() {
                assert(r[b.len() as int] == i);
            }
        }
    }
}

/// The bytes of all patch files are those that are there and those that are not;
/// where every file is there, they are the ones that are there.
pub proof fn law_patch_bytes_add_up(files: Seq<PatchFileView>, sound: Seq<bool>, n: int)
    requires
        0 <= n <= files.len(),
        sound.len() == files.len(),
    ensures
        patch_bytes(files, n) == kept_bytes(files, sound, n) + kept_bytes(
            files,
            sound.map_values(|b: bool| !b),
            n,
        ),
        0 <= kept_bytes(files, sound, n) <= patch_bytes(files, n),
        (forall|i: int| 0 <= i < n ==> #[trigger] sound[i]) ==> kept_bytes(files, sound, n)
            == patch_bytes(files, n),
        (forall|i: int| 0 <= i < n ==> !#[trigger] sound[i]) ==> kept_bytes(files, sound, n) == 0,
        forall|i: int|
            0 <= i < n && sound[i] ==> (#[trigger] files[i]).patch_size <= kept_bytes(
                files,
                sound,
                n,
            ),
    decreases n,
{
    if n > 0 {
        law_patch_bytes_add_up(files, sound, n - 1);
        let other = sound.map_values(|b: bool| !b);
        assert(other[n - 1] == !sound[n - 1]);
        lemma_kept_positive(files, sound, n - 1);
        lemma_kept_positive(files, other, n - 1);
    }
}

proof fn lemma_kept_positive(files: Seq<PatchFileView>, sound: Seq<bool>, n: int)
    ensures
        kept_bytes(files, sound, n) >= 0,
    decreases n,
{
    if n > 0 {
        lemma_kept_positive(files, sound, n - 1);
    }
}

/// What is known to be downloaded is what an earlier run has noted, and every
/// patch file that is there, with its size; of a name that is listed once, nothing
/// else is known.
pub proof fn law_known_patch_files_are_there(
    start: Map<Seq<char>, u64>,
    files: Seq<PatchFileView>,
    sound: Seq<bool>,
    n: int,
    name: Seq<char>,
)
    requires
        0 <= n <= files.len(),
        files.len() == sound.len(),
        forall|i: int, j: int|
            0 <= i < j < files.len() ==> (#[trigger] files[i]).patch_name != (
            #[trigger] files[j]).patch_name,
    ensures
        ({
            let known = known_below(start, files, sound, n);
            &&& forall|i: int|
                0 <= i < n && sound[i] && (#[trigger] files[i]).patch_name == name
                    ==> known.dom().contains(name) && known[name] == files[i].patch_size
            &&& (forall|i: int|
                0 <= i < n && sound[i] ==> (#[trigger] files[i]).patch_name != name) ==> (
            known.dom().contains(name) <==> start.dom().contains(name)) && (start.dom().contains(
                name,
            ) ==> known[name] == start[name])
        }),
    decreases n,
{
    if n > 0 {
        law_known_patch_files_are_there(start, files, sound, n - 1, name);
        assert forall|i: int|
            0 <= i < n && sound[i] && (#[trigger] files[i]).patch_name == name implies known_below(
            start,
            files,
            sound,
            n,
        ).dom().contains(name) && known_below(start, files, sound, n)[name]
            == files[i].patch_size by {
            if i < n - 1 {
                assert(files[i].patch_name != files[n - 1].patch_name);
            }
        }
        if forall|i: int| 0 <= i < n && sound[i] ==> (#[trigger] files[i]).patch_name != name {
            assert(sound[n - 1] ==> files[n - 1].patch_name != name);
        }
    }
}

/// A patch file is taken for whole only where it has as many bytes as were stated
/// and the stated checksum, as far as they were stated; and then it is. None of its
/// pieces leads past the stated end.
pub proof fn law_patch_files_are_whole(
    s: PatchStream,
    len: u64,
    item: Seq<char>,
    expected_md5: Seq<char>,
    data: Seq<u8>,
)
    ensures
        end_fault(s, item, expected_md5, data) is None <==> (s.content_length matches Some(n)
            ==> s.total_len == n) && (expected_md5.len() > 0 ==> same_ignoring_case(
            md5_hex_of(data),
            expected_md5,
        )),
        piece_fault(s, len, item) is None && s.content_length is Some ==> s.total_len + len
            <= s.content_length->0,
        len > 0 && (s.content_length matches Some(n) ==> s.total_len + len <= n) ==> piece_fault(
            s,
            len,
            item,
        ) is None,
        s.content_length is None && len == 0 ==> piece_fault(s, len, item) is Some,
{
}

/// Exactly the answers that say that the request was wrong are refused.
pub proof fn law_wrong_requests_are_told(status: u16, url: Seq<char>)
    ensures
        status_fault(status, url) is Some <==> 400 <= status <= 499,
        status_fault(status, url) matches Some(e) ==> e matches ErrorView::ApiError(code, _)
            && code == status,
{
}

} // verus!
